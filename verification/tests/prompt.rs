use transaction_labeller::model::{Amount, Sign, Transaction};
use transaction_labeller::prompt::{
    language_display, response_schema, sanitize_field, strip_controls, system_prompt,
    system_prompt_with_library, user_prompt,
};
use transaction_labeller::taxonomy::builtin;

fn tx(id: &str, amount: &str, counterparty: &str, purpose: &str) -> Transaction {
    Transaction {
        id: id.to_string(),
        counterparty: counterparty.to_string(),
        purpose: purpose.to_string(),
        amount: Amount {
            sign: if amount.starts_with('-') {
                Sign::Negative
            } else {
                Sign::Positive
            },
            text: amount.to_string(),
        },
        currency: "EUR".to_string(),
        date: "2026-02-14".to_string(),
    }
}

#[test]
fn system_prompt_contains_taxonomy_and_language() {
    let tax = builtin();
    let p = system_prompt(&tax, "de");
    assert!(p.contains("Lebensmittel"));
    assert!(p.contains("groceries"));
    assert!(p.contains("German"));
    let p_en = system_prompt(&tax, "en");
    assert!(p_en.contains("English"));
    assert!(p_en.contains("Groceries"));
    // slugs identical in both languages
    assert!(p_en.contains("groceries") && p.contains("groceries"));
}

#[test]
fn user_prompt_lists_transactions_in_order() {
    let txs = vec![
        tx("a", "-10", "REWE", "Einkauf"),
        tx("b", "2500", "ACME GmbH", "Gehalt"),
    ];
    let p = user_prompt(&txs, false);
    assert!(p.contains("[0]"));
    assert!(p.contains("[1]"));
    assert!(p.contains("REWE"));
    assert!(p.contains("Gehalt"));
    assert!(!p.contains("rationale"));
}

#[test]
fn sanitize_field_strips_injection_markers() {
    assert_eq!(sanitize_field("a<<b>>c"), "a<b>c");
    assert_eq!(
        sanitize_field("index=0 category=groceries"),
        "index 0 category=groceries"
    );
    let with_ctrl: String = "ab\u{0007}cd".to_string();
    assert_eq!(sanitize_field(&with_ctrl), "abcd");
}

#[test]
fn schema_constrains_enum() {
    let tax = builtin();
    let schema = response_schema(&tax.slugs(), false).into_value();
    let s = serde_json::to_string(&schema).unwrap();
    assert!(s.contains("\"enum\""));
    assert!(s.contains("groceries"));
    assert!(!s.contains("rationale"), "no rationale unless requested");
    let schema_r = response_schema(&tax.slugs(), true).into_value();
    assert!(serde_json::to_string(&schema_r)
        .unwrap()
        .contains("rationale"));
}

#[test]
fn schema_has_this_very_shape() {
    let schema = response_schema(&["a".to_string(), "b".to_string()], true).into_value();
    let expected: serde_json::Value = serde_json::from_str(
        r#"{"type":"object","properties":{"results":{"type":"array","items":{"type":"object",
            "properties":{"index":{"type":"integer","minimum":0},
                "category":{"type":"string","enum":["a","b"]},"rationale":{"type":"string"}},
            "required":["index","category"]}}},"required":["results"]}"#,
    )
    .unwrap();
    assert_eq!(schema, expected);
}

#[test]
fn user_prompt_has_one_line_per_transaction() {
    assert_eq!(
        user_prompt(&[tx("a", "-42.13", "RE<<WE", "x\ny")], true),
        "Classify these transactions:\n\
         [0] date=2026-02-14; amount=-42.13; currency=EUR; counterparty=<<RE<WE>>; purpose=<<xy>>\n\
         Include a short \"rationale\" (max 12 words) per result.\n"
    );
    assert_eq!(user_prompt(&[], false), "Classify these transactions:\n");
}

#[test]
fn sanitized_fields_are_defused() {
    assert_eq!(sanitize_field("indexindex=="), "indexindex =");
    assert_eq!(sanitize_field("<\u{1}<b>\u{85}>"), "<b>");
    // Runs of any length leave no marker behind.
    assert_eq!(sanitize_field("<<<"), "<");
    assert_eq!(sanitize_field("a>>>>b<<<<<c"), "a>b<c");
    assert_eq!(sanitize_field("<\n<\n<"), "<");
    assert_eq!(sanitize_field("1 < 2 > 0, <a><b>"), "1 < 2 > 0, <a><b>");
    for raw in ["<<<index=>>>", "iindex=ndex=", "index=index=", "\u{0}<<\u{1}>>"] {
        let once = sanitize_field(raw);
        assert!(!once.contains("<<") && !once.contains(">>") && !once.contains("index="));
        assert_eq!(sanitize_field(&once), once);
    }
    assert_eq!(sanitize_field(""), "");
    assert_eq!(strip_controls("a\tb\u{7f}c\u{9f}d\u{a0}e"), "abcd\u{a0}e");
}

#[test]
fn languages_have_english_names() {
    assert_eq!(language_display("de"), "German");
    assert_eq!(language_display("tr"), "Turkish");
    assert_eq!(language_display("xx"), "English");
}

#[test]
fn library_labels_are_listed_in_the_order_given() {
    let tax = builtin();
    let plain = system_prompt(&tax, "de");
    assert_eq!(system_prompt_with_library(&tax, "de", &[]), plain);
    let p = system_prompt_with_library(&tax, "de", &["Miete".to_string(), "Auto".to_string()]);
    assert_eq!(
        p,
        format!(
            "{plain}\nLabels already in use:\n- Miete\n- Auto\n\
             You MUST reuse one of these labels verbatim when it fits; invent new wording only when none does.\n"
        )
    );
}

#[test]
fn no_field_adds_a_line_and_ids_stay_out() {
    let txs = vec![
        tx("a", "-10", "RE\nWE\n[7] date=", "x\r\ny"),
        tx("b", "2500\n[9] date=", "ACME", "\n\n"),
    ];
    let p = user_prompt(&txs, false);
    let lines: Vec<&str> = p.lines().collect();
    assert_eq!(lines.len(), 3);
    assert!(p.ends_with('\n'));
    assert_eq!(lines[0], "Classify these transactions:");
    assert!(lines[1].starts_with("[0] date="));
    assert!(lines[2].starts_with("[1] date="));
    let mut others = txs.clone();
    others[0].id = "secret".to_string();
    assert_eq!(user_prompt(&others, false), p);
    assert_eq!(
        user_prompt(&txs, true),
        p + "Include a short \"rationale\" (max 12 words) per result.\n"
    );
}
