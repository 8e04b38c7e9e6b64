use transaction_labeller::config::Config;
use transaction_labeller::library::LabelLibrary;
use transaction_labeller::llm::{LlmError, RawLabel};
use transaction_labeller::model::{Amount, BatchResponse, Sign, Transaction};
use transaction_labeller::pipeline::{
    clean_label, default_expense_label, default_income_label, has_room_for, record_outcome,
    ChunkOutcome, LabelFailure, LabelService,
};

fn service(micro_batch: usize) -> LabelService {
    let cfg = Config {
        micro_batch,
        ..Config::default()
    };
    LabelService::new(&cfg)
}

fn tx(id: &str, sign: Sign) -> Transaction {
    Transaction {
        id: id.to_string(),
        counterparty: "X".to_string(),
        purpose: "Y".to_string(),
        amount: Amount {
            sign,
            text: "1".to_string(),
        },
        currency: "EUR".to_string(),
        date: String::new(),
    }
}

fn said(label: &str) -> Option<RawLabel> {
    Some(RawLabel {
        label: label.to_string(),
        rationale: Some("why".to_string()),
    })
}

fn labels(r: &BatchResponse) -> Vec<String> {
    r.results.iter().map(|r| r.label.clone()).collect()
}

#[test]
fn fallback_labels_by_direction_and_language() {
    assert_eq!(default_expense_label("de"), "Sonstige Ausgaben");
    assert_eq!(default_expense_label("en"), "Other expenses");
    assert_eq!(default_income_label("de"), "Sonstige Einnahmen");
    assert_eq!(default_income_label("en"), "Other income");
    assert_eq!(
        default_expense_label("fr"),
        "Other expenses",
        "non-de falls back to en"
    );
}

#[test]
fn chunks_cover_the_request_in_order() {
    let txs: Vec<Transaction> = (0..7)
        .map(|i| tx(&format!("t{i}"), Sign::Negative))
        .collect();
    let chunks = service(3).chunks(&txs);
    let sizes: Vec<usize> = chunks.iter().map(|c| c.len()).collect();
    assert_eq!(sizes, vec![3, 3, 1]);
    let ids: Vec<String> = chunks.into_iter().flatten().map(|t| t.id).collect();
    assert_eq!(ids, vec!["t0", "t1", "t2", "t3", "t4", "t5", "t6"]);
    assert!(service(3).chunks(&vec![]).is_empty());
    assert_eq!(service(7).chunks(&txs).len(), 1);
}

#[test]
fn results_follow_the_input() {
    let svc = service(2);
    let txs: Vec<Transaction> = (0..3)
        .map(|i| tx(&format!("t{i}"), Sign::Negative))
        .collect();
    let answers = vec![
        vec![said("Miete"), said("Strom")],
        vec![said("Auto")],
    ];
    let outcomes: Vec<ChunkOutcome> = svc
        .chunks(&txs)
        .into_iter()
        .zip(answers)
        .map(|(chunk, raw)| ChunkOutcome {
            chunk,
            raw: Ok(raw),
            retried: vec![],
        })
        .collect();
    let r = svc.label(outcomes, "de", true, 12).unwrap();
    assert_eq!(labels(&r), vec!["Miete", "Strom", "Auto"]);
    let ids: Vec<&str> = r.results.iter().map(|r| r.id.as_str()).collect();
    assert_eq!(ids, vec!["t0", "t1", "t2"]);
    assert_eq!(r.batch_ms, 12);
    assert_eq!(r.results[0].rationale.as_deref(), Some("why"));
    assert_eq!(r.results[0].model, "qwen3.8:27b-q4_K_M");
}

#[test]
fn unusable_items_take_the_retry_then_the_generic_label() {
    let svc = service(8);
    let chunk = vec![
        tx("a", Sign::Negative),
        tx("b", Sign::Positive),
        tx("c", Sign::Negative),
        tx("d", Sign::Zero),
    ];
    let raw = vec![said("  "), None, said("Miete")];
    let answer = Ok(vec![said("  "), None, said("Miete")]);
    assert_eq!(svc.needs_retry(&answer, chunk.len()), vec![0, 1, 3]);
    assert_eq!(svc.needs_retry(&Err(LlmError::Timeout(1)), 2), vec![0, 1]);
    assert!(svc
        .needs_retry(&Err(LlmError::BadResponse("x".to_string())), 2)
        .is_empty());
    let retried = vec![said("Lebensmittel"), None, None, said("\u{7}")];
    let r = svc.validate_chunk(&chunk, &raw, &retried, "de", false);
    let got: Vec<&str> = r.iter().map(|r| r.label.as_str()).collect();
    assert_eq!(
        got,
        vec!["Lebensmittel", "Sonstige Einnahmen", "Miete", "Sonstige Ausgaben"]
    );
    assert!(r.iter().all(|r| r.rationale.is_none()));
}

#[test]
fn a_timeout_degrades_its_items_only() {
    let svc = service(1);
    let outcomes = vec![
        ChunkOutcome {
            chunk: vec![tx("a", Sign::Negative)],
            raw: Err(LlmError::Timeout(5)),
            retried: vec![None],
        },
        ChunkOutcome {
            chunk: vec![tx("b", Sign::Negative)],
            raw: Ok(vec![said("Miete")]),
            retried: vec![],
        },
    ];
    assert!(outcomes.iter().all(|o| !o.is_fatal()));
    let r = svc.label(outcomes, "en", false, 0).unwrap();
    assert_eq!(labels(&r), vec!["Other expenses", "Miete"]);
}

#[test]
fn the_first_backend_failure_fails_the_request() {
    let svc = service(1);
    let failed = |m: &str| ChunkOutcome {
        chunk: vec![tx("a", Sign::Negative)],
        raw: Err(LlmError::Unreachable(m.to_string())),
        retried: vec![],
    };
    let outcomes = vec![
        ChunkOutcome {
            chunk: vec![tx("z", Sign::Negative)],
            raw: Ok(vec![said("Miete")]),
            retried: vec![],
        },
        failed("first"),
        failed("second"),
    ];
    assert!(outcomes[1].is_fatal());
    match svc.label(outcomes, "de", false, 0) {
        Err(LabelFailure::Backend(LlmError::Unreachable(m))) => assert_eq!(m, "first"),
        other => panic!("{other:?}"),
    }
}

#[test]
fn labels_are_cleaned_and_bounded() {
    assert_eq!(clean_label(" \u{1}Mie\nte ").as_deref(), Some("Miete"));
    assert_eq!(clean_label(""), None);
    assert_eq!(clean_label(" \t "), None);
    let longest = "ü".repeat(64);
    assert_eq!(clean_label(&longest), Some(longest.clone()));
    assert_eq!(clean_label(&"x".repeat(65)), None);
    let once = clean_label("\u{7f} a b ").unwrap();
    assert_eq!(clean_label(&once), Some(once.clone()));
}

#[test]
fn a_single_answer_is_its_first_entry() {
    let svc = service(1);
    assert_eq!(
        svc.classify_single(Ok(vec![said("A"), said("B")])).unwrap().label,
        "A"
    );
    assert!(svc.classify_single(Ok(vec![])).is_none());
    assert!(svc.classify_single(Ok(vec![None])).is_none());
    assert!(svc.classify_single(Err(LlmError::Timeout(1))).is_none());
}

#[test]
fn only_requests_that_succeed_are_recorded() {
    let svc = service(2);
    let mut library = LabelLibrary::open("labels.json", None, 10);
    let failed: Result<BatchResponse, LabelFailure> =
        Err(LabelFailure::Backend(LlmError::Unreachable("x".to_string())));
    assert!(has_room_for(&library, "de", &failed));
    assert!(record_outcome(&mut library, "de", &failed).is_none());
    assert!(library.labels_for("de").is_empty());

    let outcome = svc.label(
        vec![ChunkOutcome {
            chunk: vec![tx("a", Sign::Negative), tx("b", Sign::Positive)],
            raw: Ok(vec![said("Miete"), None]),
            retried: vec![],
        }],
        "de",
        false,
        0,
    );
    assert!(has_room_for(&library, "de", &outcome));
    let text = record_outcome(&mut library, "de", &outcome).unwrap();
    let v: serde_json::Value = serde_json::from_str(&text).unwrap();
    assert_eq!(v["de"]["Miete"], 1);
    assert_eq!(v["de"]["Sonstige Einnahmen"], 1);
}
