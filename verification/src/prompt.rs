//! The prompts and the answer schema that are sent to the model.
use vstd::prelude::*;
use vstd::string::*;

use crate::json;
use crate::json::{add_member, json_text, json_text_array, Json, JsonTree};
use crate::model::Transaction;
use crate::taxonomy;
use crate::taxonomy::{Category, Taxonomy};
use crate::text;
use crate::text::{chars_of, decimal_text, replace_all, same_text};

verus! {

/// The English name of a language; English for a code that is not known.
pub open spec fn language_name(lang: Seq<char>) -> Seq<char> {
    if lang == "de"@ {
        "German"@
    } else if lang == "en"@ {
        "English"@
    } else if lang == "fr"@ {
        "French"@
    } else if lang == "es"@ {
        "Spanish"@
    } else if lang == "it"@ {
        "Italian"@
    } else if lang == "nl"@ {
        "Dutch"@
    } else if lang == "pt"@ {
        "Portuguese"@
    } else if lang == "sv"@ {
        "Swedish"@
    } else if lang == "da"@ {
        "Danish"@
    } else if lang == "pl"@ {
        "Polish"@
    } else if lang == "cs"@ {
        "Czech"@
    } else if lang == "tr"@ {
        "Turkish"@
    } else {
        "English"@
    }
}

/// The English name of a language; English for a code that is not known.
pub fn language_display(lang: &str) -> (r: &str)
    ensures
        r@ == language_name(lang@),
{
    if same_text(lang, "de") {
        "German"
    } else if same_text(lang, "en") {
        "English"
    } else if same_text(lang, "fr") {
        "French"
    } else if same_text(lang, "es") {
        "Spanish"
    } else if same_text(lang, "it") {
        "Italian"
    } else if same_text(lang, "nl") {
        "Dutch"
    } else if same_text(lang, "pt") {
        "Portuguese"
    } else if same_text(lang, "sv") {
        "Swedish"
    } else if same_text(lang, "da") {
        "Danish"
    } else if same_text(lang, "pl") {
        "Polish"
    } else if same_text(lang, "cs") {
        "Czech"
    } else if same_text(lang, "tr") {
        "Turkish"
    } else {
        "English"
    }
}

/// Role, rules and output contract.
pub open spec fn prompt_head(lang: Seq<char>) -> Seq<char> {
    "You are a bank transaction classifier. "@
        + "For each transaction you receive, choose exactly one category from the allowed list.\n"@
        + "Reply ONLY with a JSON object: {\"results\":[{\"index\":<int>,\"category\":\"<slug>\"}]} — one result per transaction, same order.\n"@
        + "Rules:\n"@
        + "- The response MUST be a single valid JSON object, no markdown, no extra text.\n"@
        + "- `category` MUST be one of the slugs listed below, copied exactly.\n"@
        + "- Category names are given in "@
        + language_name(lang)
        + "; the slug (left side) is what you output.\n"@
        + "- Choose the category by what the transaction is FOR, not by its wording.\n"@
        + "- \"Gehalt\", \"Lohn\", \"Salary\", \"payroll\" are always salary_income, never transfers.\n"@
        + "- \"REWE\", \"EDEKA\", \"ALDI\", \"LIDL\", \"Netto\", \"Whole Foods\", \"supermarket\", \"Groceries\" are groceries.\n"@
        + "- \"Amazon Prime\" is a subscription only when the purpose names the Prime membership; plain Amazon orders are shopping.\n"@
        + "- If nothing fits, use \"other_expense\" for outflows or \"other_income\" for inflows.\n\n"@
        + "Allowed categories (slug = localized name):\n"@
}

/// One line for each category: slug and localized name.
pub open spec fn category_lines(categories: Seq<Category>, lang: Seq<char>) -> Seq<char>
    decreases categories.len(),
{
    if categories.len() == 0 {
        Seq::empty()
    } else {
        let c = categories.last();
        category_lines(categories.drop_last(), lang) + ("- "@ + c.slug@ + " = "@
            + taxonomy::display_text(c.slug@, c.names@, lang) + "\n"@)
    }
}

/// Renders the system prompt: role, rules, taxonomy (localized), output contract.
pub fn system_prompt(tax: &Taxonomy, lang: &str) -> (r: String)
    ensures
        r@ == prompt_head(lang@) + category_lines(tax@, lang@),
{
    let mut s = "You are a bank transaction classifier. ".to_owned();
    s.append(
        "For each transaction you receive, choose exactly one category from the allowed list.\n",
    );
    s.append(
        "Reply ONLY with a JSON object: {\"results\":[{\"index\":<int>,\"category\":\"<slug>\"}]} — one result per transaction, same order.\n",
    );
    s.append(
        "Rules:\n",
    );
    s.append(
        "- The response MUST be a single valid JSON object, no markdown, no extra text.\n",
    );
    s.append(
        "- `category` MUST be one of the slugs listed below, copied exactly.\n",
    );
    s.append(
        "- Category names are given in ",
    );
    s.append(language_display(lang));
    s.append(
        "; the slug (left side) is what you output.\n",
    );
    s.append(
        "- Choose the category by what the transaction is FOR, not by its wording.\n",
    );
    s.append(
        "- \"Gehalt\", \"Lohn\", \"Salary\", \"payroll\" are always salary_income, never transfers.\n",
    );
    s.append(
        "- \"REWE\", \"EDEKA\", \"ALDI\", \"LIDL\", \"Netto\", \"Whole Foods\", \"supermarket\", \"Groceries\" are groceries.\n",
    );
    s.append(
        "- \"Amazon Prime\" is a subscription only when the purpose names the Prime membership; plain Amazon orders are shopping.\n",
    );
    s.append(
        "- If nothing fits, use \"other_expense\" for outflows or \"other_income\" for inflows.\n\n",
    );
    s.append(
        "Allowed categories (slug = localized name):\n",
    );
    let categories = tax.iter();
    let ghost head = s@;
    for i in 0..categories.len()
        invariant
            categories@ == tax@,
            head == prompt_head(lang@),
            s@ =~= head + category_lines(tax@.take(i as int), lang@),
    {
        let ghost before = s@;
        let c = &categories[i];
        s.append("- ");
        s.append(c.slug.as_str());
        s.append(" = ");
        s.append(c.display_name(lang));
        s.append("\n");
        assert(tax@.take(i + 1).drop_last() =~= tax@.take(i as int));
        assert(tax@.take(i + 1).last() == *c);
        assert(s@ =~= before + ("- "@ + c.slug@ + " = "@ + taxonomy::display_text(
            c.slug@,
            c.names@,
            lang@,
        ) + "\n"@));
    }
    assert(tax@.take(tax@.len() as int) =~= tax@);
    s
}

/// One line for each label that is already in use.
pub open spec fn label_lines(labels: Seq<Seq<char>>) -> Seq<char>
    decreases labels.len(),
{
    if labels.len() == 0 {
        Seq::empty()
    } else {
        label_lines(labels.drop_last()) + ("- "@ + labels.last() + "\n"@)
    }
}

/// The labels already in use, with the order to reuse them; nothing where there
/// are none.
pub open spec fn library_section(labels: Seq<Seq<char>>) -> Seq<char> {
    if labels.len() == 0 {
        Seq::empty()
    } else {
        "\nLabels already in use:\n"@ + label_lines(labels)
            + "You MUST reuse one of these labels verbatim when it fits; invent new wording only when none does.\n"@
    }
}

/// The system prompt followed by the labels that the library knows, most-used
/// first as they are given. Without labels the prompt does not change.
pub fn system_prompt_with_library(tax: &Taxonomy, lang: &str, labels: &[String]) -> (r: String)
    ensures
        r@ == prompt_head(lang@) + category_lines(tax@, lang@) + library_section(
            labels@.map_values(|l: String| l@),
        ),
{
    let mut s = system_prompt(tax, lang);
    let ghost views = labels@.map_values(|l: String| l@);
    let ghost base = s@;
    if labels.len() == 0 {
        assert(s@ =~= base + library_section(views));
        return s;
    }
    s.append("\nLabels already in use:\n");
    for i in 0..labels.len()
        invariant
            views == labels@.map_values(|l: String| l@),
            s@ =~= base + ("\nLabels already in use:\n"@ + label_lines(views.take(i as int))),
    {
        let ghost before = s@;
        s.append("- ");
        s.append(labels[i].as_str());
        s.append("\n");
        assert(views.take(i + 1).drop_last() =~= views.take(i as int));
        assert(s@ =~= before + ("- "@ + views[i as int] + "\n"@));
    }
    assert(views.take(labels@.len() as int) =~= views);
    s.append(
        "You MUST reuse one of these labels verbatim when it fits; invent new wording only when none does.\n",
    );
    assert(s@ =~= base + library_section(views));
    s
}

/// A control character: the Unicode category `Cc`.
pub open spec fn is_control(c: char) -> bool {
    c <= '\u{1f}' || '\u{7f}' <= c <= '\u{9f}'
}

/// `s` without its control characters.
pub open spec fn without_controls(s: Seq<char>) -> Seq<char> {
    s.filter(|c: char| !is_control(c))
}

/// No control character stands in `s`.
pub open spec fn free_of_controls(s: Seq<char>) -> bool {
    forall|i: int| 0 <= i < s.len() ==> !is_control(#[trigger] s[i])
}

pub proof fn lemma_without_controls(s: Seq<char>)
    ensures
        free_of_controls(without_controls(s)),
        free_of_controls(s) ==> without_controls(s) == s,
    decreases s.len(),
{
    reveal(Seq::filter);
    if s.len() > 0 {
        let rest = s.drop_last();
        lemma_without_controls(rest);
        if free_of_controls(s) {
            assert forall|i: int| 0 <= i < rest.len() implies !is_control(#[trigger] rest[i]) by {
                assert(rest[i] == s[i]);
            }
            assert(!is_control(s[s.len() - 1]));
            assert(without_controls(s) =~= s);
        }
    } else {
        assert(without_controls(s) =~= s);
    }
}

/// `s` without its control characters.
pub fn strip_controls(s: &str) -> (r: String)
    ensures
        r@ == without_controls(s@),
        r@ == s@.filter(|c: char| !(c <= '\u{1f}' || '\u{7f}' <= c <= '\u{9f}')),
{
    let v = chars_of(s);
    let mut out = String::new();
    let ghost keep = |c: char| !is_control(c);
    assert(keep =~= (|c: char| !(c <= '\u{1f}' || '\u{7f}' <= c <= '\u{9f}')));
    assert(v@.take(0).filter(keep) =~= Seq::empty());
    for i in 0..v.len()
        invariant
            keep == (|c: char| !is_control(c)),
            out@ == v@.take(i as int).filter(keep),
    {
        let c = v[i];
        assert(v@.take(i + 1).drop_last() =~= v@.take(i as int));
        reveal(Seq::filter);
        if !(c <= '\u{1f}' || ('\u{7f}' <= c && c <= '\u{9f}')) {
            out.push(c);
        }
    }
    assert(v@.take(v@.len() as int) =~= s@);
    out
}

/// `s` with every run of `c` made one `c`.
pub open spec fn collapsed(s: Seq<char>, c: char) -> Seq<char>
    decreases s.len(),
{
    if s.len() < 2 {
        s
    } else if s.last() == c && s[s.len() - 2] == c {
        collapsed(s.drop_last(), c)
    } else {
        collapsed(s.drop_last(), c).push(s.last())
    }
}

/// `s` with every run of `c` made one `c`.
fn collapse_runs(s: &str, c: char) -> (r: String)
    ensures
        r@ == collapsed(s@, c),
{
    let v = chars_of(s);
    let mut out = String::new();
    for i in 0..v.len()
        invariant
            v@ == s@,
            out@ == collapsed(v@.take(i as int), c),
    {
        assert(v@.take(i + 1).drop_last() =~= v@.take(i as int));
        if !(i > 0 && v[i] == c && v[i - 1] == c) {
            out.push(v[i]);
        }
        assert(out@ =~= collapsed(v@.take(i + 1), c));
    }
    assert(v@.take(v@.len() as int) =~= s@);
    out
}

/// A field as it is shown to the model: without control characters, and with
/// the markers that structure the prompt taken out of it.
pub open spec fn sanitized(raw: Seq<char>) -> Seq<char> {
    text::replaced(
        collapsed(collapsed(without_controls(raw), '<'), '>'),
        "index="@,
        "index "@,
    )
}

/// `s` can stand in the prompt without being taken for its structure: it holds
/// no control character and none of the markers.
pub open spec fn is_harmless(s: Seq<char>) -> bool {
    &&& free_of_controls(s)
    &&& !text::occurs_in("<<"@, s)
    &&& !text::occurs_in(">>"@, s)
    &&& !text::occurs_in("index="@, s)
}

/// Strips control chars and prompt-structure markers from model input fields.
pub fn sanitize_field(raw: &str) -> (r: String)
    ensures
        r@ == sanitized(raw@),
        is_harmless(r@),
        is_harmless(raw@) ==> r@ == raw@,
{
    proof {
        reveal_strlit("index=");
        law_fields_are_defused(raw@);
    }
    let s = strip_controls(raw);
    let s = collapse_runs(s.as_str(), '<');
    let s = collapse_runs(s.as_str(), '>');
    replace_all(s.as_str(), "index=", "index ")
}

/// How the line of the user prompt for transaction `i` begins.
pub open spec fn line_start(i: int) -> Seq<char> {
    "["@ + text::decimal(i as nat) + "] date="@
}

/// What the user prompt says of transaction `i`.
pub open spec fn transaction_text(i: int, tx: Transaction) -> Seq<char> {
    line_start(i) + sanitized(tx.date@) + "; amount="@ + sanitized(tx.amount.text@)
        + "; currency="@ + sanitized(tx.currency@) + "; counterparty=<<"@ + sanitized(tx.counterparty@)
        + ">>; purpose=<<"@ + sanitized(tx.purpose@) + ">>"@
}

/// The line of the user prompt for transaction `i`.
pub open spec fn transaction_line(i: int, tx: Transaction) -> Seq<char> {
    transaction_text(i, tx) + "\n"@
}

/// The lines of the user prompt, in the order of the transactions.
pub open spec fn transaction_lines(txs: Seq<Transaction>) -> Seq<char>
    decreases txs.len(),
{
    if txs.len() == 0 {
        Seq::empty()
    } else {
        transaction_lines(txs.drop_last()) + transaction_line(txs.len() - 1, txs.last())
    }
}

/// The user prompt for one micro-batch of transactions.
pub open spec fn user_prompt_text(txs: Seq<Transaction>, include_rationale: bool) -> Seq<char> {
    "Classify these transactions:\n"@ + transaction_lines(txs) + if include_rationale {
        "Include a short \"rationale\" (max 12 words) per result.\n"@
    } else {
        Seq::empty()
    }
}

/// Renders the user prompt for one micro-batch of transactions.
pub fn user_prompt(txs: &[Transaction], include_rationale: bool) -> (r: String)
    ensures
        r@ == user_prompt_text(txs@, include_rationale),
{
    let mut s = "Classify these transactions:\n".to_owned();
    for i in 0..txs.len()
        invariant
            s@ =~= "Classify these transactions:\n"@ + transaction_lines(txs@.take(i as int)),
    {
        let ghost before = s@;
        let tx = &txs[i];
        let mut line = "[".to_owned();
        line.append(decimal_text(i as u64).as_str());
        line.append("] date=");
        line.append(sanitize_field(tx.date.as_str()).as_str());
        line.append("; amount=");
        line.append(sanitize_field(tx.amount.text.as_str()).as_str());
        line.append("; currency=");
        line.append(sanitize_field(tx.currency.as_str()).as_str());
        line.append("; counterparty=<<");
        line.append(sanitize_field(tx.counterparty.as_str()).as_str());
        line.append(">>; purpose=<<");
        line.append(sanitize_field(tx.purpose.as_str()).as_str());
        line.append(">>");
        line.append("\n");
        s.append(line.as_str());
        assert(txs@.take(i + 1).drop_last() =~= txs@.take(i as int));
        assert(txs@.take(i + 1).last() == *tx);
        assert(line@ == transaction_line(i as int, *tx));
        assert(s@ == before + line@);
    }
    assert(txs@.take(txs@.len() as int) =~= txs@);
    let ghost listed = s@;
    if include_rationale {
        s.append("Include a short \"rationale\" (max 12 words) per result.\n");
    }
    assert(s@ =~= user_prompt_text(txs@, include_rationale));
    s
}

/// An object with the one member `type`.
pub open spec fn type_only(name: Seq<char>) -> JsonTree {
    JsonTree::Object(Map::empty().insert("type"@, JsonTree::Text(name)))
}

/// What the schema says of one entry of the answer.
pub open spec fn entry_properties(
    enum_values: Seq<Seq<char>>,
    include_rationale: bool,
) -> Map<Seq<char>, JsonTree> {
    let properties = Map::empty().insert(
        "index"@,
        JsonTree::Object(
            Map::empty().insert("type"@, JsonTree::Text("integer"@)).insert(
                "minimum"@,
                JsonTree::Unsigned(0),
            ),
        ),
    ).insert(
        "category"@,
        JsonTree::Object(
            Map::empty().insert("type"@, JsonTree::Text("string"@)).insert(
                "enum"@,
                json::text_array(enum_values),
            ),
        ),
    );
    if include_rationale {
        properties.insert("rationale"@, type_only("string"@))
    } else {
        properties
    }
}

/// The schema of the whole answer.
pub open spec fn schema_tree(enum_values: Seq<Seq<char>>, include_rationale: bool) -> JsonTree {
    let entry = JsonTree::Object(
        Map::empty().insert("type"@, JsonTree::Text("object"@)).insert(
            "properties"@,
            JsonTree::Object(entry_properties(enum_values, include_rationale)),
        ).insert("required"@, json::text_array(seq!["index"@, "category"@])),
    );
    let results = JsonTree::Object(
        Map::empty().insert("type"@, JsonTree::Text("array"@)).insert("items"@, entry),
    );
    JsonTree::Object(
        Map::empty().insert("type"@, JsonTree::Text("object"@)).insert(
            "properties"@,
            JsonTree::Object(Map::empty().insert("results"@, results)),
        ).insert("required"@, json::text_array(seq!["results"@])),
    )
}

/// JSON schema used for Ollama structured output (grammar-constrained decoding).
/// `enum_values` must be the taxonomy slugs; rationale is optional.
pub fn response_schema(enum_values: &[String], include_rationale: bool) -> (r: Json)
    ensures
        r.tree() == schema_tree(enum_values@.map_values(|s: String| s@), include_rationale),
{
    let mut index: Vec<(String, Json)> = Vec::new();
    add_member(&mut index, "type", json_text("integer"));
    add_member(&mut index, "minimum", Json::Unsigned(0));
    let mut category: Vec<(String, Json)> = Vec::new();
    add_member(&mut category, "type", json_text("string"));
    add_member(&mut category, "enum", json_text_array(enum_values));
    let mut properties: Vec<(String, Json)> = Vec::new();
    add_member(&mut properties, "index", Json::Object(index));
    add_member(&mut properties, "category", Json::Object(category));
    if include_rationale {
        let mut rationale: Vec<(String, Json)> = Vec::new();
        add_member(&mut rationale, "type", json_text("string"));
        add_member(&mut properties, "rationale", Json::Object(rationale));
    }
    let mut entry_required: Vec<String> = Vec::new();
    entry_required.push("index".to_owned());
    entry_required.push("category".to_owned());
    assert(entry_required@.map_values(|s: String| s@) =~= seq!["index"@, "category"@]);
    let mut entry: Vec<(String, Json)> = Vec::new();
    add_member(&mut entry, "type", json_text("object"));
    add_member(&mut entry, "properties", Json::Object(properties));
    add_member(&mut entry, "required", json_text_array(entry_required.as_slice()));
    let mut results: Vec<(String, Json)> = Vec::new();
    add_member(&mut results, "type", json_text("array"));
    add_member(&mut results, "items", Json::Object(entry));
    let mut top_properties: Vec<(String, Json)> = Vec::new();
    add_member(&mut top_properties, "results", Json::Object(results));
    let mut top_required: Vec<String> = Vec::new();
    top_required.push("results".to_owned());
    assert(top_required@.map_values(|s: String| s@) =~= seq!["results"@]);
    let mut top: Vec<(String, Json)> = Vec::new();
    add_member(&mut top, "type", json_text("object"));
    add_member(&mut top, "properties", Json::Object(top_properties));
    add_member(&mut top, "required", json_text_array(top_required.as_slice()));
    Json::Object(top)
}

/// Without labels from the library the system prompt does not change.
pub proof fn law_empty_library_changes_nothing(categories: Seq<Category>, lang: Seq<char>)
    ensures
        prompt_head(lang) + category_lines(categories, lang) + library_section(Seq::empty())
            == prompt_head(lang) + category_lines(categories, lang),
{
    assert(prompt_head(lang) + category_lines(categories, lang) + library_section(Seq::empty())
        =~= prompt_head(lang) + category_lines(categories, lang));
}

/// `c` stands twice in a row nowhere in `s`.
spec fn no_pair(s: Seq<char>, c: char) -> bool {
    forall|i: int| 0 <= i < s.len() - 1 ==> !(#[trigger] s[i] == c && s[i + 1] == c)
}

/// A pair is an occurrence of `cc`.
proof fn lemma_pair_occurs(s: Seq<char>, c: char)
    ensures
        text::occurs_in(seq![c, c], s) == !no_pair(s, c),
{
    let pair = seq![c, c];
    if text::occurs_in(pair, s) {
        let i = choose|i: int| #[trigger] text::occurs_at(s, pair, i);
        let found = s.subrange(i, i + 2);
        assert(found[0] == s[i] && found[1] == s[i + 1]);
    }
    if !no_pair(s, c) {
        let i = choose|i: int|
            0 <= i < s.len() - 1 && (#[trigger] s[i] == c && s[i + 1] == c);
        assert(s.subrange(i, i + 2) =~= pair);
        assert(text::occurs_at(s, pair, i));
    }
}

/// Making runs of `c` one leaves no pair of `c`, brings no pair of another
/// character about and no control character, keeps the last character, and
/// changes nothing where there was no pair.
proof fn lemma_collapsed(s: Seq<char>, c: char, d: char)
    ensures
        no_pair(collapsed(s, c), c),
        no_pair(s, d) ==> no_pair(collapsed(s, c), d),
        no_pair(s, c) ==> collapsed(s, c) == s,
        free_of_controls(s) ==> free_of_controls(collapsed(s, c)),
        s.len() > 0 ==> collapsed(s, c).len() > 0 && collapsed(s, c).last() == s.last(),
    decreases s.len(),
{
    if s.len() >= 2 {
        let rest = s.drop_last();
        let n = s.len() as int;
        lemma_collapsed(rest, c, d);
        assert(rest.last() == s[n - 2]);
        if no_pair(s, d) {
            assert forall|i: int| 0 <= i < rest.len() - 1 implies !(#[trigger] rest[i] == d && rest[i
                + 1] == d) by {
                assert(rest[i] == s[i]);
            }
        }
        if no_pair(s, c) {
            assert forall|i: int| 0 <= i < rest.len() - 1 implies !(#[trigger] rest[i] == c && rest[i
                + 1] == c) by {
                assert(rest[i] == s[i]);
            }
            assert(!(s[n - 2] == c && s[n - 1] == c));
            assert(collapsed(s, c) =~= s);
        }
        if free_of_controls(s) {
            assert forall|i: int| 0 <= i < rest.len() implies !is_control(#[trigger] rest[i]) by {
                assert(rest[i] == s[i]);
            }
            assert(!is_control(s[n - 1]));
        }
        if !(s.last() == c && s[n - 2] == c) {
            let head = collapsed(rest, c);
            let whole = head.push(s.last());
            assert forall|i: int| 0 <= i < whole.len() - 1 implies !(#[trigger] whole[i] == c
                && whole[i + 1] == c) by {
                if i < head.len() - 1 {
                    assert(head[i] == whole[i] && head[i + 1] == whole[i + 1]);
                } else {
                    assert(whole[i] == head.last());
                }
            }
            if no_pair(s, d) {
                assert(!(s[n - 2] == d && s[n - 1] == d));
                assert forall|i: int| 0 <= i < whole.len() - 1 implies !(#[trigger] whole[i] == d
                    && whole[i + 1] == d) by {
                    if i < head.len() - 1 {
                        assert(head[i] == whole[i] && head[i + 1] == whole[i + 1]);
                    } else {
                        assert(whole[i] == head.last());
                    }
                }
            }
        }
    }
}

/// `c` does not stand in `s`.
spec fn avoids(s: Seq<char>, c: char) -> bool {
    forall|i: int| 0 <= i < s.len() ==> #[trigger] s[i] != c
}

/// A replacement that has nothing to do with `c` and keeps first characters
/// brings no pair of `c` about.
proof fn lemma_pairs_stay_away(s: Seq<char>, pattern: Seq<char>, new: Seq<char>, c: char)
    requires
        pattern.len() > 0,
        new.len() > 0,
        new[0] == pattern[0],
        avoids(new, c),
        no_pair(s, c),
    ensures
        no_pair(text::replaced(s, pattern, new), c),
        s.len() > 0 ==> text::replaced(s, pattern, new).len() > 0 && text::replaced(
            s,
            pattern,
            new,
        )[0] == s[0],
    decreases s.len(),
{
    if s.len() > 0 {
        let whole = text::replaced(s, pattern, new);
        let front = text::occurs_at(s, pattern, 0);
        let head = if front {
            new
        } else {
            seq![s[0]]
        };
        let rest = if front {
            s.skip(pattern.len() as int)
        } else {
            s.drop_first()
        };
        assert forall|i: int| 0 <= i < rest.len() - 1 implies !(#[trigger] rest[i] == c && rest[i
            + 1] == c) by {
            assert(rest[i] == s[i + s.len() - rest.len()]);
        }
        lemma_pairs_stay_away(rest, pattern, new, c);
        let tail = text::replaced(rest, pattern, new);
        assert(whole =~= head + tail);
        if front {
            assert(s.subrange(0, pattern.len() as int)[0] == s[0]);
        }
        assert(whole[0] == head[0]);
        assert forall|i: int| 0 <= i < whole.len() - 1 implies !(#[trigger] whole[i] == c && whole[i
            + 1] == c) by {
            if i >= head.len() {
                assert(whole[i] == tail[i - head.len()]);
                assert(whole[i + 1] == tail[i - head.len() + 1]);
            } else if front {
                assert(whole[i] == new[i]);
            } else {
                assert(whole[1] == tail[0]);
                assert(rest[0] == s[1]);
                assert(!(s[0] == c && s[1] == c));
            }
        }
    }
}

/// Where the pattern does not stand, nothing is replaced.
proof fn lemma_nothing_to_replace(s: Seq<char>, pattern: Seq<char>, new: Seq<char>)
    requires
        !text::occurs_in(pattern, s),
    ensures
        text::replaced(s, pattern, new) == s,
    decreases s.len(),
{
    if s.len() > 0 {
        assert(!text::occurs_at(s, pattern, 0));
        let rest = s.drop_first();
        assert forall|i: int| !(#[trigger] text::occurs_at(rest, pattern, i)) by {
            if text::occurs_at(rest, pattern, i) {
                assert(s.subrange(i + 1, i + 1 + pattern.len()) =~= rest.subrange(
                    i,
                    i + pattern.len(),
                ));
                assert(text::occurs_at(s, pattern, i + 1));
            }
        }
        lemma_nothing_to_replace(rest, pattern, new);
        assert(text::replaced(s, pattern, new) =~= s);
    }
}

/// A replacement by text without control characters brings none about.
proof fn lemma_controls_stay_away(s: Seq<char>, pattern: Seq<char>, new: Seq<char>)
    requires
        free_of_controls(s),
        free_of_controls(new),
    ensures
        free_of_controls(text::replaced(s, pattern, new)),
    decreases s.len(),
{
    if s.len() > 0 {
        if pattern.len() > 0 && text::occurs_at(s, pattern, 0) {
            let rest = s.skip(pattern.len() as int);
            assert forall|i: int| 0 <= i < rest.len() implies !is_control(#[trigger] rest[i]) by {
                assert(rest[i] == s[i + pattern.len()]);
            }
            lemma_controls_stay_away(rest, pattern, new);
        } else {
            let rest = s.drop_first();
            assert forall|i: int| 0 <= i < rest.len() implies !is_control(#[trigger] rest[i]) by {
                assert(rest[i] == s[i + 1]);
            }
            lemma_controls_stay_away(rest, pattern, new);
        }
    }
}

/// `s` begins with `word`.
spec fn begins_with(s: Seq<char>, word: Seq<char>) -> bool {
    word.len() <= s.len() && forall|i: int| 0 <= i < word.len() ==> #[trigger] word[i] == s[i]
}

proof fn lemma_begins_with(s: Seq<char>, word: Seq<char>)
    ensures
        begins_with(s, word) == text::occurs_at(s, word, 0),
{
    if word.len() <= s.len() {
        let head = s.subrange(0, word.len() as int);
        if begins_with(s, word) {
            assert(head =~= word);
        } else if head == word {
            assert forall|i: int| 0 <= i < word.len() implies #[trigger] word[i] == s[i] by {
                assert(head[i] == s[i]);
            }
        }
    }
}

/// A beginning of the outcome that holds no first character of the pattern was
/// a beginning before.
proof fn lemma_beginning_is_old(s: Seq<char>, pattern: Seq<char>, new: Seq<char>, word: Seq<char>)
    requires
        pattern.len() > 0,
        new.len() > 0,
        new[0] == pattern[0],
        avoids(word, pattern[0]),
        begins_with(text::replaced(s, pattern, new), word),
    ensures
        begins_with(s, word),
    decreases s.len(),
{
    if word.len() > 0 && s.len() > 0 {
        let whole = text::replaced(s, pattern, new);
        assert(word[0] == whole[0]);
        lemma_begins_with(s, pattern);
        if text::occurs_at(s, pattern, 0) {
            assert(whole[0] == new[0]);
            assert(word[0] != pattern[0]);
        } else {
            let rest = s.drop_first();
            let tail = text::replaced(rest, pattern, new);
            let end = word.drop_first();
            assert forall|i: int| 0 <= i < end.len() implies #[trigger] end[i] == tail[i] by {
                assert(word[i + 1] == whole[i + 1]);
            }
            assert(avoids(end, pattern[0])) by {
                assert forall|i: int| 0 <= i < end.len() implies #[trigger] end[i]
                    != pattern[0] by {
                    assert(end[i] == word[i + 1]);
                }
            }
            lemma_beginning_is_old(rest, pattern, new, end);
            assert forall|i: int| 0 <= i < word.len() implies #[trigger] word[i] == s[i] by {
                if i > 0 {
                    assert(end[i - 1] == rest[i - 1]);
                }
            }
        }
    }
}

/// Where the new text ends with a character that the pattern does not hold, and
/// the pattern holds its first character only once, no occurrence is left.
proof fn lemma_pattern_gone(s: Seq<char>, pattern: Seq<char>, new: Seq<char>)
    requires
        pattern.len() > 1,
        new.len() == pattern.len(),
        new[0] == pattern[0],
        avoids(pattern, new.last()),
        avoids(pattern.drop_first(), pattern[0]),
    ensures
        !text::occurs_in(pattern, text::replaced(s, pattern, new)),
    decreases s.len(),
{
    let whole = text::replaced(s, pattern, new);
    let n = pattern.len() as int;
    if s.len() > 0 {
        let front = text::occurs_at(s, pattern, 0);
        let head = if front {
            new
        } else {
            seq![s[0]]
        };
        let rest = if front {
            s.skip(n)
        } else {
            s.drop_first()
        };
        let tail = text::replaced(rest, pattern, new);
        lemma_pattern_gone(rest, pattern, new);
        assert(whole =~= head + tail);
        assert forall|i: int| !(#[trigger] text::occurs_at(whole, pattern, i)) by {
            if text::occurs_at(whole, pattern, i) {
                let found = whole.subrange(i, i + n);
                if i >= head.len() {
                    assert(tail.subrange(i - head.len(), i - head.len() + n) =~= found);
                    assert(text::occurs_at(tail, pattern, i - head.len()));
                } else if front {
                    assert(found[n - 1 - i] == whole[n - 1]);
                    assert(whole[n - 1] == new.last());
                    assert(pattern[n - 1 - i] == new.last());
                } else {
                    assert(i == 0);
                    let end = pattern.drop_first();
                    assert forall|j: int| 0 <= j < end.len() implies #[trigger] end[j]
                        == tail[j] by {
                        assert(found[j + 1] == whole[j + 1]);
                    }
                    lemma_beginning_is_old(rest, pattern, new, end);
                    assert forall|j: int| 0 <= j < n implies #[trigger] pattern[j] == s[j] by {
                        assert(found[j] == whole[j]);
                        if j > 0 {
                            assert(end[j - 1] == rest[j - 1]);
                        }
                    }
                    lemma_begins_with(s, pattern);
                }
            }
        }
    } else {
        assert forall|i: int| !(#[trigger] text::occurs_at(whole, pattern, i)) by {}
    }
}

/// What is shown of a field to the model cannot pass for the structure of the
/// prompt, whatever the field holds; a field that could not pass for it before is
/// shown as it is, so that cleaning twice changes no more than cleaning once.
pub proof fn law_fields_are_defused(raw: Seq<char>)
    ensures
        is_harmless(sanitized(raw)),
        is_harmless(raw) ==> sanitized(raw) == raw,
        sanitized(sanitized(raw)) == sanitized(raw),
{
    lemma_sanitized_is_harmless(raw);
    lemma_harmless_is_kept(sanitized(raw));
    if is_harmless(raw) {
        lemma_harmless_is_kept(raw);
    }
}

proof fn lemma_marker_literals()
    ensures
        "<<"@ == seq!['<', '<'],
        ">>"@ == seq!['>', '>'],
{
    reveal_strlit("<<");
    reveal_strlit(">>");
    assert("<<"@ =~= seq!['<', '<']);
    assert(">>"@ =~= seq!['>', '>']);
}

proof fn lemma_sanitized_is_harmless(raw: Seq<char>)
    ensures
        is_harmless(sanitized(raw)),
{
    reveal_strlit("index=");
    reveal_strlit("index ");
    lemma_marker_literals();
    let bare = without_controls(raw);
    let first = collapsed(bare, '<');
    let both = collapsed(first, '>');
    lemma_without_controls(raw);
    lemma_collapsed(bare, '<', '>');
    lemma_collapsed(first, '>', '<');
    lemma_controls_stay_away(both, "index="@, "index "@);
    lemma_pattern_gone(both, "index="@, "index "@);
    lemma_pairs_stay_away(both, "index="@, "index "@, '<');
    lemma_pairs_stay_away(both, "index="@, "index "@, '>');
    lemma_pair_occurs(sanitized(raw), '<');
    lemma_pair_occurs(sanitized(raw), '>');
}

proof fn lemma_harmless_is_kept(raw: Seq<char>)
    requires
        is_harmless(raw),
    ensures
        sanitized(raw) == raw,
{
    lemma_marker_literals();
    lemma_pair_occurs(raw, '<');
    lemma_pair_occurs(raw, '>');
    lemma_without_controls(raw);
    lemma_collapsed(raw, '<', '>');
    lemma_collapsed(raw, '>', '<');
    lemma_nothing_to_replace(raw, "index="@, "index "@);
}

/// The position of the first line break, or the length where there is none.
pub open spec fn first_break(s: Seq<char>) -> nat
    decreases s.len(),
{
    if s.len() == 0 || s[0] == '\n' {
        0
    } else {
        1 + first_break(s.drop_first())
    }
}

/// The lines of a text, without their line breaks.
pub open spec fn lines(s: Seq<char>) -> Seq<Seq<char>>
    decreases s.len(),
{
    if s.len() == 0 {
        Seq::empty()
    } else if first_break(s) >= s.len() {
        seq![s]
    } else {
        seq![s.take(first_break(s) as int)] + lines(s.skip(first_break(s) as int + 1))
    }
}

proof fn lemma_first_break(s: Seq<char>, t: Seq<char>)
    ensures
        first_break(s) <= s.len(),
        first_break(s) < s.len() ==> first_break(s + t) == first_break(s),
        s.len() > 0 && s.last() == '\n' ==> first_break(s) < s.len(),
        avoids(s, '\n') ==> first_break(s) == s.len() && first_break(s.push('\n') + t)
            == s.len(),
    decreases s.len(),
{
    if s.len() > 0 && s[0] != '\n' {
        let rest = s.drop_first();
        lemma_first_break(rest, t);
        assert((s + t).drop_first() =~= rest + t);
        assert((s.push('\n') + t).drop_first() =~= rest.push('\n') + t);
        if s.last() == '\n' {
            assert(rest.last() == s.last());
        }
        if avoids(s, '\n') {
            assert forall|i: int| 0 <= i < rest.len() implies #[trigger] rest[i] != '\n' by {
                assert(rest[i] == s[i + 1]);
            }
        }
    } else if s.len() > 0 {
        assert(!avoids(s, '\n')) by {
            assert(s[0] == '\n');
        }
    }
}

/// The lines of a text that ends with a line break stay lines when more text
/// follows.
proof fn lemma_lines_append(s: Seq<char>, t: Seq<char>)
    requires
        s.len() > 0 ==> s.last() == '\n',
    ensures
        lines(s + t) == lines(s) + lines(t),
    decreases s.len(),
{
    lemma_first_break(s, t);
    lemma_first_break(s + t, Seq::empty());
    lemma_first_break(t, Seq::empty());
    if s.len() == 0 {
        assert(s + t =~= t);
        assert(lines(s) + lines(t) =~= lines(t));
    } else {
        let k = first_break(s) as int;
        let rest = s.skip(k + 1);
        if rest.len() > 0 {
            assert(rest.last() == s.last());
        }
        lemma_lines_append(rest, t);
        assert((s + t).take(k) =~= s.take(k));
        assert((s + t).skip(k + 1) =~= rest + t);
        assert(lines(s + t) =~= lines(s) + lines(t));
    }
}

proof fn lemma_single_line(s: Seq<char>)
    requires
        avoids(s, '\n'),
    ensures
        lines(s.push('\n')) == seq![s],
{
    let line = s.push('\n');
    lemma_first_break(s, Seq::empty());
    assert(line + Seq::empty() =~= line);
    assert(line.take(s.len() as int) =~= s);
    assert(line.skip(s.len() as int + 1) =~= Seq::empty());
    lemma_first_break(Seq::empty(), Seq::empty());
    assert(lines(Seq::empty()) =~= Seq::empty());
    assert(lines(line) =~= seq![s]);
}

proof fn lemma_decimal_has_no_controls(n: nat)
    ensures
        free_of_controls(text::decimal(n)),
    decreases n,
{
    if n >= 10 {
        lemma_decimal_has_no_controls(n / 10);
    }
}

proof fn lemma_controls_concat(a: Seq<char>, b: Seq<char>)
    requires
        free_of_controls(a),
        free_of_controls(b),
    ensures
        free_of_controls(a + b),
{
    let whole = a + b;
    assert forall|i: int| 0 <= i < whole.len() implies !is_control(#[trigger] whole[i]) by {
        if i < a.len() {
            assert(whole[i] == a[i]);
        } else {
            assert(whole[i] == b[i - a.len()]);
        }
    }
}

/// No field can add a line: what is said of a transaction has no line break.
proof fn lemma_transaction_text(i: int, tx: Transaction)
    ensures
        free_of_controls(transaction_text(i, tx)),
        text::occurs_at(transaction_text(i, tx), line_start(i), 0),
{
    reveal_strlit("[");
    reveal_strlit("] date=");
    reveal_strlit("; amount=");
    reveal_strlit("; currency=");
    reveal_strlit("; counterparty=<<");
    reveal_strlit(">>; purpose=<<");
    reveal_strlit(">>");
    lemma_decimal_has_no_controls(i as nat);
    law_fields_are_defused(tx.date@);
    law_fields_are_defused(tx.amount.text@);
    law_fields_are_defused(tx.currency@);
    law_fields_are_defused(tx.counterparty@);
    law_fields_are_defused(tx.purpose@);
    lemma_controls_concat("["@, text::decimal(i as nat));
    lemma_controls_concat("["@ + text::decimal(i as nat), "] date="@);
    let a = line_start(i) + sanitized(tx.date@);
    lemma_controls_concat(line_start(i), sanitized(tx.date@));
    let b = a + "; amount="@;
    lemma_controls_concat(a, "; amount="@);
    let c = b + sanitized(tx.amount.text@);
    lemma_controls_concat(b, sanitized(tx.amount.text@));
    let d = c + "; currency="@;
    lemma_controls_concat(c, "; currency="@);
    let e = d + sanitized(tx.currency@);
    lemma_controls_concat(d, sanitized(tx.currency@));
    let f = e + "; counterparty=<<"@;
    lemma_controls_concat(e, "; counterparty=<<"@);
    let g = f + sanitized(tx.counterparty@);
    lemma_controls_concat(f, sanitized(tx.counterparty@));
    let h = g + ">>; purpose=<<"@;
    lemma_controls_concat(g, ">>; purpose=<<"@);
    let k = h + sanitized(tx.purpose@);
    lemma_controls_concat(h, sanitized(tx.purpose@));
    lemma_controls_concat(k, ">>"@);
    let start = line_start(i);
    assert(transaction_text(i, tx).subrange(0, start.len() as int) =~= start);
}

proof fn lemma_transaction_lines(txs: Seq<Transaction>)
    ensures
        transaction_lines(txs).len() > 0 ==> transaction_lines(txs).last() == '\n',
        lines(transaction_lines(txs)) == Seq::new(
            txs.len(),
            |i: int| transaction_text(i, txs[i]),
        ),
    decreases txs.len(),
{
    reveal_strlit("\n");
    if txs.len() == 0 {
        lemma_first_break(Seq::empty(), Seq::empty());
        assert(lines(transaction_lines(txs)) =~= Seq::empty());
    } else {
        let rest = txs.drop_last();
        let n = txs.len() - 1;
        let said = transaction_text(n, txs[n]);
        lemma_transaction_lines(rest);
        lemma_transaction_text(n, txs[n]);
        assert(avoids(said, '\n')) by {
            assert forall|i: int| 0 <= i < said.len() implies #[trigger] said[i] != '\n' by {
                assert(!is_control(said[i]));
            }
        }
        assert(transaction_line(n, txs[n]) =~= said.push('\n'));
        lemma_single_line(said);
        lemma_lines_append(transaction_lines(rest), said.push('\n'));
        assert(lines(transaction_lines(txs)) =~= Seq::new(
            txs.len(),
            |i: int| transaction_text(i, txs[i]),
        ));
    }
}

/// The user prompt has a first line and one line for each transaction, in order,
/// whatever the fields hold: line `i + 1` is about transaction `i` and says so.
/// The request for a rationale comes behind them.
pub proof fn law_one_line_per_transaction(txs: Seq<Transaction>)
    ensures
        lines(user_prompt_text(txs, false)).len() == txs.len() + 1,
        lines(user_prompt_text(txs, false))[0] == "Classify these transactions:"@,
        forall|i: int|
            0 <= i < txs.len() ==> lines(user_prompt_text(txs, false))[i + 1]
                == #[trigger] transaction_text(i, txs[i]) && text::occurs_at(
                transaction_text(i, txs[i]),
                line_start(i),
                0,
            ),
        user_prompt_text(txs, false).last() == '\n',
        user_prompt_text(txs, true) == user_prompt_text(txs, false)
            + "Include a short \"rationale\" (max 12 words) per result.\n"@,
{
    reveal_strlit("Classify these transactions:");
    reveal_strlit("Classify these transactions:\n");
    let first = "Classify these transactions:"@;
    let head = "Classify these transactions:\n"@;
    assert(head =~= first.push('\n'));
    lemma_single_line(first);
    lemma_transaction_lines(txs);
    lemma_lines_append(head, transaction_lines(txs));
    assert(user_prompt_text(txs, false) =~= head + transaction_lines(txs));
    assert(user_prompt_text(txs, true) =~= user_prompt_text(txs, false)
        + "Include a short \"rationale\" (max 12 words) per result.\n"@);
    assert forall|i: int| 0 <= i < txs.len() implies lines(user_prompt_text(txs, false))[i + 1]
        == #[trigger] transaction_text(i, txs[i]) && text::occurs_at(
        transaction_text(i, txs[i]),
        line_start(i),
        0,
    ) by {
        lemma_transaction_text(i, txs[i]);
    }
}

/// Two transactions are alike but for their ids.
pub open spec fn same_but_id(a: Transaction, b: Transaction) -> bool {
    &&& a.counterparty@ == b.counterparty@
    &&& a.purpose@ == b.purpose@
    &&& a.amount.text@ == b.amount.text@
    &&& a.currency@ == b.currency@
    &&& a.date@ == b.date@
}

/// Ids never reach the prompt.
pub proof fn law_ids_stay_out_of_the_prompt(
    txs: Seq<Transaction>,
    others: Seq<Transaction>,
    include_rationale: bool,
)
    requires
        txs.len() == others.len(),
        forall|i: int| 0 <= i < txs.len() ==> same_but_id(#[trigger] txs[i], others[i]),
    ensures
        user_prompt_text(txs, include_rationale) == user_prompt_text(others, include_rationale),
{
    lemma_ids_stay_out(txs, others);
}

proof fn lemma_ids_stay_out(txs: Seq<Transaction>, others: Seq<Transaction>)
    requires
        txs.len() == others.len(),
        forall|i: int| 0 <= i < txs.len() ==> same_but_id(#[trigger] txs[i], others[i]),
    ensures
        transaction_lines(txs) == transaction_lines(others),
    decreases txs.len(),
{
    if txs.len() > 0 {
        let a = txs.drop_last();
        let b = others.drop_last();
        assert forall|i: int| 0 <= i < a.len() implies same_but_id(#[trigger] a[i], b[i]) by {
            assert(same_but_id(txs[i], others[i]));
        }
        lemma_ids_stay_out(a, b);
        assert(same_but_id(txs[txs.len() - 1], others[txs.len() - 1]));
    }
}

proof fn lemma_without_controls_add(a: Seq<char>, b: Seq<char>)
    ensures
        without_controls(a + b) == without_controls(a) + without_controls(b),
    decreases b.len(),
{
    reveal(Seq::filter);
    if b.len() == 0 {
        assert(a + b =~= a);
        assert(without_controls(a) + without_controls(b) =~= without_controls(a));
    } else {
        lemma_without_controls_add(a, b.drop_last());
        assert((a + b).drop_last() =~= a + b.drop_last());
        assert((a + b).last() == b.last());
        assert(without_controls(a + b) =~= without_controls(a) + without_controls(b));
    }
}

proof fn lemma_plain_word(word: Seq<char>)
    requires
        free_of_controls(word),
    ensures
        without_controls(word) == word,
{
    lemma_without_controls(word);
}

/// A run is as good as one: another `c` behind a `c` makes no difference.
proof fn lemma_collapsed_run(x: Seq<char>, c: char, y: Seq<char>)
    ensures
        collapsed(x + seq![c, c] + y, c) == collapsed(x + seq![c] + y, c),
    decreases y.len(),
{
    let long = x + seq![c, c] + y;
    let short = x + seq![c] + y;
    if y.len() == 0 {
        assert(long.drop_last() =~= short);
    } else {
        lemma_collapsed_run(x, c, y.drop_last());
        assert(long.drop_last() =~= x + seq![c, c] + y.drop_last());
        assert(short.drop_last() =~= x + seq![c] + y.drop_last());
        assert(long[long.len() - 2] == short[short.len() - 2]);
    }
}

/// A word without `c` parts a text: what stands before and behind it is
/// collapsed by itself.
proof fn lemma_collapsed_parts(x: Seq<char>, word: Seq<char>, y: Seq<char>, c: char)
    requires
        word.len() > 0,
        avoids(word, c),
    ensures
        collapsed(x + word + y, c) == collapsed(x, c) + word + collapsed(y, c),
    decreases word.len() + y.len(),
{
    let whole = x + word + y;
    let n = whole.len() as int;
    if y.len() == 0 {
        let head = word.drop_last();
        let last = word.last();
        assert(word[word.len() - 1] != c);
        assert(whole.last() == last);
        assert(whole.drop_last() =~= x + head);
        assert(collapsed(y, c) =~= Seq::empty());
        if head.len() > 0 {
            assert(avoids(head, c)) by {
                assert forall|i: int| 0 <= i < head.len() implies #[trigger] head[i] != c by {
                    assert(head[i] == word[i]);
                }
            }
            lemma_collapsed_parts(x, head, y, c);
            assert(x + head + y =~= x + head);
            assert(collapsed(x + head, c) =~= collapsed(x, c) + head);
        } else {
            assert(x + head =~= x);
        }
        if n >= 2 {
            assert(collapsed(whole, c) == collapsed(x + head, c).push(last));
        } else {
            assert(x =~= Seq::empty());
            assert(collapsed(x, c) =~= Seq::empty());
            assert(collapsed(whole, c) == whole);
        }
        assert(collapsed(whole, c) =~= collapsed(x, c) + word + collapsed(y, c));
    } else {
        let rest = y.drop_last();
        lemma_collapsed_parts(x, word, rest, c);
        assert(whole.drop_last() =~= x + word + rest);
        assert(whole.last() == y.last());
        if y.len() >= 2 {
            assert(whole[n - 2] == y[y.len() - 2]);
        } else {
            assert(whole[n - 2] == word[word.len() - 1]);
            assert(rest =~= Seq::empty());
            assert(collapsed(rest, c) =~= Seq::empty());
            assert(collapsed(y, c) == y);
        }
        assert(collapsed(whole, c) =~= collapsed(x, c) + word + collapsed(y, c));
    }
}

#[verifier::rlimit(50)]
proof fn lemma_marker_replaced(q: Seq<char>)
    ensures
        text::replaced("index="@ + q, "index="@, "index "@) == "index "@ + text::replaced(
            q,
            "index="@,
            "index "@,
        ),
        text::replaced("index "@ + q, "index="@, "index "@) == "index "@ + text::replaced(
            q,
            "index="@,
            "index "@,
        ),
{
    reveal_strlit("index=");
    reveal_strlit("index ");
    let pattern = "index="@;
    let new = "index "@;
    let s = pattern + q;
    assert(s.subrange(0, 6) =~= pattern);
    assert(s.skip(6) =~= q);
    let t = new + q;
    lemma_begins_with(t, pattern);
    assert(pattern[5] == '=' && t[5] == ' ');
    lemma_step(t);
    let word = new.drop_first();
    assert(t.drop_first() =~= word + q);
    assert(avoids(word, 'i'));
    lemma_letters_stay(word, q);
    assert(new =~= seq![t[0]] + word);
    assert(seq![t[0]] + (word + text::replaced(q, pattern, new)) =~= new + text::replaced(
        q,
        pattern,
        new,
    ));
}

/// `index=` begins nowhere in a word without `i`.
proof fn lemma_letters_stay(word: Seq<char>, q: Seq<char>)
    requires
        avoids(word, 'i'),
    ensures
        text::replaced(word + q, "index="@, "index "@) == word + text::replaced(
            q,
            "index="@,
            "index "@,
        ),
    decreases word.len(),
{
    let s = word + q;
    if word.len() == 0 {
        assert(s =~= q);
        assert(word + text::replaced(q, "index="@, "index "@) =~= text::replaced(
            q,
            "index="@,
            "index "@,
        ));
    } else {
        let rest = word.drop_first();
        assert forall|i: int| 0 <= i < rest.len() implies #[trigger] rest[i] != 'i' by {
            assert(rest[i] == word[i + 1]);
        }
        lemma_letters_stay(rest, q);
        assert(s[0] == word[0]);
        lemma_step(s);
        assert(s.drop_first() =~= rest + q);
        assert(seq![s[0]] + (rest + text::replaced(q, "index="@, "index "@)) =~= word
            + text::replaced(q, "index="@, "index "@));
    }
}

/// Where `index=` does not begin, one character is taken over.
proof fn lemma_step(s: Seq<char>)
    requires
        s.len() > 0,
        s[0] != 'i' || !text::occurs_at(s, "index="@, 0),
    ensures
        text::replaced(s, "index="@, "index "@) == seq![s[0]] + text::replaced(
            s.drop_first(),
            "index="@,
            "index "@,
        ),
{
    reveal_strlit("index=");
    lemma_begins_with(s, "index="@);
    assert("index="@[0] == 'i');
}

/// `index=` is as good as what is put in its place.
#[verifier::rlimit(50)]
proof fn lemma_replaced_marker(p: Seq<char>, q: Seq<char>)
    ensures
        text::replaced(p + "index="@ + q, "index="@, "index "@) == text::replaced(
            p + "index "@ + q,
            "index="@,
            "index "@,
        ),
    decreases p.len(),
{
    let pattern = "index="@;
    let new = "index "@;
    if p.len() == 0 {
        lemma_marker_replaced(q);
        assert(p + pattern + q =~= pattern + q);
        assert(p + new + q =~= new + q);
    } else {
        reveal_strlit("index=");
        reveal_strlit("index ");
        let s = p + pattern + q;
        let t = p + new + q;
        lemma_begins_with(s, pattern);
        lemma_begins_with(t, pattern);
        let n = p.len() as int;
        assert(s[n] == 'i' && t[n] == 'i');
        if n < 6 {
            assert(pattern[n] != 'i');
            assert(!begins_with(s, pattern));
            assert(!begins_with(t, pattern));
        } else {
            assert(begins_with(s, pattern) == begins_with(t, pattern)) by {
                assert forall|i: int| 0 <= i < 6 implies s[i] == t[i] by {}
            }
        }
        if text::occurs_at(s, pattern, 0) {
            let rest = p.skip(6);
            lemma_replaced_marker(rest, q);
            assert(s.skip(6) =~= rest + pattern + q);
            assert(t.skip(6) =~= rest + new + q);
        } else {
            let rest = p.drop_first();
            lemma_replaced_marker(rest, q);
            assert(s.drop_first() =~= rest + pattern + q);
            assert(t.drop_first() =~= rest + new + q);
            assert(s[0] == t[0]);
        }
    }
}

/// What cleaning takes away, and nothing else: a control character might as well
/// not be there, a second `<` or `>` in a row neither, and `index=` might as well
/// be `index` and a space. With the law that harmless text is kept this fixes what
/// every text is cleaned to.
#[verifier::rlimit(50)]
pub proof fn law_cleaning_takes_markers_only(a: Seq<char>, b: Seq<char>, c: char)
    ensures
        c <= '\u{1f}' || '\u{7f}' <= c <= '\u{9f}' ==> sanitized(a + seq![c] + b) == sanitized(
            a + b,
        ),
        sanitized(a + seq!['<', '<'] + b) == sanitized(a + seq!['<'] + b),
        sanitized(a + seq!['>', '>'] + b) == sanitized(a + seq!['>'] + b),
        sanitized(a + "index="@ + b) == sanitized(a + "index "@ + b),
{
    let x = without_controls(a);
    let y = without_controls(b);
    reveal_strlit("index=");
    reveal_strlit("index ");
    lemma_without_controls_around(a, seq![c], b);
    lemma_without_controls_around(a, seq!['<', '<'], b);
    lemma_without_controls_around(a, seq!['<'], b);
    lemma_without_controls_around(a, seq!['>', '>'], b);
    lemma_without_controls_around(a, seq!['>'], b);
    lemma_without_controls_around(a, "index="@, b);
    lemma_without_controls_around(a, "index "@, b);
    lemma_without_controls_add(a, b);
    if c <= '\u{1f}' || '\u{7f}' <= c <= '\u{9f}' {
        reveal(Seq::filter);
        let none: Seq<char> = Seq::empty();
        assert(is_control(c));
        assert(without_controls(none) =~= none);
        assert(seq![c].drop_last() =~= none);
        assert(seq![c].last() == c);
        assert(without_controls(seq![c]) =~= none);
        assert(x + Seq::empty() + y =~= x + y);
    }
    lemma_plain_word(seq!['<', '<']);
    lemma_plain_word(seq!['<']);
    lemma_plain_word(seq!['>', '>']);
    lemma_plain_word(seq!['>']);
    lemma_plain_word("index="@);
    lemma_plain_word("index "@);
    lemma_collapsed_run(x, '<', y);
    lemma_collapsed_parts(x, seq!['>', '>'], y, '<');
    lemma_collapsed_parts(x, seq!['>'], y, '<');
    lemma_collapsed_run(collapsed(x, '<'), '>', collapsed(y, '<'));
    lemma_collapsed_parts(x, "index="@, y, '<');
    lemma_collapsed_parts(x, "index "@, y, '<');
    lemma_collapsed_parts(collapsed(x, '<'), "index="@, collapsed(y, '<'), '>');
    lemma_collapsed_parts(collapsed(x, '<'), "index "@, collapsed(y, '<'), '>');
    lemma_replaced_marker(
        collapsed(collapsed(x, '<'), '>'),
        collapsed(collapsed(y, '<'), '>'),
    );
}

proof fn lemma_without_controls_around(a: Seq<char>, word: Seq<char>, b: Seq<char>)
    ensures
        without_controls(a + word + b) == without_controls(a) + without_controls(word)
            + without_controls(b),
{
    lemma_without_controls_add(a + word, b);
    lemma_without_controls_add(a, word);
}

proof fn lemma_occurs_between(s: Seq<char>, before: Seq<char>, word: Seq<char>, after: Seq<char>)
    requires
        s == before + word + after,
    ensures
        text::occurs_in(word, s),
{
    let n = before.len() as int;
    assert(s.subrange(n, n + word.len()) =~= word);
    assert(text::occurs_at(s, word, n));
}

proof fn lemma_shown(
    s: Seq<char>,
    before: Seq<char>,
    open: Seq<char>,
    field: Seq<char>,
    close: Seq<char>,
    next: Seq<char>,
    rest: Seq<char>,
)
    requires
        s == before + (open + field + (close + next + rest)),
    ensures
        text::occurs_in(open + field + close, s),
{
    assert(s =~= before + (open + field + close) + (next + rest));
    lemma_occurs_between(s, before, open + field + close, next + rest);
}

/// The line of a transaction shows each of its fields in its own place, at
/// whatever position it stands.
#[verifier::rlimit(50)]
pub proof fn law_lines_show_each_field(i: int, tx: Transaction)
    ensures
        text::occurs_in("] date="@ + sanitized(tx.date@) + "; amount="@, transaction_text(i, tx)),
        text::occurs_in(
            "; amount="@ + sanitized(tx.amount.text@) + "; currency="@,
            transaction_text(i, tx),
        ),
        text::occurs_in(
            "; currency="@ + sanitized(tx.currency@) + "; counterparty=<<"@,
            transaction_text(i, tx),
        ),
        text::occurs_in(
            "; counterparty=<<"@ + sanitized(tx.counterparty@) + ">>; purpose=<<"@,
            transaction_text(i, tx),
        ),
        text::has_suffix(
            transaction_text(i, tx),
            ">>; purpose=<<"@ + sanitized(tx.purpose@) + ">>"@,
        ),
        text::occurs_at(transaction_text(i, tx), "["@ + text::decimal(i as nat) + "] date="@, 0),
        transaction_text(i, tx).len() == "["@.len() + text::decimal(i as nat).len()
            + "] date="@.len() + sanitized(tx.date@).len() + "; amount="@.len() + sanitized(
            tx.amount.text@,
        ).len() + "; currency="@.len() + sanitized(tx.currency@).len() + "; counterparty=<<"@.len()
            + sanitized(tx.counterparty@).len() + ">>; purpose=<<"@.len() + sanitized(
            tx.purpose@,
        ).len() + ">>"@.len(),
{
    let date = sanitized(tx.date@);
    let amount = sanitized(tx.amount.text@);
    let currency = sanitized(tx.currency@);
    let other = sanitized(tx.counterparty@);
    let purpose = sanitized(tx.purpose@);
    let s = transaction_text(i, tx);
    let n = "["@ + text::decimal(i as nat);
    let t4 = ">>; purpose=<<"@ + purpose + ">>"@;
    let t3 = "; counterparty=<<"@ + other + t4;
    let t2 = "; currency="@ + currency + t3;
    let t1 = "; amount="@ + amount + t2;
    let h1 = n + "] date="@ + date;
    let h2 = h1 + "; amount="@ + amount;
    let h3 = h2 + "; currency="@ + currency;
    let h4 = h3 + "; counterparty=<<"@ + other;
    assert(s =~= h1 + t1);
    assert(s =~= h2 + t2);
    assert(s =~= h3 + t3);
    assert(s =~= h4 + t4);
    assert(h1 + t1 =~= n + ("] date="@ + date + t1));
    let start = n + "] date="@;
    assert(s.subrange(0, start.len() as int) =~= start);
    lemma_shown(s, n, "] date="@, date, "; amount="@, amount, t2);
    lemma_shown(s, h1, "; amount="@, amount, "; currency="@, currency, t3);
    lemma_shown(s, h2, "; currency="@, currency, "; counterparty=<<"@, other, t4);
    lemma_shown(s, h3, "; counterparty=<<"@, other, ">>; purpose=<<"@, purpose, ">>"@);
    assert(s.subrange(s.len() - t4.len(), s.len() as int) =~= t4);
}

/// The lines of one transaction at two positions differ in the number in brackets
/// only.
pub proof fn law_lines_differ_in_the_number(i: int, j: int, tx: Transaction)
    ensures
        exists|rest: Seq<char>|
            transaction_text(i, tx) == #[trigger] ("["@ + text::decimal(i as nat) + "] date="@
                + rest) && transaction_text(j, tx) == "["@ + text::decimal(j as nat)
                + "] date="@ + rest,
{
    let fields = sanitized(tx.date@) + "; amount="@ + sanitized(tx.amount.text@) + "; currency="@
        + sanitized(tx.currency@) + "; counterparty=<<"@ + sanitized(tx.counterparty@)
        + ">>; purpose=<<"@ + sanitized(tx.purpose@) + ">>"@;
    assert(transaction_text(i, tx) =~= line_start(i) + fields);
    assert(transaction_text(j, tx) =~= line_start(j) + fields);
}

/// Fields that are harmless are shown as they are.
pub proof fn law_harmless_fields_are_shown(i: int, tx: Transaction)
    requires
        is_harmless(tx.date@),
        is_harmless(tx.amount.text@),
        is_harmless(tx.currency@),
        is_harmless(tx.counterparty@),
        is_harmless(tx.purpose@),
    ensures
        transaction_text(i, tx) == "["@ + text::decimal(i as nat) + "] date="@ + tx.date@
            + "; amount="@ + tx.amount.text@ + "; currency="@ + tx.currency@
            + "; counterparty=<<"@ + tx.counterparty@ + ">>; purpose=<<"@ + tx.purpose@ + ">>"@,
{
    law_fields_are_defused(tx.date@);
    law_fields_are_defused(tx.amount.text@);
    law_fields_are_defused(tx.currency@);
    law_fields_are_defused(tx.counterparty@);
    law_fields_are_defused(tx.purpose@);
}

proof fn lemma_cancel(a: Seq<char>, x: Seq<char>, y: Seq<char>, b: Seq<char>)
    requires
        a + x + b == a + y + b,
    ensures
        x == y,
{
    let s = a + x + b;
    let t = a + y + b;
    assert(s.len() == a.len() + x.len() + b.len());
    assert(t.len() == a.len() + y.len() + b.len());
    assert(s.subrange(a.len() as int, (a.len() + x.len()) as int) =~= x);
    assert(t.subrange(a.len() as int, (a.len() + x.len()) as int) =~= y);
}

/// No field is lost: where two transactions are shown alike in four fields, their
/// lines are equal only if they are shown alike in the fifth.
#[verifier::rlimit(50)]
pub proof fn law_no_field_is_lost(i: int, a: Transaction, b: Transaction)
    requires
        transaction_text(i, a) == transaction_text(i, b),
    ensures
        sanitized(a.amount.text@) == sanitized(b.amount.text@) && sanitized(a.currency@)
            == sanitized(b.currency@) && sanitized(a.counterparty@) == sanitized(b.counterparty@)
            && sanitized(a.purpose@) == sanitized(b.purpose@) ==> sanitized(a.date@) == sanitized(
            b.date@,
        ),
        sanitized(a.date@) == sanitized(b.date@) && sanitized(a.currency@) == sanitized(b.currency@)
            && sanitized(a.counterparty@) == sanitized(b.counterparty@) && sanitized(a.purpose@)
            == sanitized(b.purpose@) ==> sanitized(a.amount.text@) == sanitized(b.amount.text@),
        sanitized(a.date@) == sanitized(b.date@) && sanitized(a.amount.text@) == sanitized(
            b.amount.text@,
        ) && sanitized(a.counterparty@) == sanitized(b.counterparty@) && sanitized(a.purpose@)
            == sanitized(b.purpose@) ==> sanitized(a.currency@) == sanitized(b.currency@),
        sanitized(a.date@) == sanitized(b.date@) && sanitized(a.amount.text@) == sanitized(
            b.amount.text@,
        ) && sanitized(a.currency@) == sanitized(b.currency@) && sanitized(a.purpose@)
            == sanitized(b.purpose@) ==> sanitized(a.counterparty@) == sanitized(b.counterparty@),
        sanitized(a.date@) == sanitized(b.date@) && sanitized(a.amount.text@) == sanitized(
            b.amount.text@,
        ) && sanitized(a.currency@) == sanitized(b.currency@) && sanitized(a.counterparty@)
            == sanitized(b.counterparty@) ==> sanitized(a.purpose@) == sanitized(b.purpose@),
{
    let d = sanitized(a.date@);
    let m = sanitized(a.amount.text@);
    let c = sanitized(a.currency@);
    let o = sanitized(a.counterparty@);
    let p = sanitized(a.purpose@);
    let l = line_start(i);
    let s = transaction_text(i, a);
    let t = transaction_text(i, b);
    let t4 = ">>; purpose=<<"@ + p + ">>"@;
    let t3 = "; counterparty=<<"@ + o + t4;
    let t2 = "; currency="@ + c + t3;
    let t1 = "; amount="@ + m + t2;
    assert(s =~= l + d + t1);
    assert(s =~= (l + d + "; amount="@) + m + t2);
    assert(s =~= (l + d + "; amount="@ + m + "; currency="@) + c + t3);
    assert(s =~= (l + d + "; amount="@ + m + "; currency="@ + c + "; counterparty=<<"@) + o + t4);
    assert(s =~= (l + d + "; amount="@ + m + "; currency="@ + c + "; counterparty=<<"@ + o
        + ">>; purpose=<<"@) + p + ">>"@);
    let y = sanitized(b.date@);
    if sanitized(b.amount.text@) == m && sanitized(b.currency@) == c && sanitized(b.counterparty@)
        == o && sanitized(b.purpose@) == p {
        assert(t =~= l + y + t1);
        lemma_cancel(l, d, y, t1);
    }
    let y = sanitized(b.amount.text@);
    if sanitized(b.date@) == d && sanitized(b.currency@) == c && sanitized(b.counterparty@) == o
        && sanitized(b.purpose@) == p {
        assert(t =~= (l + d + "; amount="@) + y + t2);
        lemma_cancel(l + d + "; amount="@, m, y, t2);
    }
    let y = sanitized(b.currency@);
    if sanitized(b.date@) == d && sanitized(b.amount.text@) == m && sanitized(b.counterparty@) == o
        && sanitized(b.purpose@) == p {
        assert(t =~= (l + d + "; amount="@ + m + "; currency="@) + y + t3);
        lemma_cancel(l + d + "; amount="@ + m + "; currency="@, c, y, t3);
    }
    let y = sanitized(b.counterparty@);
    if sanitized(b.date@) == d && sanitized(b.amount.text@) == m && sanitized(b.currency@) == c
        && sanitized(b.purpose@) == p {
        let h = l + d + "; amount="@ + m + "; currency="@ + c + "; counterparty=<<"@;
        assert(t =~= h + y + t4);
        lemma_cancel(h, o, y, t4);
    }
    let y = sanitized(b.purpose@);
    if sanitized(b.date@) == d && sanitized(b.amount.text@) == m && sanitized(b.currency@) == c
        && sanitized(b.counterparty@) == o {
        let h = l + d + "; amount="@ + m + "; currency="@ + c + "; counterparty=<<"@ + o
            + ">>; purpose=<<"@;
        assert(t =~= h + y + ">>"@);
        lemma_cancel(h, p, y, ">>"@);
    }
}

/// The system prompt lists every category, one line each and in order: the lines
/// of two lists together are the lines of one list and then of the other.
pub proof fn law_every_category_is_listed(
    a: Seq<Category>,
    b: Seq<Category>,
    c: Category,
    lang: Seq<char>,
)
    ensures
        category_lines(a + b, lang) == category_lines(a, lang) + category_lines(b, lang),
        category_lines(seq![c], lang) == "- "@ + c.slug@ + " = "@ + taxonomy::display_text(
            c.slug@,
            c.names@,
            lang,
        ) + "\n"@,
    decreases b.len(),
{
    if b.len() == 0 {
        assert(a + b =~= a);
        assert(category_lines(a, lang) + category_lines(b, lang) =~= category_lines(a, lang));
    } else {
        law_every_category_is_listed(a, b.drop_last(), c, lang);
        assert((a + b).drop_last() =~= a + b.drop_last());
        assert((a + b).last() == b.last());
        assert(category_lines(a + b, lang) =~= category_lines(a, lang) + category_lines(b, lang));
    }
    let one = seq![c];
    assert(one.drop_last() =~= Seq::empty());
    assert(category_lines(one.drop_last(), lang) =~= Seq::empty());
    assert(category_lines(one, lang) =~= "- "@ + c.slug@ + " = "@ + taxonomy::display_text(
        c.slug@,
        c.names@,
        lang,
    ) + "\n"@);
}

/// The labels already in use are listed one line each and in order, all of them,
/// between the heading and the order to reuse them.
pub proof fn law_every_label_is_listed(
    a: Seq<Seq<char>>,
    b: Seq<Seq<char>>,
    label: Seq<char>,
)
    ensures
        label_lines(a + b) == label_lines(a) + label_lines(b),
        label_lines(seq![label]) == "- "@ + label + "\n"@,
        (a + b).len() > 0 ==> library_section(a + b) == "\nLabels already in use:\n"@
            + label_lines(a) + label_lines(b)
            + "You MUST reuse one of these labels verbatim when it fits; invent new wording only when none does.\n"@,
    decreases b.len(),
{
    if b.len() == 0 {
        assert(a + b =~= a);
        assert(label_lines(a) + label_lines(b) =~= label_lines(a));
    } else {
        law_every_label_is_listed(a, b.drop_last(), label);
        assert((a + b).drop_last() =~= a + b.drop_last());
        assert((a + b).last() == b.last());
        assert(label_lines(a + b) =~= label_lines(a) + label_lines(b));
    }
    let one = seq![label];
    assert(one.drop_last() =~= Seq::empty());
    assert(label_lines(one.drop_last()) =~= Seq::empty());
    assert(label_lines(one) =~= "- "@ + label + "\n"@);
    if (a + b).len() > 0 {
        assert(library_section(a + b) =~= "\nLabels already in use:\n"@ + label_lines(a)
            + label_lines(b)
            + "You MUST reuse one of these labels verbatim when it fits; invent new wording only when none does.\n"@);
    }
}

/// The role and the rules are the same for every language but for its name, which
/// stands where category names are spoken of.
#[verifier::rlimit(50)]
pub proof fn law_prompts_name_the_language(lang: Seq<char>, other: Seq<char>)
    ensures
        prompt_head(lang).len() - language_name(lang).len() == prompt_head(other).len()
            - language_name(other).len(),
        language_name(lang) == language_name(other) ==> prompt_head(lang) == prompt_head(other),
        prompt_head(lang).len() == "For each transaction you receive, choose exactly one category from the allowed list.\n"@.len()
            + "Reply ONLY with a JSON object: {\"results\":[{\"index\":<int>,\"category\":\"<slug>\"}]} — one result per transaction, same order.\n"@.len()
            + "- The response MUST be a single valid JSON object, no markdown, no extra text.\n"@.len()
            + "- `category` MUST be one of the slugs listed below, copied exactly.\n"@.len()
            + "- Category names are given in "@.len()
            + language_name(lang).len()
            + "; the slug (left side) is what you output.\n"@.len()
            + "- Choose the category by what the transaction is FOR, not by its wording.\n"@.len()
            + "- \"Gehalt\", \"Lohn\", \"Salary\", \"payroll\" are always salary_income, never transfers.\n"@.len()
            + "- \"REWE\", \"EDEKA\", \"ALDI\", \"LIDL\", \"Netto\", \"Whole Foods\", \"supermarket\", \"Groceries\" are groceries.\n"@.len()
            + "- \"Amazon Prime\" is a subscription only when the purpose names the Prime membership; plain Amazon orders are shopping.\n"@.len()
            + "- If nothing fits, use \"other_expense\" for outflows or \"other_income\" for inflows.\n\n"@.len()
            + "You are a bank transaction classifier. "@.len()
            + "Rules:\n"@.len()
            + "Allowed categories (slug = localized name):\n"@.len(),
        text::occurs_in(
            "For each transaction you receive, choose exactly one category from the allowed list.\n"@,
            prompt_head(lang),
        ),
        text::occurs_in(
            "Reply ONLY with a JSON object: {\"results\":[{\"index\":<int>,\"category\":\"<slug>\"}]} — one result per transaction, same order.\n"@,
            prompt_head(lang),
        ),
        text::occurs_in(
            "- The response MUST be a single valid JSON object, no markdown, no extra text.\n"@,
            prompt_head(lang),
        ),
        text::occurs_in(
            "- `category` MUST be one of the slugs listed below, copied exactly.\n"@,
            prompt_head(lang),
        ),
        text::occurs_in(
            "- Category names are given in "@ + language_name(lang) + "; the slug (left side) is what you output.\n"@,
            prompt_head(lang),
        ),
        text::occurs_in(
            "- Choose the category by what the transaction is FOR, not by its wording.\n"@,
            prompt_head(lang),
        ),
        text::occurs_in(
            "- \"Gehalt\", \"Lohn\", \"Salary\", \"payroll\" are always salary_income, never transfers.\n"@,
            prompt_head(lang),
        ),
        text::occurs_in(
            "- \"REWE\", \"EDEKA\", \"ALDI\", \"LIDL\", \"Netto\", \"Whole Foods\", \"supermarket\", \"Groceries\" are groceries.\n"@,
            prompt_head(lang),
        ),
        text::occurs_in(
            "- \"Amazon Prime\" is a subscription only when the purpose names the Prime membership; plain Amazon orders are shopping.\n"@,
            prompt_head(lang),
        ),
        text::occurs_in(
            "- If nothing fits, use \"other_expense\" for outflows or \"other_income\" for inflows.\n\n"@,
            prompt_head(lang),
        ),
        text::has_suffix(
            prompt_head(lang),
            "Allowed categories (slug = localized name):\n"@,
        ),
{
    let a = "You are a bank transaction classifier. "@;
    let r0 = "For each transaction you receive, choose exactly one category from the allowed list.\n"@;
    let r1 = "Reply ONLY with a JSON object: {\"results\":[{\"index\":<int>,\"category\":\"<slug>\"}]} — one result per transaction, same order.\n"@;
    let r2 = "- The response MUST be a single valid JSON object, no markdown, no extra text.\n"@;
    let r3 = "- `category` MUST be one of the slugs listed below, copied exactly.\n"@;
    let r4 = "- Category names are given in "@ + language_name(lang) + "; the slug (left side) is what you output.\n"@;
    let r5 = "- Choose the category by what the transaction is FOR, not by its wording.\n"@;
    let r6 = "- \"Gehalt\", \"Lohn\", \"Salary\", \"payroll\" are always salary_income, never transfers.\n"@;
    let r7 = "- \"REWE\", \"EDEKA\", \"ALDI\", \"LIDL\", \"Netto\", \"Whole Foods\", \"supermarket\", \"Groceries\" are groceries.\n"@;
    let r8 = "- \"Amazon Prime\" is a subscription only when the purpose names the Prime membership; plain Amazon orders are shopping.\n"@;
    let r9 = "- If nothing fits, use \"other_expense\" for outflows or \"other_income\" for inflows.\n\n"@;
    let rules = "Rules:\n"@;
    let z = "Allowed categories (slug = localized name):\n"@;
    let s = prompt_head(lang);
    let h4 = a + r0 + r1 + rules + r2 + r3;
    let t4 = r5 + r6 + r7 + r8 + r9 + z;
    assert(s =~= h4 + r4 + t4);
    lemma_occurs_between(s, h4, r4, t4);
    lemma_occurs_within(a, r0, r1 + rules + r2 + r3, r4 + t4);
    lemma_occurs_within(a + r0, r1, rules + r2 + r3, r4 + t4);
    lemma_occurs_within(a + r0 + r1 + rules, r2, r3, r4 + t4);
    lemma_occurs_within(a + r0 + r1 + rules + r2, r3, Seq::empty(), r4 + t4);
    assert(h4 =~= a + r0 + (r1 + rules + r2 + r3));
    assert(h4 =~= a + r0 + r1 + (rules + r2 + r3));
    assert(h4 =~= a + r0 + r1 + rules + r2 + r3 + Seq::empty());
    assert(s =~= h4 + (r4 + t4));
    let h = h4 + r4;
    lemma_occurs_within(h, r5, r6 + r7 + r8 + r9, z);
    lemma_occurs_within(h + r5, r6, r7 + r8 + r9, z);
    lemma_occurs_within(h + r5 + r6, r7, r8 + r9, z);
    lemma_occurs_within(h + r5 + r6 + r7, r8, r9, z);
    lemma_occurs_within(h + r5 + r6 + r7 + r8, r9, Seq::empty(), z);
    let e = h + r5 + r6 + r7 + r8 + r9;
    assert(h + r5 + (r6 + r7 + r8 + r9) =~= e);
    assert(h + r5 + r6 + (r7 + r8 + r9) =~= e);
    assert(h + r5 + r6 + r7 + (r8 + r9) =~= e);
    assert(e + Seq::empty() =~= e);
    assert(h4 + r4 + t4 =~= e + z);
    assert(s.subrange(s.len() - z.len(), s.len() as int) =~= z);
}

proof fn lemma_occurs_within(
    before: Seq<char>,
    word: Seq<char>,
    after: Seq<char>,
    rest: Seq<char>,
)
    ensures
        text::occurs_in(word, before + word + after + rest),
{
    let s = before + word + after + rest;
    assert(s =~= before + word + (after + rest));
    lemma_occurs_between(s, before, word, after + rest);
}

/// What the schema asks for, read off the tree: an object with a list of results,
/// each with an index that is a number of at least zero and a category that is one
/// of the values, all of them and in order. The rationale is spoken of exactly where
/// it is wanted, and never required.
#[verifier::rlimit(50)]
pub proof fn law_schema_offers_every_value(enum_values: Seq<Seq<char>>, include_rationale: bool)
    ensures
        ({
            let top = schema_tree(enum_values, include_rationale)->Object_0;
            let results = top["properties"@]->Object_0["results"@]->Object_0;
            let entry = results["items"@]->Object_0;
            let properties = entry["properties"@]->Object_0;
            let offered = properties["category"@]->Object_0["enum"@]->Array_0;
            &&& top["type"@] == JsonTree::Text("object"@)
            &&& top["required"@]->Array_0 == seq![JsonTree::Text("results"@)]
            &&& results["type"@] == JsonTree::Text("array"@)
            &&& entry["type"@] == JsonTree::Text("object"@)
            &&& entry["required"@]->Array_0 == seq![
                JsonTree::Text("index"@),
                JsonTree::Text("category"@),
            ]
            &&& properties["index"@]->Object_0["type"@] == JsonTree::Text("integer"@)
            &&& properties["index"@]->Object_0["minimum"@] == JsonTree::Unsigned(0)
            &&& properties["category"@]->Object_0["type"@] == JsonTree::Text("string"@)
            &&& offered.len() == enum_values.len()
            &&& forall|i: int|
                0 <= i < enum_values.len() ==> #[trigger] offered[i] == JsonTree::Text(
                    enum_values[i],
                )
            &&& properties.contains_key("rationale"@) == include_rationale
            &&& include_rationale ==> properties["rationale"@]->Object_0["type"@]
                == JsonTree::Text("string"@)
            &&& forall|name: Seq<char>| #[trigger]
                properties.contains_key(name) ==> name == "index"@ || name == "category"@ || name
                    == "rationale"@
            &&& forall|name: Seq<char>| #[trigger]
                top.contains_key(name) ==> name == "type"@ || name == "properties"@ || name
                    == "required"@
            &&& forall|name: Seq<char>| #[trigger]
                results.contains_key(name) ==> name == "type"@ || name == "items"@
            &&& forall|name: Seq<char>| #[trigger]
                entry.contains_key(name) ==> name == "type"@ || name == "properties"@ || name
                    == "required"@
            &&& forall|name: Seq<char>| #[trigger]
                properties["category"@]->Object_0.contains_key(name) ==> name == "type"@ || name
                    == "enum"@
        }),
{
    reveal_strlit("type");
    reveal_strlit("properties");
    reveal_strlit("required");
    reveal_strlit("results");
    reveal_strlit("items");
    reveal_strlit("index");
    reveal_strlit("category");
    reveal_strlit("rationale");
    reveal_strlit("enum");
    reveal_strlit("minimum");
    assert("type"@[0] == 't' && "properties"@[0] == 'p' && "results"@[2] == 's');
    assert("required"@[2] == 'q' && "items"@[0] == 'i' && "enum"@[0] == 'e');
    assert("index"@[0] == 'i' && "category"@[0] == 'c' && "rationale"@[0] == 'r');
    assert("minimum"@[0] == 'm');
    assert(json::text_array(seq!["results"@])->Array_0 =~= seq![JsonTree::Text("results"@)]);
    assert(json::text_array(seq!["index"@, "category"@])->Array_0 =~= seq![
        JsonTree::Text("index"@),
        JsonTree::Text("category"@),
    ]);
}

/// Each of the known codes has its own name, and every other code counts as
/// English.
pub proof fn law_languages_have_their_names(lang: Seq<char>)
    ensures
        lang == "de"@ ==> language_name(lang) == "German"@,
        lang == "en"@ ==> language_name(lang) == "English"@,
        lang == "fr"@ ==> language_name(lang) == "French"@,
        lang == "es"@ ==> language_name(lang) == "Spanish"@,
        lang == "it"@ ==> language_name(lang) == "Italian"@,
        lang == "nl"@ ==> language_name(lang) == "Dutch"@,
        lang == "pt"@ ==> language_name(lang) == "Portuguese"@,
        lang == "sv"@ ==> language_name(lang) == "Swedish"@,
        lang == "da"@ ==> language_name(lang) == "Danish"@,
        lang == "pl"@ ==> language_name(lang) == "Polish"@,
        lang == "cs"@ ==> language_name(lang) == "Czech"@,
        lang == "tr"@ ==> language_name(lang) == "Turkish"@,
        lang != "de"@ && lang != "en"@ && lang != "fr"@ && lang != "es"@
            && lang != "it"@ && lang != "nl"@ && lang != "pt"@ && lang != "sv"@
            && lang != "da"@ && lang != "pl"@ && lang != "cs"@ && lang != "tr"@ ==> language_name(lang) == "English"@,
{
    reveal_strlit("de");
    assert("de"@[0] == 'd' && "de"@[1] == 'e');
    reveal_strlit("en");
    assert("en"@[0] == 'e' && "en"@[1] == 'n');
    reveal_strlit("fr");
    assert("fr"@[0] == 'f' && "fr"@[1] == 'r');
    reveal_strlit("es");
    assert("es"@[0] == 'e' && "es"@[1] == 's');
    reveal_strlit("it");
    assert("it"@[0] == 'i' && "it"@[1] == 't');
    reveal_strlit("nl");
    assert("nl"@[0] == 'n' && "nl"@[1] == 'l');
    reveal_strlit("pt");
    assert("pt"@[0] == 'p' && "pt"@[1] == 't');
    reveal_strlit("sv");
    assert("sv"@[0] == 's' && "sv"@[1] == 'v');
    reveal_strlit("da");
    assert("da"@[0] == 'd' && "da"@[1] == 'a');
    reveal_strlit("pl");
    assert("pl"@[0] == 'p' && "pl"@[1] == 'l');
    reveal_strlit("cs");
    assert("cs"@[0] == 'c' && "cs"@[1] == 's');
    reveal_strlit("tr");
    assert("tr"@[0] == 't' && "tr"@[1] == 'r');
}

/// The fields of a transaction are harmless and hold no character that could pass
/// for the end of the field.
pub open spec fn is_plain(tx: Transaction) -> bool {
    &&& is_harmless(tx.date@) && !tx.date@.contains(';')
    &&& is_harmless(tx.amount.text@) && !tx.amount.text@.contains(';')
    &&& is_harmless(tx.currency@) && !tx.currency@.contains(';')
    &&& is_harmless(tx.counterparty@) && !tx.counterparty@.contains('>')
    &&& is_harmless(tx.purpose@)
}

proof fn lemma_same_front(c: char, x: Seq<char>, r: Seq<char>, y: Seq<char>, s: Seq<char>)
    requires
        !x.contains(c),
        !y.contains(c),
        r.len() > 0 && r[0] == c,
        s.len() > 0 && s[0] == c,
        x + r == y + s,
    ensures
        x == y,
        r == s,
{
    let whole = x + r;
    if x.len() < y.len() {
        assert(whole[x.len() as int] == r[0]);
        assert(whole[x.len() as int] == y[x.len() as int]);
        assert(y.contains(y[x.len() as int]));
    }
    if y.len() < x.len() {
        assert((y + s)[y.len() as int] == s[0]);
        assert(whole[y.len() as int] == x[y.len() as int]);
        assert(x.contains(x[y.len() as int]));
    }
    assert(x =~= whole.take(x.len() as int));
    assert(y =~= (y + s).take(y.len() as int));
    assert(r =~= whole.skip(x.len() as int));
    assert(s =~= (y + s).skip(y.len() as int));
}

proof fn lemma_same_rest(a: Seq<char>, r: Seq<char>, s: Seq<char>)
    requires
        a + r == a + s,
    ensures
        r == s,
{
    assert(r =~= (a + r).skip(a.len() as int));
    assert(s =~= (a + s).skip(a.len() as int));
}

/// Plain transactions that differ in any field have different lines.
pub proof fn law_lines_tell_transactions_apart(i: int, a: Transaction, b: Transaction)
    requires
        is_plain(a),
        is_plain(b),
        transaction_text(i, a) == transaction_text(i, b),
    ensures
        a.date@ == b.date@,
        a.amount.text@ == b.amount.text@,
        a.currency@ == b.currency@,
        a.counterparty@ == b.counterparty@,
        a.purpose@ == b.purpose@,
{
    law_harmless_fields_are_shown(i, a);
    law_harmless_fields_are_shown(i, b);
    reveal_strlit("; amount=");
    reveal_strlit("; currency=");
    reveal_strlit("; counterparty=<<");
    reveal_strlit(">>; purpose=<<");
    let (sa, sb) = (lemma_line_parts(i, a), lemma_line_parts(i, b));
    lemma_same_rest(line_start(i), sa.0, sb.0);
    lemma_same_front(';', a.date@, "; amount="@ + sa.1, b.date@, "; amount="@ + sb.1);
    lemma_same_rest("; amount="@, sa.1, sb.1);
    lemma_same_front(
        ';',
        a.amount.text@,
        "; currency="@ + sa.2,
        b.amount.text@,
        "; currency="@ + sb.2,
    );
    lemma_same_rest("; currency="@, sa.2, sb.2);
    lemma_same_front(
        ';',
        a.currency@,
        "; counterparty=<<"@ + sa.3,
        b.currency@,
        "; counterparty=<<"@ + sb.3,
    );
    lemma_same_rest("; counterparty=<<"@, sa.3, sb.3);
    lemma_same_front(
        '>',
        a.counterparty@,
        ">>; purpose=<<"@ + (a.purpose@ + ">>"@),
        b.counterparty@,
        ">>; purpose=<<"@ + (b.purpose@ + ">>"@),
    );
    lemma_same_rest(">>; purpose=<<"@, a.purpose@ + ">>"@, b.purpose@ + ">>"@);
    let none: Seq<char> = Seq::empty();
    assert(none + a.purpose@ + ">>"@ =~= a.purpose@ + ">>"@);
    assert(none + b.purpose@ + ">>"@ =~= b.purpose@ + ">>"@);
    lemma_cancel(none, a.purpose@, b.purpose@, ">>"@);
}

/// The line of a transaction behind its number, and behind each of its first three
/// field names.
proof fn lemma_line_parts(i: int, tx: Transaction) -> (r: (
    Seq<char>,
    Seq<char>,
    Seq<char>,
    Seq<char>,
))
    requires
        is_plain(tx),
    ensures
        transaction_text(i, tx) == line_start(i) + r.0,
        r.0 == tx.date@ + ("; amount="@ + r.1),
        r.1 == tx.amount.text@ + ("; currency="@ + r.2),
        r.2 == tx.currency@ + ("; counterparty=<<"@ + r.3),
        r.3 == tx.counterparty@ + (">>; purpose=<<"@ + (tx.purpose@ + ">>"@)),
{
    law_harmless_fields_are_shown(i, tx);
    let t3 = tx.counterparty@ + (">>; purpose=<<"@ + (tx.purpose@ + ">>"@));
    let t2 = tx.currency@ + ("; counterparty=<<"@ + t3);
    let t1 = tx.amount.text@ + ("; currency="@ + t2);
    let t0 = tx.date@ + ("; amount="@ + t1);
    let h1 = line_start(i) + tx.date@ + "; amount="@;
    let h2 = h1 + tx.amount.text@ + "; currency="@;
    let h3 = h2 + tx.currency@ + "; counterparty=<<"@;
    assert(transaction_text(i, tx) =~= h3 + t3);
    assert(h3 + t3 =~= h2 + t2);
    assert(h2 + t2 =~= h1 + t1);
    assert(h1 + t1 =~= line_start(i) + t0);
    (t0, t1, t2, t3)
}

} // verus!
