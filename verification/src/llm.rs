//! The conversation with the model: what is asked, what the answer means, and
//! when to ask again.
use vstd::prelude::*;
use vstd::string::*;

use crate::config::Config;
use crate::json;
use crate::json::{parse_json, Json, JsonTree};
use crate::model::Transaction;
use crate::prompt;
use crate::taxonomy;
use crate::taxonomy::{Category, Taxonomy};
use crate::text;
use crate::text::{chars_of, decimal_text, same_text, text_between};

verus! {

/// Raw parsed model output: results keyed by input position.
#[derive(Debug, Clone)]
pub struct RawClassification {
    pub index: usize,
    pub category: String,
    pub rationale: Option<String>,
}

impl RawClassification {
    /// The position of the transaction that this belongs to.
    pub fn index(&self) -> (r: usize)
        ensures
            r == self.index,
    {
        self.index
    }
}

/// Where a reader of JSON text stands: how many braces are open, whether it is
/// inside a string, and whether the next character is escaped.
pub struct Scan {
    pub depth: int,
    pub in_string: bool,
    pub escaped: bool,
}

pub open spec fn scan_step(at: Scan, c: char) -> Scan {
    if at.in_string {
        if at.escaped {
            (Scan { escaped: false, ..at })
        } else if c == '\\' {
            (Scan { escaped: true, ..at })
        } else if c == '"' {
            (Scan { in_string: false, ..at })
        } else {
            at
        }
    } else if c == '"' {
        (Scan { in_string: true, ..at })
    } else if c == '{' {
        (Scan { depth: at.depth + 1, ..at })
    } else if c == '}' {
        (Scan { depth: at.depth - 1, ..at })
    } else {
        at
    }
}

/// Where a reader stands after all of `s`.
pub open spec fn scan(s: Seq<char>) -> Scan
    decreases s.len(),
{
    if s.len() == 0 {
        Scan { depth: 0, in_string: false, escaped: false }
    } else {
        scan_step(scan(s.drop_last()), s.last())
    }
}

/// `s` begins with a brace that is closed by its `n`-th character, and by none
/// before it; braces inside strings do not count.
pub open spec fn closes_at(s: Seq<char>, n: int) -> bool {
    &&& 0 < n <= s.len()
    &&& s[0] == '{'
    &&& scan(s.take(n)).depth == 0
    &&& forall|m: int| 0 < m < n ==> scan(#[trigger] s.take(m)).depth > 0
}

/// The outermost balanced `{...}` at the start of `s`.
pub open spec fn balanced_prefix(s: Seq<char>) -> Option<Seq<char>> {
    if exists|n: int| closes_at(s, n) {
        Some(s.take(choose|n: int| closes_at(s, n)))
    } else {
        None
    }
}

proof fn lemma_balanced_prefix(s: Seq<char>, n: int)
    requires
        closes_at(s, n),
    ensures
        balanced_prefix(s) == Some(s.take(n)),
{
    let k = choose|k: int| closes_at(s, k);
    if k < n {
        assert(scan(s.take(k)).depth > 0);
    } else if n < k {
        assert(scan(s.take(n)).depth > 0);
    }
}

/// The number of characters of the balanced object that starts at `start`.
fn object_end(v: &Vec<char>, start: usize) -> (r: Option<usize>)
    requires
        start <= v@.len(),
    ensures
        match r {
            Some(end) => start <= end <= v@.len() && balanced_prefix(v@.skip(start as int)) == Some(
                v@.subrange(start as int, end as int),
            ),
            None => balanced_prefix(v@.skip(start as int)) is None,
        },
{
    let ghost s = v@.skip(start as int);
    if start == v.len() || v[start] != '{' {
        return None;
    }
    let mut depth: usize = 0;
    let mut in_string = false;
    let mut escaped = false;
    let mut i: usize = start;
    assert(s.take(0) =~= Seq::empty());
    while i < v.len()
        invariant
            start <= i <= v@.len(),
            start < v@.len(),
            s == v@.skip(start as int),
            s[0] == '{',
            scan(s.take(i - start)) == (Scan { depth: depth as int, in_string, escaped }),
            depth <= i - start,
            i == start ==> depth == 0 && !in_string && !escaped,
            forall|m: int| 0 < m <= i - start ==> scan(#[trigger] s.take(m)).depth > 0,
        decreases v@.len() - i,
    {
        let c = v[i];
        let ghost k = i - start;
        assert(s.take(k + 1).drop_last() =~= s.take(k));
        assert(s.take(k + 1).last() == c);
        assert(k == 0 ==> c == '{');
        if in_string {
            if escaped {
                escaped = false;
            } else if c == '\\' {
                escaped = true;
            } else if c == '"' {
                in_string = false;
            }
        } else if c == '"' {
            in_string = true;
        } else if c == '{' {
            depth += 1;
        } else if c == '}' {
            assert(scan(s.take(k)).depth > 0);
            depth -= 1;
            if depth == 0 {
                proof {
                    assert(closes_at(s, k + 1));
                    lemma_balanced_prefix(s, k + 1);
                    assert(s.take(k + 1) =~= v@.subrange(start as int, i + 1));
                }
                return Some(i + 1);
            }
        }
        i += 1;
    }
    None
}

/// Returns the outermost balanced `{...}` at the start of `s`, respecting
/// string literals and escapes.
pub fn balanced_object(s: &str) -> (r: Option<String>)
    ensures
        text::opt_text(r) == balanced_prefix(s@),
{
    let v = chars_of(s);
    assert(v@.skip(0) =~= s@);
    match object_end(&v, 0) {
        Some(end) => Some(text_between(&v, 0, end)),
        None => None,
    }
}

/// The first `{...}` from position `from` on that is JSON.
pub open spec fn first_object(s: Seq<char>, from: int) -> Option<Seq<char>>
    decreases s.len() - from,
{
    if from >= s.len() {
        None
    } else {
        match balanced_prefix(s.skip(from)) {
            Some(t) if json::json_of(t) is Ok => Some(t),
            _ => first_object(s, from + 1),
        }
    }
}

/// Finds the first parseable JSON object in a string (skips markdown fences
/// and prose; tries successive `{` candidates).
pub fn extract_json(content: &str) -> (r: Option<String>)
    ensures
        text::opt_text(r) == first_object(content@, 0),
{
    let v = chars_of(content);
    let mut from: usize = 0;
    while from < v.len()
        invariant
            from <= v@.len(),
            v@ == content@,
            first_object(content@, 0) == first_object(content@, from as int),
        decreases v@.len() - from,
    {
        if let Some(end) = object_end(&v, from) {
            let candidate = text_between(&v, from, end);
            if parse_json(candidate.as_str()).is_ok() {
                return Some(candidate);
            }
        }
        from += 1;
    }
    None
}

/// `slot` is what entry `pos` of the answer says: nothing without a text
/// `category`, else that text and the `rationale` where it is not blank.
pub open spec fn is_slot(
    slot: Option<RawClassification>,
    items: Seq<JsonTree>,
    pos: int,
) -> bool {
    let category = if pos < items.len() {
        json::text_member(items[pos], "category"@)
    } else {
        None
    };
    match (category, slot) {
        (None, None) => true,
        (Some(category), Some(raw)) => {
            &&& raw.index == pos
            &&& raw.category@ == text::trimmed(category)
            &&& text::opt_text(raw.rationale) == not_blank(
                json::text_member(items[pos], "rationale"@),
            )
        },
        _ => false,
    }
}

/// A member of an object that is a text.
pub open spec fn has_text(entry: JsonTree, name: Seq<char>) -> bool {
    entry is Object && entry->Object_0.contains_key(name) && entry->Object_0[name] is Text
}

/// `slot` is what was read at position `pos` of a list: it is filled wherever
/// there is an entry with a text `category`, and holds that text, and the text
/// `rationale` unless that is blank, without the white space around them.
pub open spec fn is_reading(
    slot: Option<RawClassification>,
    items: Seq<JsonTree>,
    pos: int,
) -> bool {
    &&& slot is Some <==> pos < items.len() && has_text(items[pos], "category"@)
    &&& slot matches Some(raw) ==> {
        &&& raw.index == pos
        &&& raw.category@ == text::trimmed(items[pos]->Object_0["category"@]->Text_0)
        &&& raw.rationale is Some <==> has_text(items[pos], "rationale"@) && text::trimmed(
            items[pos]->Object_0["rationale"@]->Text_0,
        ).len() > 0
        &&& raw.rationale is Some ==> raw.rationale->0@ == text::trimmed(
            items[pos]->Object_0["rationale"@]->Text_0,
        )
    }
}

/// Every entry is read: at each position the slot is filled exactly where the
/// entry there has a text `category`, and with what that entry says.
pub proof fn law_every_entry_is_read(
    slot: Option<RawClassification>,
    items: Seq<JsonTree>,
    pos: int,
)
    requires
        is_slot(slot, items, pos),
    ensures
        is_reading(slot, items, pos),
{
}

/// A text without the white space around it, unless nothing is left.
pub open spec fn not_blank(s: Option<Seq<char>>) -> Option<Seq<char>> {
    match s {
        Some(v) if text::trimmed(v).len() > 0 => Some(text::trimmed(v)),
        _ => None,
    }
}

/// The results that an answer lists, by position: slot `i` corresponds to input
/// transaction `i`; missing/invalid entries are `None`, and what is listed
/// beyond `expected_len` is dropped.
pub fn read_results(answer: &Json, expected_len: usize) -> (r: Vec<Option<RawClassification>>)
    ensures
        r@.len() == expected_len,
        forall|pos: int|
            0 <= pos < expected_len ==> is_slot(
                #[trigger] r@[pos],
                json::array_member(answer.tree(), "results"@),
                pos,
            ),
        forall|pos: int|
            0 <= pos < expected_len ==> is_reading(
                #[trigger] r@[pos],
                if answer.tree() is Object && answer.tree()->Object_0.contains_key("results"@)
                    && answer.tree()->Object_0["results"@] is Array {
                    answer.tree()->Object_0["results"@]->Array_0
                } else {
                    Seq::empty()
                },
                pos,
            ),
{
    let ghost items = json::array_member(answer.tree(), "results"@);
    let found = answer.get_array("results");
    let mut out: Vec<Option<RawClassification>> = Vec::new();
    let mut pos: usize = 0;
    while pos < expected_len
        invariant
            pos <= expected_len,
            out@.len() == pos,
            match found {
                Some(list) => list@.len() == items.len() && forall|i: int|
                    0 <= i < list@.len() ==> (#[trigger] list@[i]).tree() == items[i],
                None => items.len() == 0,
            },
            forall|i: int| 0 <= i < pos ==> is_slot(#[trigger] out@[i], items, i),
        decreases expected_len - pos,
    {
        let slot = match found {
            Some(list) => if pos < list.len() {
                read_entry(&list[pos], pos)
            } else {
                None
            },
            None => None,
        };
        assert(is_slot(slot, items, pos as int));
        out.push(slot);
        pos += 1;
    }
    proof {
        assert forall|pos: int| 0 <= pos < expected_len implies is_reading(
            #[trigger] out@[pos],
            items,
            pos,
        ) by {
            law_every_entry_is_read(out@[pos], items, pos);
        }
    }
    out
}

/// What one entry of the answer says.
fn read_entry(item: &Json, pos: usize) -> (r: Option<RawClassification>)
    ensures
        match (json::text_member(item.tree(), "category"@), r) {
            (None, None) => true,
            (Some(category), Some(raw)) => {
                &&& raw.index == pos
                &&& raw.category@ == text::trimmed(category)
                &&& text::opt_text(raw.rationale) == not_blank(
                    json::text_member(item.tree(), "rationale"@),
                )
            },
            _ => false,
        },
{
    let category = match item.get_text("category") {
        Some(c) => c.trim().to_owned(),
        None => {
            return None;
        },
    };
    let rationale = match item.get_text("rationale") {
        Some(t) => {
            let t = t.trim();
            if t.is_empty() {
                None
            } else {
                Some(t.to_owned())
            }
        },
        None => None,
    };
    Some(RawClassification { index: pos, category, rationale })
}

/// The entries that the model's output lists: those under `results` in the
/// first JSON object that it holds, none where it holds no such list.
pub open spec fn listed_results(content: Seq<char>) -> Seq<JsonTree> {
    match first_object(content, 0) {
        Some(t) => json::array_member(json::json_of(t)->Ok_0, "results"@),
        None => Seq::empty(),
    }
}

/// The entries are those under `results` in the first JSON object of the
/// output, all of them and in their order; there are none where there is no such
/// object or no such list.
pub proof fn law_results_are_listed(content: Seq<char>)
    ensures
        match first_object(content, 0) {
            Some(t) => match json::json_of(t) {
                Ok(JsonTree::Object(m)) => listed_results(content) == (if m.contains_key(
                    "results"@,
                ) && m["results"@] is Array {
                    m["results"@]->Array_0
                } else {
                    Seq::empty()
                }),
                _ => listed_results(content) == Seq::<JsonTree>::empty(),
            },
            None => listed_results(content) == Seq::<JsonTree>::empty(),
        },
{
    law_json_is_found(content, 0);
}

/// Extracts a JSON object from model output, tolerating markdown fences and
/// surrounding prose. Tries successive `{` positions so prose containing a
/// brace does not poison the parse. Returns results mapped positionally:
/// slot `i` corresponds to input transaction `i`; missing/invalid entries are
/// `None`. The model-echoed `index` is ignored for association.
pub fn parse_model_output(content: &str, expected_len: usize) -> (r: Vec<
    Option<RawClassification>,
>)
    ensures
        r@.len() == expected_len,
        forall|pos: int|
            0 <= pos < expected_len ==> is_slot(
                #[trigger] r@[pos],
                listed_results(content@),
                pos,
            ),
        forall|pos: int|
            0 <= pos < expected_len ==> is_reading(
                #[trigger] r@[pos],
                listed_results(content@),
                pos,
            ),
{
    proof {
        law_json_is_found(content@, 0);
        law_results_are_listed(content@);
    }
    match extract_json(content) {
        Some(text) => match parse_json(text.as_str()) {
            Ok(answer) => read_results(&answer, expected_len),
            Err(_) => vstd::pervasive::unreached(),
        },
        None => read_results(&Json::Null, expected_len),
    }
}

/// A balanced `{...}` that is JSON stands in `s` at position `at`.
pub open spec fn is_object_at(s: Seq<char>, at: int) -> bool {
    balanced_prefix(s.skip(at)) matches Some(t) && json::json_of(t) is Ok
}

/// The first JSON object is found wherever there is one from `from` on, and what
/// is found is JSON and a part of the text.
pub proof fn law_json_is_found(s: Seq<char>, from: int)
    requires
        0 <= from,
    ensures
        first_object(s, from) is Some <==> exists|at: int|
            from <= at < s.len() && #[trigger] is_object_at(s, at),
        first_object(s, from) matches Some(t) ==> json::json_of(t) is Ok && text::occurs_in(t, s),
    decreases s.len() - from,
{
    if from < s.len() {
        law_json_is_found(s, from + 1);
        if is_object_at(s, from) {
            let rest = s.skip(from);
            let n = choose|n: int| closes_at(rest, n);
            assert(s.subrange(from, from + n) =~= rest.take(n));
            assert(text::occurs_at(s, rest.take(n), from));
        } else if exists|at: int| from <= at < s.len() && #[trigger] is_object_at(s, at) {
            let at = choose|at: int| from <= at < s.len() && #[trigger] is_object_at(s, at);
            assert(from + 1 <= at);
        }
    }
}

/// One LLM call = one micro-batch of transactions.
#[derive(Debug)]
pub struct LlmRequest {
    pub transactions: Vec<Transaction>,
    pub language: String,
    pub include_rationale: bool,
}

/// Why a call failed.
#[derive(Debug, Clone)]
pub enum LlmError {
    Unreachable(String),
    Http { status: u16, body: String },
    BadResponse(String),
    Timeout(u64),
}

impl LlmError {
    /// The error as it is shown to the client.
    pub open spec fn shown(self) -> Seq<char> {
        match self {
            LlmError::Unreachable(m) => "LLM backend unreachable: "@ + m@,
            LlmError::Http { status, body } => "LLM backend error (HTTP "@ + text::decimal(
                status as nat,
            ) + "): "@ + body@,
            LlmError::BadResponse(m) => "LLM response was not valid JSON: "@ + m@,
            LlmError::Timeout(secs) => "LLM request timed out after "@ + text::decimal(
                secs as nat,
            ) + "s"@,
        }
    }

    /// The error as it is shown to the client.
    pub fn message(&self) -> (r: String)
        ensures
            r@ == self.shown(),
            match *self {
                LlmError::Unreachable(m) => r@ == "LLM backend unreachable: "@ + m@,
                LlmError::Http { status, body } => r@ == "LLM backend error (HTTP "@
                    + text::decimal(status as nat) + "): "@ + body@,
                LlmError::BadResponse(m) => r@ == "LLM response was not valid JSON: "@ + m@,
                LlmError::Timeout(secs) => r@ == "LLM request timed out after "@ + text::decimal(
                    secs as nat,
                ) + "s"@,
            },
    {
        match self {
            LlmError::Unreachable(m) => {
                let mut r = "LLM backend unreachable: ".to_owned();
                r.append(m.as_str());
                r
            },
            LlmError::Http { status, body } => {
                let mut r = "LLM backend error (HTTP ".to_owned();
                r.append(decimal_text(*status as u64).as_str());
                r.append("): ");
                r.append(body.as_str());
                r
            },
            LlmError::BadResponse(m) => {
                let mut r = "LLM response was not valid JSON: ".to_owned();
                r.append(m.as_str());
                r
            },
            LlmError::Timeout(secs) => {
                let mut r = "LLM request timed out after ".to_owned();
                r.append(decimal_text(*secs).as_str());
                r.append("s");
                r
            },
        }
    }

    /// A failure that may pass: no connection, too many requests, or an error
    /// on the server's side.
    pub open spec fn transient(self) -> bool {
        match self {
            LlmError::Unreachable(_) => true,
            LlmError::Http { status, .. } => status == 429 || 500 <= status <= 599,
            _ => false,
        }
    }

    /// Whether the failure may pass.
    pub fn is_transient(&self) -> (r: bool)
        ensures
            r == self.transient(),
            r <==> *self is Unreachable || (*self matches LlmError::Http { status, .. } && (status
                == 429 || 500 <= status <= 599)),
    {
        match self {
            LlmError::Unreachable(_) => true,
            LlmError::Http { status, .. } => *status == 429 || (500 <= *status && *status <= 599),
            _ => false,
        }
    }
}

/// The reply of the chat endpoint.
#[derive(Debug)]
pub struct ChatResponse {
    pub message: Option<ChatMessage>,
}

/// The message inside a reply.
#[derive(Debug)]
pub struct ChatMessage {
    pub content: Option<String>,
}

/// One turn of the conversation.
#[derive(Debug)]
pub struct ChatTurn {
    pub role: String,
    pub content: String,
}

/// The options of a chat request.
#[derive(Debug, Clone, Copy)]
pub struct ChatOptions {
    pub num_ctx: u32,
    /// In whole degrees; it is sent as a decimal number.
    pub temperature: u32,
    pub num_predict: u32,
}

/// The body of a chat request.
pub struct ChatRequestBody {
    pub model: String,
    pub messages: Vec<ChatTurn>,
    pub stream: bool,
    pub format: Json,
    pub keep_alive: String,
    /// `false` disables the model's thinking mode: thinking models would burn
    /// the entire `num_predict` budget on reasoning and never emit content.
    pub think: bool,
    pub options: ChatOptions,
}

/// How one call went.
#[derive(Debug)]
pub enum Exchange {
    /// No reply came in time.
    TimedOut,
    /// The request could not be sent, for the reason given.
    SendFailed(String),
    /// The body of the reply could not be read, for the reason given.
    BodyFailed(String),
    /// The reply: its status, its body, and the body read as a chat reply or
    /// the reason why it is none.
    Replied { status: u16, body: String, reply: Result<ChatResponse, String> },
}

/// What to do after an attempt.
#[derive(Debug)]
pub enum Step {
    /// The results, by position.
    Answer(Vec<Option<RawClassification>>),
    /// Give up with this error.
    Fail(LlmError),
    /// Wait, then try again.
    Retry,
}

/// What the client of the model server knows.
pub struct OllamaClient {
    pub base_url: String,
    pub model: String,
    pub num_ctx: u32,
    pub request_timeout_secs: u64,
    pub max_retries: u32,
    pub taxonomy: Taxonomy,
}

/// A status from 200 to 299.
pub open spec fn is_success(status: u16) -> bool {
    200 <= status <= 299
}

/// `s` cut after its `n`-th character.
pub open spec fn first_chars(s: Seq<char>, n: int) -> Seq<char> {
    if s.len() <= n {
        s
    } else {
        s.take(n)
    }
}

/// What a call means: the text of the model's message, or why there is none.
pub open spec fn is_outcome(
    exchange: Exchange,
    timeout_secs: u64,
    r: Result<String, LlmError>,
) -> bool {
    match exchange {
        Exchange::TimedOut => r matches Err(LlmError::Timeout(s)) && s == timeout_secs,
        Exchange::SendFailed(m) => r matches Err(LlmError::Unreachable(e)) && e@ == m@,
        Exchange::BodyFailed(m) => r matches Err(LlmError::BadResponse(e)) && e@ == m@,
        Exchange::Replied { status, body, reply } => if !is_success(status) {
            r matches Err(LlmError::Http { status: s, body: b }) && s == status && b@
                == first_chars(body@, 500)
        } else {
            match reply {
                Err(m) => r matches Err(LlmError::BadResponse(e)) && e@ == m@,
                Ok(reply) => match reply.message {
                    Some(ChatMessage { content: Some(content) }) => r matches Ok(c) && c@
                        == content@,
                    _ => r matches Err(LlmError::BadResponse(e)) && e@
                        == "missing message.content"@,
                },
            }
        },
    }
}

/// `step` follows attempt number `attempt`, which went as `outcome` says.
pub open spec fn is_step(
    step: Step,
    outcome: Result<String, LlmError>,
    attempt: u32,
    max_retries: u32,
    expected_len: usize,
) -> bool {
    match outcome {
        Ok(content) => step matches Step::Answer(slots) && slots@.len() == expected_len
            && forall|pos: int|
            0 <= pos < expected_len ==> is_slot(
                #[trigger] slots@[pos],
                listed_results(content@),
                pos,
            ),
        Err(LlmError::Timeout(_)) => step matches Step::Answer(slots) && slots@.len()
            == expected_len && forall|pos: int|
            0 <= pos < expected_len ==> (#[trigger] slots@[pos]) is None,
        Err(e) => if e.transient() && attempt <= max_retries {
            step is Retry
        } else {
            step == Step::Fail(e)
        },
    }
}

impl OllamaClient {
    /// A client with the settings of the service.
    pub fn new(cfg: &Config, taxonomy: Taxonomy) -> (r: Self)
        ensures
            r.base_url@ == cfg.ollama_url@,
            r.model@ == cfg.model@,
            r.num_ctx == cfg.num_ctx,
            r.request_timeout_secs == cfg.request_timeout_secs,
            r.max_retries == cfg.max_retries,
            r.taxonomy == taxonomy,
    {
        OllamaClient {
            base_url: cfg.ollama_url.clone(),
            model: cfg.model.clone(),
            num_ctx: cfg.num_ctx,
            request_timeout_secs: cfg.request_timeout_secs,
            max_retries: cfg.max_retries,
            taxonomy,
        }
    }

    /// Where the model server lists its models.
    pub fn tags_url(&self) -> (r: String)
        ensures
            r@ == self.base_url@ + "/api/tags"@,
    {
        let mut r = self.base_url.clone();
        r.append("/api/tags");
        r
    }

    /// Where the model server takes chat requests.
    pub fn chat_url(&self) -> (r: String)
        ensures
            r@ == self.base_url@ + "/api/chat"@,
    {
        let mut r = self.base_url.clone();
        r.append("/api/chat");
        r
    }

    /// Liveness/model reachability probe: what the status of the reply means,
    /// or the reason why there was no reply.
    pub fn health(&self, reply: Result<u16, String>) -> (r: Result<(), LlmError>)
        ensures
            match reply {
                Ok(status) => if is_success(status) {
                    r is Ok
                } else {
                    r matches Err(LlmError::Http { status: s, body }) && s == status && body@
                        == "health check failed"@
                },
                Err(m) => r matches Err(LlmError::Unreachable(e)) && e == m,
            },
            r is Ok <==> (reply matches Ok(status) && 200 <= status <= 299),
    {
        match reply {
            Ok(status) => if 200 <= status && status <= 299 {
                Ok(())
            } else {
                Err(LlmError::Http { status, body: "health check failed".to_owned() })
            },
            Err(m) => Err(LlmError::Unreachable(m)),
        }
    }

    /// The chat request for one micro-batch: the prompts, the schema of the
    /// answer, and settings that keep the answer short and repeatable.
    pub fn chat_request(&self, req: &LlmRequest, known_labels: &[String]) -> (r: ChatRequestBody)
        ensures
            r.model@ == self.model@,
            r.messages@.len() == 2,
            r.messages@[0].role@ == "system"@,
            r.messages@[0].content@ == prompt::prompt_head(req.language@)
                + prompt::category_lines(self.taxonomy@, req.language@)
                + prompt::library_section(known_labels@.map_values(|l: String| l@)),
            r.messages@[1].role@ == "user"@,
            r.messages@[1].content@ == prompt::user_prompt_text(
                req.transactions@,
                req.include_rationale,
            ),
            !r.stream,
            r.format.tree() == prompt::schema_tree(
                self.taxonomy@.map_values(|c: Category| c.slug@),
                req.include_rationale,
            ),
            r.keep_alive@ == "10m"@,
            !r.think,
            r.options.num_ctx == self.num_ctx,
            r.options.temperature == 0,
            r.options.num_predict == 768,
    {
        let system = prompt::system_prompt_with_library(
            &self.taxonomy,
            req.language.as_str(),
            known_labels,
        );
        let user = prompt::user_prompt(req.transactions.as_slice(), req.include_rationale);
        let slugs = self.taxonomy.slugs();
        assert(slugs@.map_values(|s: String| s@) =~= self.taxonomy@.map_values(
            |c: Category| c.slug@,
        ));
        let format = prompt::response_schema(slugs.as_slice(), req.include_rationale);
        let mut messages: Vec<ChatTurn> = Vec::new();
        messages.push(ChatTurn { role: "system".to_owned(), content: system });
        messages.push(ChatTurn { role: "user".to_owned(), content: user });
        ChatRequestBody {
            model: self.model.clone(),
            messages,
            stream: false,
            format,
            keep_alive: "10m".to_owned(),
            think: false,
            options: ChatOptions { num_ctx: self.num_ctx, temperature: 0, num_predict: 768 },
        }
    }

    /// What one call means: the text of the model's message, or why there is
    /// none.
    pub fn attempt(&self, exchange: Exchange) -> (r: Result<String, LlmError>)
        ensures
            is_outcome(exchange, self.request_timeout_secs, r),
            means(exchange, self.request_timeout_secs, r),
    {
        match exchange {
            Exchange::TimedOut => Err(LlmError::Timeout(self.request_timeout_secs)),
            Exchange::SendFailed(m) => Err(LlmError::Unreachable(m)),
            Exchange::BodyFailed(m) => Err(LlmError::BadResponse(m)),
            Exchange::Replied { status, body, reply } => {
                if !(200 <= status && status <= 299) {
                    assert(body@.take(body@.len() as int) =~= body@);
                    return Err(LlmError::Http { status, body: cut(body.as_str(), 500) });
                }
                match reply {
                    Err(m) => Err(LlmError::BadResponse(m)),
                    Ok(reply) => match reply.message {
                        Some(ChatMessage { content: Some(content) }) => Ok(content),
                        _ => Err(LlmError::BadResponse("missing message.content".to_owned())),
                    },
                }
            },
        }
    }

    /// Classify one micro-batch, one attempt at a time: what follows attempt
    /// number `attempt` (counted from one). Transient failures are tried again
    /// up to `max_retries` times; a timeout degrades item-wise; association
    /// with transactions is positional.
    pub fn classify_batch(
        &self,
        outcome: Result<String, LlmError>,
        attempt: u32,
        expected_len: usize,
    ) -> (r: Step)
        ensures
            is_step(r, outcome, attempt, self.max_retries, expected_len),
            outcome matches Ok(content) ==> (r matches Step::Answer(slots) && slots@.len()
                == expected_len && forall|pos: int|
                0 <= pos < expected_len ==> is_reading(
                    #[trigger] slots@[pos],
                    listed_results(content@),
                    pos,
                )),
            outcome matches Err(LlmError::Timeout(_)) ==> (r matches Step::Answer(slots)
                && slots@.len() == expected_len && forall|pos: int|
                0 <= pos < expected_len ==> (#[trigger] slots@[pos]) is None),
            r is Retry <==> attempt <= self.max_retries && (outcome matches Err(
                LlmError::Unreachable(_),
            ) || (outcome matches Err(LlmError::Http { status, .. }) && (status == 429 || 500
                <= status <= 599))),
            r matches Step::Fail(e) ==> outcome == Err::<String, LlmError>(e),
    {
        match outcome {
            Ok(content) => Step::Answer(parse_model_output(content.as_str(), expected_len)),
            Err(LlmError::Timeout(_)) => Step::Answer(no_results(expected_len)),
            Err(e) => if e.is_transient() && attempt <= self.max_retries {
                Step::Retry
            } else {
                Step::Fail(e)
            },
        }
    }
}

/// No result for any of `n` transactions.
fn no_results(n: usize) -> (r: Vec<Option<RawClassification>>)
    ensures
        r@.len() == n,
        forall|i: int| 0 <= i < n ==> (#[trigger] r@[i]) is None,
{
    let mut r: Vec<Option<RawClassification>> = Vec::new();
    let mut i: usize = 0;
    while i < n
        invariant
            i <= n,
            r@.len() == i,
            forall|j: int| 0 <= j < i ==> (#[trigger] r@[j]) is None,
        decreases n - i,
    {
        r.push(None);
        i += 1;
    }
    r
}

/// `s` cut after its `n`-th character.
fn cut(s: &str, n: usize) -> (r: String)
    ensures
        r@ == first_chars(s@, n as int),
{
    let v = chars_of(s);
    let to: usize = if v.len() <= n {
        v.len()
    } else {
        n
    };
    assert(v@.subrange(0, to as int) =~= first_chars(s@, n as int));
    text_between(&v, 0, to)
}

/// The name of a listed model; empty where the listing gives none.
pub open spec fn tag_name(tag: JsonTree) -> Seq<char> {
    match json::text_member(tag, "name"@) {
        Some(name) => name,
        None => Seq::empty(),
    }
}

/// A model name up to its first colon.
pub open spec fn base_name(name: Seq<char>) -> Seq<char>
    decreases name.len(),
{
    if name.len() == 0 || name[0] == ':' {
        Seq::empty()
    } else {
        seq![name[0]] + base_name(name.drop_first())
    }
}

/// The position from `i` on of the first model with exactly that name.
pub open spec fn exact_tag(tags: Seq<JsonTree>, model: Seq<char>, i: int) -> Option<int>
    decreases tags.len() - i,
{
    if i >= tags.len() {
        None
    } else if tag_name(tags[i]) == model {
        Some(i)
    } else {
        exact_tag(tags, model, i + 1)
    }
}

/// The first size from position `i` on that is listed for a model with that
/// base name.
pub open spec fn base_size(tags: Seq<JsonTree>, base: Seq<char>, i: int) -> Option<u64>
    decreases tags.len() - i,
{
    if i >= tags.len() {
        None
    } else if base_name(tag_name(tags[i])) == base && json::unsigned_member(
        tags[i],
        "size"@,
    ) is Some {
        json::unsigned_member(tags[i], "size"@)
    } else {
        base_size(tags, base, i + 1)
    }
}

/// The size that a listing gives for a model: that of the model itself where it
/// is listed, else the first one for a model with its base name.
pub open spec fn listed_size(listing: JsonTree, model: Seq<char>) -> Option<u64> {
    let tags = json::array_member(listing, "models"@);
    match exact_tag(tags, model, 0) {
        Some(i) => json::unsigned_member(tags[i], "size"@),
        None => base_size(tags, base_name(model), 0),
    }
}

/// A model name up to its first colon.
fn base_of(name: &str) -> (r: String)
    ensures
        r@ == base_name(name@),
{
    let v = chars_of(name);
    let mut n: usize = 0;
    assert(v@.skip(0) =~= name@);
    assert(v@.subrange(0, 0) =~= Seq::empty());
    while n < v.len() && v[n] != ':'
        invariant
            n <= v@.len(),
            v@ == name@,
            v@.subrange(0, n as int) + base_name(v@.skip(n as int)) =~= base_name(name@),
        decreases v@.len() - n,
    {
        let ghost rest = v@.skip(n as int);
        assert(rest.drop_first() =~= v@.skip(n + 1));
        assert(v@.subrange(0, n + 1) =~= v@.subrange(0, n as int) + seq![rest[0]]);
        n += 1;
    }
    assert(base_name(v@.skip(n as int)) =~= Seq::empty());
    text_between(&v, 0, n)
}

/// The size that a listing gives for a model. An exact tag match counts first;
/// the base name counts only where there is none (so that `4b` does not get the
/// size of `4b-instruct`).
pub fn model_size(listing: &Json, model: &str) -> (r: Option<u64>)
    ensures
        r == listed_size(listing.tree(), model@),
{
    let ghost tags = json::array_member(listing.tree(), "models"@);
    let list = match listing.get_array("models") {
        Some(list) => list,
        None => {
            return None;
        },
    };
    let want_base = base_of(model);
    let mut fallback: Option<u64> = None;
    for i in 0..list.len()
        invariant
            list@.len() == tags.len(),
            forall|j: int| 0 <= j < list@.len() ==> (#[trigger] list@[j]).tree() == tags[j],
            tags == json::array_member(listing.tree(), "models"@),
            want_base@ == base_name(model@),
            exact_tag(tags, model@, 0) == exact_tag(tags, model@, i as int),
            match fallback {
                Some(size) => base_size(tags, want_base@, 0) == Some(size),
                None => base_size(tags, want_base@, 0) == base_size(tags, want_base@, i as int),
            },
    {
        let tag = &list[i];
        assert(tag.tree() == tags[i as int]);
        let name = match tag.get_text("name") {
            Some(name) => name,
            None => "",
        };
        proof {
            reveal_strlit("");
            assert(""@ =~= Seq::empty());
        }
        if same_text(name, model) {
            return tag.get_unsigned("size");
        }
        if fallback.is_none() && base_of(name) == want_base {
            fallback = tag.get_unsigned("size");
        }
    }
    fallback
}

impl OllamaClient {
    /// Model size in bytes from the body of the reply of `/api/tags` (used for
    /// the VRAM budget check).
    pub fn model_size_bytes(&self, body: &str) -> (r: Result<Option<u64>, LlmError>)
        ensures
            match json::json_of(body@) {
                Ok(listing) => r == Ok::<Option<u64>, LlmError>(listed_size(listing, self.model@)),
                Err(_) => r matches Err(LlmError::BadResponse(e)) && e@
                    == "error decoding response body"@,
            },
    {
        match parse_json(body) {
            Ok(listing) => Ok(model_size(&listing, self.model.as_str())),
            Err(_) => Err(LlmError::BadResponse("error decoding response body".to_owned())),
        }
    }
}

/// The smaller of a number and the largest machine number.
pub open spec fn saturated(n: nat) -> u64 {
    if n <= u64::MAX {
        n as u64
    } else {
        u64::MAX
    }
}

/// The wait before the attempt after number `attempt`, in milliseconds and
/// without jitter: 200 ms, and four times as much after each further attempt.
pub open spec fn backoff_base(attempt: u32) -> u64 {
    saturated((200 * vstd::arithmetic::power::pow(4, if attempt == 0 {
        0
    } else {
        (attempt - 1) as nat
    })) as nat)
}

/// The wait before the attempt after number `attempt`, without jitter.
pub fn backoff_base_ms(attempt: u32) -> (r: u64)
    ensures
        r == backoff_base(attempt),
{
    let steps: u32 = if attempt == 0 {
        0
    } else {
        attempt - 1
    };
    let mut base: u64 = 200;
    let mut i: u32 = 0;
    proof {
        vstd::arithmetic::power::lemma_pow0(4);
    }
    while i < steps
        invariant
            i <= steps,
            steps == (if attempt == 0 {
                0
            } else {
                attempt - 1
            }),
            base == 200 * vstd::arithmetic::power::pow(4, i as nat),
        decreases steps - i,
    {
        proof {
            vstd::arithmetic::power::lemma_pow_adds(4, i as nat, 1);
            vstd::arithmetic::power::lemma_pow1(4);
            assert(200 * (vstd::arithmetic::power::pow(4, i as nat) * 4) == 4 * base)
                by (nonlinear_arith)
                requires
                    base == 200 * vstd::arithmetic::power::pow(4, i as nat),
            ;
        }
        if base > u64::MAX / 4 {
            proof {
                vstd::arithmetic::power::lemma_pow_increases(4, (i + 1) as nat, steps as nat);
            }
            return u64::MAX;
        }
        base = base * 4;
        i += 1;
    }
    base
}

/// `rand::thread_rng` and `Rng::gen_range` over `0..=limit`: some number that is
/// not above the limit. Which one it is depends on chance.
#[verifier::external_body]
fn jitter(limit: u64) -> (r: u64)
    ensures
        r <= limit,
{
    rand::Rng::gen_range(&mut rand::thread_rng(), 0..=limit)
}

/// The wait before the next attempt, in milliseconds: the base and `jitter_ms`
/// on top.
pub fn backoff_with(attempt: u32, jitter_ms: u64) -> (r: u64)
    requires
        backoff_base(attempt) + jitter_ms <= u64::MAX,
    ensures
        r == backoff_base(attempt) + jitter_ms,
{
    backoff_base_ms(attempt) + jitter_ms
}

/// The wait before the next attempt, in milliseconds: the base and up to a
/// quarter of it on top.
pub fn backoff_delay(attempt: u32) -> (r: u64)
    requires
        backoff_base(attempt) + backoff_base(attempt) / 4 <= u64::MAX,
    ensures
        backoff_base(attempt) <= r <= backoff_base(attempt) + backoff_base(attempt) / 4,
{
    let jitter_ms = jitter(backoff_base_ms(attempt) / 4);
    backoff_with(attempt, jitter_ms)
}

/// A label with the reason that the model gave for it.
#[derive(Debug, Clone)]
pub struct RawLabel {
    pub label: String,
    pub rationale: Option<String>,
}

/// The label for a category that the model named, `slug` being what it named in
/// lower case: the localized name where that is a slug of the taxonomy, else the
/// model's own wording.
pub open spec fn label_for(
    categories: Seq<Category>,
    slug: Seq<char>,
    category: Seq<char>,
    lang: Seq<char>,
) -> Seq<char> {
    match taxonomy::category_of(categories, slug) {
        Some(c) => taxonomy::display_text(c.slug@, c.names@, lang),
        None => category,
    }
}

/// The label for what the model said of one transaction.
pub fn localize(tax: &Taxonomy, raw: RawClassification, lang: &str) -> (r: RawLabel)
    ensures
        r.label@ == label_for(
            tax@,
            text::lowercase_of(text::trimmed(raw.category@)),
            raw.category@,
            lang@,
        ),
        vstd::utf8::is_ascii_chars(text::trimmed(raw.category@)) ==> r.label@ == label_for(
            tax@,
            text::ascii_lowercase(text::trimmed(raw.category@)),
            raw.category@,
            lang@,
        ),
        r.rationale == raw.rationale,
        forall|i: int|
            0 <= i < tax@.len() && (#[trigger] tax@[i]).slug@ == text::lowercase_of(
                text::trimmed(raw.category@),
            ) ==> r.label@ == taxonomy::display_text(tax@[i].slug@, tax@[i].names@, lang@),
        (forall|i: int|
            0 <= i < tax@.len() ==> (#[trigger] tax@[i]).slug@ != text::lowercase_of(
                text::trimmed(raw.category@),
            )) ==> r.label@ == raw.category@,
{
    let label = match tax.lookup_ci(raw.category.as_str()) {
        Some(c) => c.display_name(lang).to_owned(),
        None => raw.category.clone(),
    };
    RawLabel { label, rationale: raw.rationale }
}

/// `label` is the label for `raw`, or nothing where `raw` is nothing.
pub open spec fn is_localized(
    label: Option<RawLabel>,
    raw: Option<RawClassification>,
    categories: Seq<Category>,
    lang: Seq<char>,
) -> bool {
    match raw {
        Some(raw) => {
            &&& label is Some
            &&& label->0.label@ == label_for(
                categories,
                text::lowercase_of(text::trimmed(raw.category@)),
                raw.category@,
                lang,
            )
            &&& vstd::utf8::is_ascii_chars(text::trimmed(raw.category@)) ==> label->0.label@
                == label_for(
                categories,
                text::ascii_lowercase(text::trimmed(raw.category@)),
                raw.category@,
                lang,
            )
            &&& label->0.rationale == raw.rationale
        },
        None => label is None,
    }
}

/// The labels for what the model said, by position.
pub fn localize_all(tax: &Taxonomy, raw: Vec<Option<RawClassification>>, lang: &str) -> (r: Vec<
    Option<RawLabel>,
>)
    ensures
        r@.len() == raw@.len(),
        forall|i: int|
            0 <= i < r@.len() ==> is_localized(#[trigger] r@[i], raw@[i], tax@, lang@),
        forall|i: int|
            0 <= i < r@.len() ==> ((#[trigger] r@[i]) is Some <==> raw@[i] is Some),
        forall|i: int|
            0 <= i < r@.len() && (#[trigger] r@[i]) is Some ==> is_shown(
                r@[i]->0,
                raw@[i]->0,
                tax@,
                lang@,
            ),
{
    let mut out: Vec<Option<RawLabel>> = Vec::new();
    for entry in it: raw
        invariant
            it.seq() == raw@,
            out@.len() == it.index(),
            forall|i: int|
                0 <= i < out@.len() ==> is_localized(#[trigger] out@[i], raw@[i], tax@, lang@),
            forall|i: int|
                0 <= i < out@.len() && (#[trigger] out@[i]) is Some ==> is_shown(
                    out@[i]->0,
                    raw@[i]->0,
                    tax@,
                    lang@,
                ),
    {
        let label = match entry {
            Some(entry) => Some(localize(tax, entry, lang)),
            None => None,
        };
        out.push(label);
    }
    out
}

/// An answer that was cut short loses only its tail: the slots before the cut
/// stay as they are, those behind it are empty.
pub proof fn law_truncation_spares_the_head(
    items: Seq<JsonTree>,
    kept: int,
    slot: Option<RawClassification>,
    pos: int,
)
    requires
        0 <= kept <= items.len(),
        0 <= pos,
    ensures
        pos < kept ==> is_slot(slot, items.take(kept), pos) == is_slot(slot, items, pos),
        pos >= kept ==> is_slot(slot, items.take(kept), pos) == (slot is None),
{
}

/// Association is positional: whatever else an entry holds, an echoed `index`
/// among it, the slot follows from its position, category and rationale alone.
pub proof fn law_echoed_index_is_ignored(
    items: Seq<JsonTree>,
    others: Seq<JsonTree>,
    slot: Option<RawClassification>,
    pos: int,
)
    requires
        0 <= pos < items.len(),
        pos < others.len(),
        json::text_member(items[pos], "category"@) == json::text_member(
            others[pos],
            "category"@,
        ),
        json::text_member(items[pos], "rationale"@) == json::text_member(
            others[pos],
            "rationale"@,
        ),
    ensures
        is_slot(slot, items, pos) == is_slot(slot, others, pos),
        is_slot(slot, items, pos) && slot is Some ==> slot->0.index == pos,
{
}

/// Trying again comes to an end: only a failure that may pass leads to another
/// attempt, a timeout never does, and after `max_retries` further attempts none
/// follows.
pub proof fn law_retries_end(
    step: Step,
    outcome: Result<String, LlmError>,
    attempt: u32,
    max_retries: u32,
    expected_len: usize,
)
    requires
        is_step(step, outcome, attempt, max_retries, expected_len),
    ensures
        step is Retry <==> (outcome matches Err(e) && e.transient() && attempt <= max_retries),
        attempt > max_retries ==> step !is Retry,
        outcome matches Err(LlmError::Timeout(_)) ==> step is Answer,
        outcome is Ok ==> step is Answer,
{
}

/// The wait grows fourfold from one attempt to the next, up to the largest
/// machine number.
pub proof fn law_backoff_grows(attempt: u32)
    requires
        1 <= attempt < u32::MAX,
    ensures
        backoff_base(0) == 200,
        backoff_base(1) == 200,
        backoff_base((attempt + 1) as u32) == saturated((4 * backoff_base(attempt)) as nat),
        backoff_base((attempt + 1) as u32) == (if 4 * backoff_base(attempt) > u64::MAX {
            u64::MAX as int
        } else {
            4 * backoff_base(attempt)
        }),
{
    let n = (attempt - 1) as nat;
    let p = vstd::arithmetic::power::pow(4, n);
    vstd::arithmetic::power::lemma_pow0(4);
    vstd::arithmetic::power::lemma_pow1(4);
    vstd::arithmetic::power::lemma_pow_adds(4, n, 1);
    vstd::arithmetic::power::lemma_pow_positive(4, n);
    assert(200 * (p * 4) == 4 * (200 * p)) by (nonlinear_arith);
    assert(200 * p >= 0) by (nonlinear_arith)
        requires
            p > 0,
    ;
}

/// Up to attempt 29, far more than the ten retries that the settings allow, a
/// wait fits its machine number, jitter included.
pub proof fn law_backoff_fits(attempt: u32)
    requires
        attempt <= 29,
    ensures
        backoff_base(attempt) + backoff_base(attempt) / 4 <= u64::MAX,
{
    let n: nat = if attempt == 0 {
        0
    } else {
        (attempt - 1) as nat
    };
    vstd::arithmetic::power::lemma_pow_increases(4, n, 28);
    vstd::arithmetic::power::lemma_pow_positive(4, n);
    assert(vstd::arithmetic::power::pow(4, 28) == 0x100_0000_0000_0000) by {
        let p = vstd::arithmetic::power::pow(4, 7);
        let q = vstd::arithmetic::power::pow(4, 14);
        assert(p == 0x4000) by {
            reveal_with_fuel(vstd::arithmetic::power::pow, 8);
        }
        vstd::arithmetic::power::lemma_pow_adds(4, 7, 7);
        assert(p * p == 0x1000_0000) by (nonlinear_arith)
            requires
                p == 0x4000,
        ;
        vstd::arithmetic::power::lemma_pow_adds(4, 14, 14);
        assert(q * q == 0x100_0000_0000_0000) by (nonlinear_arith)
            requires
                q == 0x1000_0000,
        ;
    }
}

/// The object that is taken is the first one: nothing before it is JSON.
pub proof fn law_first_object_is_taken(s: Seq<char>, from: int, at: int)
    requires
        0 <= from <= at < s.len(),
        is_object_at(s, at),
        forall|k: int| from <= k < at ==> !(#[trigger] is_object_at(s, k)),
    ensures
        first_object(s, from) == balanced_prefix(s.skip(at)),
    decreases at - from,
{
    if from < at {
        assert(!is_object_at(s, from));
        law_first_object_is_taken(s, from + 1, at);
    }
}

proof fn lemma_scan_without_quotes(s: Seq<char>)
    requires
        forall|i: int| 0 <= i < s.len() ==> #[trigger] s[i] != '"',
    ensures
        !scan(s).in_string,
        !scan(s).escaped,
        scan(s).depth == s.to_multiset().count('{') - s.to_multiset().count('}'),
    decreases s.len(),
{
    broadcast use vstd::seq_lib::group_to_multiset_ensures;

    if s.len() > 0 {
        let rest = s.drop_last();
        assert forall|i: int| 0 <= i < rest.len() implies #[trigger] rest[i] != '"' by {
            assert(rest[i] == s[i]);
        }
        lemma_scan_without_quotes(rest);
        assert(s =~= rest.push(s.last()));
        assert(s[s.len() - 1] != '"');
    }
}

/// An object ends where as many braces are closed as were opened: what stands
/// between its first brace and the one that closes it may hold further pairs.
pub proof fn law_objects_end_with_their_brace(inner: Seq<char>, rest: Seq<char>)
    requires
        forall|i: int| 0 <= i < inner.len() ==> #[trigger] inner[i] != '"',
        forall|k: int|
            0 <= k <= inner.len() ==> (#[trigger] inner.take(k)).to_multiset().count('}')
                <= inner.take(k).to_multiset().count('{'),
        inner.to_multiset().count('}') == inner.to_multiset().count('{'),
    ensures
        balanced_prefix(seq!['{'] + inner + seq!['}'] + rest) == Some(
            seq!['{'] + inner + seq!['}'],
        ),
{
    broadcast use vstd::seq_lib::group_to_multiset_ensures;

    let object = seq!['{'] + inner + seq!['}'];
    let s = object + rest;
    let n = object.len() as int;
    assert forall|m: int| 0 < m < n implies scan(#[trigger] s.take(m)).depth > 0 by {
        let part = inner.take(m - 1);
        assert(s.take(m) =~= seq!['{'] + part);
        assert forall|i: int| 0 <= i < s.take(m).len() implies #[trigger] s.take(m)[i] != '"' by {
            if i > 0 {
                assert(s.take(m)[i] == inner[i - 1]);
            }
        }
        lemma_scan_without_quotes(s.take(m));
        lemma_multiset_prefix('{', part);
    }
    assert(s.take(n) =~= object);
    assert forall|i: int| 0 <= i < object.len() implies #[trigger] object[i] != '"' by {
        if 0 < i < object.len() - 1 {
            assert(object[i] == inner[i - 1]);
        }
    }
    lemma_scan_without_quotes(object);
    lemma_multiset_prefix('{', inner);
    assert(object =~= (seq!['{'] + inner).push('}'));
    assert(closes_at(s, n));
    lemma_balanced_prefix(s, n);
}

proof fn lemma_multiset_prefix(c: char, s: Seq<char>)
    ensures
        (seq![c] + s).to_multiset() =~= s.to_multiset().insert(c),
    decreases s.len(),
{
    broadcast use vstd::seq_lib::group_to_multiset_ensures;

    if s.len() == 0 {
        assert(seq![c] + s =~= Seq::empty().push(c));
        assert(s =~= Seq::empty());
    } else {
        lemma_multiset_prefix(c, s.drop_last());
        assert(seq![c] + s =~= (seq![c] + s.drop_last()).push(s.last()));
        assert(s =~= s.drop_last().push(s.last()));
    }
}

/// Text that does not begin with a brace, or never closes its first one, holds
/// no object at its start.
pub proof fn law_open_braces_are_no_object(s: Seq<char>)
    requires
        s.len() == 0 || s[0] != '{' || ((forall|i: int| 0 <= i < s.len() ==> #[trigger] s[i] != '"')
            && (forall|k: int|
            0 < k <= s.len() ==> (#[trigger] s.take(k)).to_multiset().count('}') < s.take(
                k,
            ).to_multiset().count('{'))),
    ensures
        balanced_prefix(s) is None,
{
    if exists|n: int| closes_at(s, n) {
        let n = choose|n: int| closes_at(s, n);
        assert forall|i: int| 0 <= i < s.take(n).len() implies #[trigger] s.take(n)[i] != '"' by {
            assert(s.take(n)[i] == s[i]);
        }
        lemma_scan_without_quotes(s.take(n));
        assert(false);
    }
}

proof fn lemma_scan_plain(s: Seq<char>, t: Seq<char>)
    requires
        !scan(s).in_string,
        forall|i: int|
            0 <= i < t.len() ==> #[trigger] t[i] != '"' && t[i] != '{' && t[i] != '}',
    ensures
        scan(s + t) == scan(s),
    decreases t.len(),
{
    if t.len() == 0 {
        assert(s + t =~= s);
    } else {
        let rest = t.drop_last();
        assert forall|i: int| 0 <= i < rest.len() implies #[trigger] rest[i] != '"' && rest[i]
            != '{' && rest[i] != '}' by {
            assert(rest[i] == t[i]);
        }
        lemma_scan_plain(s, rest);
        assert((s + t).drop_last() =~= s + rest);
        assert((s + t).last() == t[t.len() - 1]);
    }
}

proof fn lemma_scan_quoted(s: Seq<char>, t: Seq<char>)
    requires
        scan(s).in_string,
        !scan(s).escaped,
        forall|i: int| 0 <= i < t.len() ==> #[trigger] t[i] != '"' && t[i] != '\\',
    ensures
        scan(s + t) == scan(s),
    decreases t.len(),
{
    if t.len() == 0 {
        assert(s + t =~= s);
    } else {
        let rest = t.drop_last();
        assert forall|i: int| 0 <= i < rest.len() implies #[trigger] rest[i] != '"' && rest[i]
            != '\\' by {
            assert(rest[i] == t[i]);
        }
        lemma_scan_quoted(s, rest);
        assert((s + t).drop_last() =~= s + rest);
        assert((s + t).last() == t[t.len() - 1]);
    }
}

/// Braces inside a string do not count, whatever the string holds, and an
/// escaped quote does not end it.
pub proof fn law_strings_hide_braces(
    before: Seq<char>,
    quoted: Seq<char>,
    escaped: char,
    more: Seq<char>,
    after: Seq<char>,
    rest: Seq<char>,
)
    requires
        forall|i: int|
            0 <= i < before.len() ==> #[trigger] before[i] != '"' && before[i] != '{' && before[i]
                != '}',
        forall|i: int| 0 <= i < quoted.len() ==> #[trigger] quoted[i] != '"' && quoted[i] != '\\',
        forall|i: int| 0 <= i < more.len() ==> #[trigger] more[i] != '"' && more[i] != '\\',
        forall|i: int|
            0 <= i < after.len() ==> #[trigger] after[i] != '"' && after[i] != '{' && after[i]
                != '}',
    ensures
        balanced_prefix(
            seq!['{'] + before + seq!['"'] + quoted + seq!['\\', escaped] + more + seq!['"'] + after
                + seq!['}'] + rest,
        ) == Some(
            seq!['{'] + before + seq!['"'] + quoted + seq!['\\', escaped] + more + seq!['"'] + after
                + seq!['}'],
        ),
{
    let a = seq!['{'];
    let b = a + before;
    let c = b + seq!['"'];
    let d = c + quoted;
    let e = d + seq!['\\', escaped];
    let f = e + more;
    let g = f + seq!['"'];
    let h = g + after;
    let object = h + seq!['}'];
    let s = object + rest;
    assert(a.drop_last() =~= Seq::empty());
    assert(scan(a.drop_last()) == scan(Seq::empty()));
    assert(scan(a).depth == 1 && !scan(a).in_string && !scan(a).escaped);
    lemma_scan_plain(a, before);
    assert(c.drop_last() =~= b);
    assert(scan(c).in_string && !scan(c).escaped && scan(c).depth == 1);
    lemma_scan_quoted(c, quoted);
    assert(e.drop_last() =~= d + seq!['\\']);
    assert((d + seq!['\\']).drop_last() =~= d);
    assert(scan(d + seq!['\\']).escaped && scan(d + seq!['\\']).depth == 1);
    assert(scan(e) == scan(d));
    lemma_scan_quoted(e, more);
    assert(g.drop_last() =~= f);
    assert(!scan(g).in_string && scan(g).depth == 1);
    lemma_scan_plain(g, after);
    assert(object.drop_last() =~= h);
    let n = object.len() as int;
    assert(s.take(n) =~= object);
    assert forall|m: int| 0 < m < n implies scan(#[trigger] s.take(m)).depth > 0 by {
        let p = s.take(m);
        if m <= b.len() {
            lemma_scan_plain(a, before.take(m - 1));
            assert(p =~= a + before.take(m - 1));
        } else if m <= d.len() {
            lemma_scan_quoted(c, quoted.take(m - c.len()));
            assert(p =~= c + quoted.take(m - c.len()));
        } else if m < e.len() {
            assert(p =~= d + seq!['\\']);
        } else if m <= f.len() {
            lemma_scan_quoted(e, more.take(m - e.len()));
            assert(p =~= e + more.take(m - e.len()));
        } else {
            lemma_scan_plain(g, after.take(m - g.len()));
            assert(p =~= g + after.take(m - g.len()));
        }
    }
    assert(closes_at(s, n));
    lemma_balanced_prefix(s, n);
}

/// What a call comes to: only a reply with a status from 200 to 299 that was read and
/// holds a message gives its text, unchanged. Any other status is reported with the
/// first 500 characters of the body.
pub open spec fn means(exchange: Exchange, timeout_secs: u64, r: Result<String, LlmError>) -> bool {
    &&& r is Ok <==> (exchange matches Exchange::Replied { status, reply, .. } && 200 <= status
        <= 299 && (reply matches Ok(c) && c.message is Some && c.message->0.content is Some))
    &&& r matches Ok(content) ==> content@ == exchange->reply->Ok_0.message->0.content->0@
    &&& (r matches Err(LlmError::Timeout(_))) <==> exchange is TimedOut
    &&& r matches Err(LlmError::Timeout(secs)) ==> secs == timeout_secs
    &&& (r matches Err(LlmError::Unreachable(_))) <==> exchange is SendFailed
    &&& (r matches Err(LlmError::Http { .. })) <==> (exchange matches Exchange::Replied {
        status,
        ..
    } && !(200 <= status <= 299))
    &&& r matches Err(LlmError::Http { status, body }) ==> {
        &&& status == exchange->status
        &&& body@.len() == (if exchange->body@.len() < 500 {
            exchange->body@.len() as int
        } else {
            500
        })
        &&& body@ == exchange->body@.take(body@.len() as int)
    }
}

/// `label` is what is shown for `raw`: the name of the category with that slug, in
/// whatever case it was written, or the model's own words, and the rationale as it
/// was given.
pub open spec fn is_shown(
    label: RawLabel,
    raw: RawClassification,
    categories: Seq<Category>,
    lang: Seq<char>,
) -> bool {
    let slug = text::lowercase_of(text::trimmed(raw.category@));
    &&& label.rationale == raw.rationale
    &&& forall|i: int|
        0 <= i < categories.len() && (#[trigger] categories[i]).slug@ == slug ==> label.label@
            == taxonomy::display_text(categories[i].slug@, categories[i].names@, lang)
    &&& (forall|i: int| 0 <= i < categories.len() ==> (#[trigger] categories[i]).slug@ != slug)
        ==> label.label@ == raw.category@
}

/// The name that an entry of a listing gives; empty where it gives none.
pub open spec fn given_name(tag: JsonTree) -> Seq<char> {
    if has_text(tag, "name"@) {
        tag->Object_0["name"@]->Text_0
    } else {
        Seq::empty()
    }
}

/// An entry of a listing gives a size that is a whole number.
pub open spec fn gives_size(tag: JsonTree) -> bool {
    tag is Object && tag->Object_0.contains_key("size"@) && tag->Object_0["size"@] is Unsigned
}

/// Two names are the same up to the first colon of each.
pub open spec fn same_base(a: Seq<char>, b: Seq<char>) -> bool {
    exists|front: Seq<char>| #[trigger] is_base(front, a) && is_base(front, b)
}

/// `front` has no colon, and is all of the name or stands before a colon in it.
pub open spec fn is_base(front: Seq<char>, name: Seq<char>) -> bool {
    &&& forall|i: int| 0 <= i < front.len() ==> #[trigger] front[i] != ':'
    &&& front.len() <= name.len()
    &&& front == name.take(front.len() as int)
    &&& front.len() < name.len() ==> name[front.len() as int] == ':'
}

proof fn lemma_base_name(name: Seq<char>)
    ensures
        is_base(base_name(name), name),
        forall|front: Seq<char>| #[trigger] is_base(front, name) ==> front == base_name(name),
    decreases name.len(),
{
    let base = base_name(name);
    if name.len() > 0 && name[0] != ':' {
        let rest = name.drop_first();
        lemma_base_name(rest);
        let inner = base_name(rest);
        assert(base =~= seq![name[0]] + inner);
        assert(base =~= name.take(base.len() as int)) by {
            assert forall|i: int| 0 <= i < base.len() implies base[i] == name[i] by {
                if i > 0 {
                    assert(base[i] == inner[i - 1]);
                    assert(inner[i - 1] == rest.take(inner.len() as int)[i - 1]);
                }
            }
        }
        assert forall|i: int| 0 <= i < base.len() implies #[trigger] base[i] != ':' by {
            if i > 0 {
                assert(base[i] == inner[i - 1]);
            }
        }
        assert forall|front: Seq<char>| #[trigger] is_base(front, name) implies front == base by {
            assert(front.len() > 0);
            lemma_base_rest(front, name);
            assert(front.drop_first() == inner);
            assert(front[0] == name.take(front.len() as int)[0]);
            assert(front =~= seq![front[0]] + front.drop_first());
        }
    } else {
        assert(base =~= name.take(0));
        assert forall|front: Seq<char>| #[trigger] is_base(front, name) implies front == base by {
            if front.len() > 0 {
                assert(front[0] == name.take(front.len() as int)[0]);
            }
            assert(front =~= base);
        }
    }
}

proof fn lemma_base_rest(front: Seq<char>, name: Seq<char>)
    requires
        is_base(front, name),
        front.len() > 0,
    ensures
        is_base(front.drop_first(), name.drop_first()),
{
    let less = front.drop_first();
    let rest = name.drop_first();
    assert forall|i: int| 0 <= i < less.len() implies #[trigger] less[i] != ':' by {
        assert(less[i] == front[i + 1]);
    }
    assert(less =~= rest.take(less.len() as int)) by {
        assert forall|i: int| 0 <= i < less.len() implies less[i] == rest[i] by {
            assert(less[i] == front[i + 1]);
            assert(front[i + 1] == name.take(front.len() as int)[i + 1]);
        }
    }
}

proof fn lemma_exact_tag(tags: Seq<JsonTree>, model: Seq<char>, i: int, k: int)
    requires
        0 <= i <= k <= tags.len(),
        forall|j: int| i <= j < k ==> given_name(#[trigger] tags[j]) != model,
    ensures
        k < tags.len() && given_name(tags[k]) == model ==> exact_tag(tags, model, i) == Some(k),
        k == tags.len() ==> exact_tag(tags, model, i) is None,
    decreases k - i,
{
    if i < k {
        assert(given_name(tags[i]) != model);
        lemma_exact_tag(tags, model, i + 1, k);
    }
}

proof fn lemma_base_size(tags: Seq<JsonTree>, base: Seq<char>, i: int, k: int)
    requires
        0 <= i <= k <= tags.len(),
        forall|j: int|
            i <= j < k ==> !(gives_size(#[trigger] tags[j]) && base_name(given_name(tags[j]))
                == base),
    ensures
        k < tags.len() && gives_size(tags[k]) && base_name(given_name(tags[k])) == base
            ==> base_size(tags, base, i) == Some(tags[k]->Object_0["size"@]->Unsigned_0),
        k == tags.len() ==> base_size(tags, base, i) is None,
    decreases k - i,
{
    if i < k {
        assert(!(gives_size(tags[i]) && base_name(given_name(tags[i])) == base));
        lemma_base_size(tags, base, i + 1, k);
    }
}

/// A model that is listed by its own name, at whatever place, has the size that is
/// given there, and none where none is given.
pub proof fn law_exact_tags_count_first(
    members: Map<Seq<char>, JsonTree>,
    tags: Seq<JsonTree>,
    model: Seq<char>,
    k: int,
)
    requires
        members.contains_key("models"@),
        members["models"@] == JsonTree::Array(tags),
        0 <= k < tags.len(),
        given_name(tags[k]) == model,
        forall|j: int| 0 <= j < k ==> given_name(#[trigger] tags[j]) != model,
    ensures
        listed_size(JsonTree::Object(members), model) == (if gives_size(tags[k]) {
            Some(tags[k]->Object_0["size"@]->Unsigned_0)
        } else {
            None
        }),
{
    lemma_exact_tag(tags, model, 0, k);
}

/// A model that is not listed by its own name has the first size that is given for a
/// model with the same name up to the colon, at whatever place, and none where there
/// is no such model.
pub proof fn law_base_names_count_next(
    members: Map<Seq<char>, JsonTree>,
    tags: Seq<JsonTree>,
    model: Seq<char>,
    k: int,
)
    requires
        members.contains_key("models"@),
        members["models"@] == JsonTree::Array(tags),
        0 <= k <= tags.len(),
        forall|j: int| 0 <= j < tags.len() ==> given_name(#[trigger] tags[j]) != model,
        forall|j: int|
            0 <= j < k ==> !(gives_size(#[trigger] tags[j]) && same_base(
                given_name(tags[j]),
                model,
            )),
    ensures
        k < tags.len() && gives_size(tags[k]) && same_base(given_name(tags[k]), model)
            ==> listed_size(JsonTree::Object(members), model) == Some(
            tags[k]->Object_0["size"@]->Unsigned_0,
        ),
        k == tags.len() ==> listed_size(JsonTree::Object(members), model) is None,
{
    lemma_exact_tag(tags, model, 0, tags.len() as int);
    lemma_base_name(model);
    assert forall|j: int| 0 <= j < k implies !(gives_size(#[trigger] tags[j]) && base_name(
        given_name(tags[j]),
    ) == base_name(model)) by {
        lemma_base_name(given_name(tags[j]));
        if base_name(given_name(tags[j])) == base_name(model) {
            assert(is_base(base_name(model), given_name(tags[j])));
        }
    }
    if k < tags.len() {
        lemma_base_name(given_name(tags[k]));
    }
    lemma_base_size(tags, base_name(model), 0, k);
}

/// Text is read character by character. Inside a string only an unescaped quote or
/// backslash counts; outside, a quote opens a string and braces open and close.
pub proof fn law_reading_goes_on(s: Seq<char>, c: char)
    ensures
        ({
            let at = scan(s);
            let to = scan(s.push(c));
            &&& at.in_string ==> to.depth == at.depth
            &&& at.in_string ==> (to.in_string <==> at.escaped || c != '"')
            &&& at.in_string ==> (to.escaped <==> !at.escaped && c == '\\')
            &&& !at.in_string ==> (to.in_string <==> c == '"')
            &&& !at.in_string ==> to.escaped == at.escaped
            &&& !at.in_string ==> to.depth == at.depth + (if c == '{' {
                1int
            } else if c == '}' {
                -1int
            } else {
                0int
            })
        }),
        scan(Seq::empty()).depth == 0 && !scan(Seq::empty()).in_string && !scan(
            Seq::empty(),
        ).escaped,
{
    assert(s.push(c).drop_last() =~= s);
}

/// What is taken as an object is the shortest beginning that opens with a brace and
/// leaves none open; nothing is taken exactly where there is no such beginning.
pub proof fn law_shortest_object_is_taken(s: Seq<char>, n: int)
    ensures
        0 < n <= s.len() && s[0] == '{' && scan(s.take(n)).depth == 0 && (forall|m: int|
            0 < m < n ==> scan(#[trigger] s.take(m)).depth > 0) ==> balanced_prefix(s) == Some(
            s.take(n),
        ),
        balanced_prefix(s) matches Some(t) ==> t.len() > 0 && t.len() <= s.len() && t == s.take(
            t.len() as int,
        ) && t[0] == '{' && scan(t).depth == 0 && forall|m: int|
            0 < m < t.len() ==> scan(#[trigger] s.take(m)).depth > 0,
{
    if closes_at(s, n) {
        lemma_balanced_prefix(s, n);
    }
    if exists|k: int| closes_at(s, k) {
        let k = choose|k: int| closes_at(s, k);
        lemma_balanced_prefix(s, k);
        assert(s.take(k).len() == k);
    }
}

/// A listing without a list of models gives no size.
pub proof fn law_no_list_gives_no_size(listing: JsonTree, model: Seq<char>)
    requires
        !(listing is Object && listing->Object_0.contains_key("models"@)
            && listing->Object_0["models"@] is Array),
    ensures
        listed_size(listing, model) is None,
{
}

} // verus!
