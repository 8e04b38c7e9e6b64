//! What each endpoint accepts, refuses and answers.
use vstd::prelude::*;
use vstd::string::*;

use crate::library;
use crate::library::LabelLibrary;
use crate::llm::LlmError;
use crate::model;
use crate::model::{
    ApiError, BatchLabelResponse, BatchResponse, HealthResponse, LabelBatchRequest,
    LabelListResponse, LabelOptions, LabelSingleRequest, LabeledTransaction, SingleLabelResponse,
    Transaction,
};
use crate::pipeline::{LabelFailure, LabelService, RETRY_AFTER_SECS};
use crate::text;
use crate::text::{debug_text, decimal_text, exceeds_bytes, is_two_letters, same_text};

verus! {

/// What the endpoints share.
pub struct ApiState {
    pub service: LabelService,
    pub max_batch: usize,
    pub max_field_len: usize,
}

/// A response header.
#[derive(Debug)]
pub struct Header {
    pub name: String,
    pub value: String,
}

/// An error reply: the status, the body, and at most one header.
#[derive(Debug)]
pub struct ErrorReply {
    pub status: u16,
    pub body: ApiError,
    pub header: Option<Header>,
}

/// A request that was accepted: what is to be labelled, and in which language.
#[derive(Debug)]
pub struct LabelJob {
    pub transactions: Vec<Transaction>,
    pub language: String,
}

/// What is wrong with a language code, if anything.
pub open spec fn language_fault(raw: Seq<char>) -> Option<Seq<char>> {
    if text::is_language_code(text::trimmed(raw)) {
        None
    } else {
        Some("language must be a 2-letter ISO 639-1 code, got: "@ + text::debug_of(raw))
    }
}

/// `r` succeeds where there is no fault, and is the invalid request with that
/// fault otherwise.
pub open spec fn refuses<T>(r: Result<T, ApiError>, fault: Option<Seq<char>>) -> bool {
    match r {
        Ok(_) => fault is None,
        Err(e) => fault is Some && e.says("invalid_request"@, fault->0),
    }
}

/// Shared language-code check: trims, then requires a 2-letter ASCII code.
/// Returns the normalized (trimmed) code; the caller lowercases when needed.
pub fn valid_language_code(raw: &str) -> (r: Result<&str, ApiError>)
    ensures
        refuses(r, language_fault(raw@)),
        r matches Ok(l) ==> l@ == text::trimmed(raw@),
        r is Ok <==> text::trimmed(raw@).len() == 2 && forall|i: int|
            0 <= i < 2 ==> 'a' <= #[trigger] text::trimmed(raw@)[i] <= 'z' || 'A' <= text::trimmed(
                raw@,
            )[i] <= 'Z',
        r matches Err(e) ==> e.error.code@ == "invalid_request"@,
{
    let l = raw.trim();
    if !is_two_letters(l) {
        let mut m = "language must be a 2-letter ISO 639-1 code, got: ".to_owned();
        m.append(debug_text(raw).as_str());
        return Err(ApiError::invalid_request(m));
    }
    Ok(l)
}

/// What is wrong with the language of a request, if anything.
pub open spec fn options_fault(language: Option<Seq<char>>) -> Option<Seq<char>> {
    match language {
        Some(l) => language_fault(l),
        None => None,
    }
}

/// Request-level validation shared by single + batch endpoints.
pub fn validate_language(opts: &LabelOptions) -> (r: Result<(), ApiError>)
    ensures
        refuses(r, options_fault(text::opt_text(opts.language))),
        r is Ok <==> (opts.language matches Some(l) ==> text::is_language_code(text::trimmed(l@))),
        r matches Err(e) ==> e.error.code@ == "invalid_request"@,
{
    if let Some(lang) = &opts.language {
        match valid_language_code(lang.as_str()) {
            Ok(_) => {},
            Err(e) => {
                return Err(e);
            },
        }
    }
    Ok(())
}

/// The message about a field that is too long.
pub open spec fn too_long(i: int, id: Seq<char>, field: Seq<char>, max: nat) -> Seq<char> {
    "transaction "@ + text::decimal(i as nat) + " (id "@ + text::debug_of(id) + "): field `"@
        + field + "` exceeds "@ + text::decimal(max) + " bytes"@
}

/// The most bytes that a currency code may take.
pub const MAX_CURRENCY_LEN: usize = 8;

/// What is wrong with the fields of transaction `i`, if anything.
pub open spec fn field_fault(tx: Transaction, i: int, max_len: nat) -> Option<Seq<char>> {
    if text::byte_len(tx.id@) > max_len {
        Some(too_long(i, tx.id@, "id"@, max_len))
    } else if text::byte_len(tx.counterparty@) > max_len {
        Some(too_long(i, tx.id@, "counterparty"@, max_len))
    } else if text::byte_len(tx.purpose@) > max_len {
        Some(too_long(i, tx.id@, "purpose"@, max_len))
    } else if text::byte_len(tx.date@) > max_len {
        Some(too_long(i, tx.id@, "date"@, max_len))
    } else if text::byte_len(tx.currency@) > MAX_CURRENCY_LEN {
        Some(too_long(i, tx.id@, "currency"@, MAX_CURRENCY_LEN as nat))
    } else {
        None
    }
}

/// What is wrong with the fields of the first faulty transaction from `i` on,
/// if there is one.
pub open spec fn fields_fault(txs: Seq<Transaction>, i: int, max_len: nat) -> Option<Seq<char>>
    decreases txs.len() - i,
{
    if i >= txs.len() {
        None
    } else if field_fault(txs[i], i, max_len) is Some {
        field_fault(txs[i], i, max_len)
    } else {
        fields_fault(txs, i + 1, max_len)
    }
}

fn check_field(i: usize, id: &str, field: &str, value: &str, max_len: usize) -> (r: Result<
    (),
    ApiError,
>)
    ensures
        refuses(
            r,
            if text::byte_len(value@) > max_len {
                Some(too_long(i as int, id@, field@, max_len as nat))
            } else {
                None
            },
        ),
{
    if !exceeds_bytes(value, max_len) {
        return Ok(());
    }
    let mut m = "transaction ".to_owned();
    m.append(decimal_text(i as u64).as_str());
    m.append(" (id ");
    m.append(debug_text(id).as_str());
    m.append("): field `");
    m.append(field);
    m.append("` exceeds ");
    m.append(decimal_text(max_len as u64).as_str());
    m.append(" bytes");
    Err(ApiError::invalid_request(m))
}

/// Caps string field lengths so a single transaction cannot blow the prompt
/// context.
pub fn validate_field_lengths(txs: &[Transaction], max_len: usize) -> (r: Result<(), ApiError>)
    ensures
        refuses(r, fields_fault(txs@, 0, max_len as nat)),
        r is Ok <==> forall|k: int|
            0 <= k < txs@.len() ==> fields_fit(#[trigger] txs@[k], max_len as nat),
        r matches Err(e) ==> e.error.code@ == "invalid_request"@,
{
    proof {
        lemma_fields_fault(txs@, 0, max_len as nat);
    }
    for i in 0..txs.len()
        invariant
            fields_fault(txs@, 0, max_len as nat) is None <==> forall|k: int|
                0 <= k < txs@.len() ==> fields_fit(#[trigger] txs@[k], max_len as nat),
            fields_fault(txs@, 0, max_len as nat) == fields_fault(txs@, i as int, max_len as nat),
    {
        let tx = &txs[i];
        let id = tx.id.as_str();
        check_field(i, id, "id", id, max_len)?;
        check_field(i, id, "counterparty", tx.counterparty.as_str(), max_len)?;
        check_field(i, id, "purpose", tx.purpose.as_str(), max_len)?;
        check_field(i, id, "date", tx.date.as_str(), max_len)?;
        check_field(i, id, "currency", tx.currency.as_str(), MAX_CURRENCY_LEN)?;
    }
    Ok(())
}

/// Some transaction before `i` has the id of transaction `i`.
pub open spec fn repeats_id(txs: Seq<Transaction>, i: int) -> bool {
    exists|j: int| 0 <= j < i && (#[trigger] txs[j]).id@ == txs[i].id@
}

/// The message about the first transaction from `i` on that repeats an id, if
/// there is one.
pub open spec fn ids_fault(txs: Seq<Transaction>, i: int) -> Option<Seq<char>>
    decreases txs.len() - i,
{
    if i >= txs.len() {
        None
    } else if repeats_id(txs, i) {
        Some(
            "duplicate transaction id "@ + text::debug_of(txs[i].id@) + " (index "@ + text::decimal(
                i as nat,
            ) + "); ids must be unique"@,
        )
    } else {
        ids_fault(txs, i + 1)
    }
}

/// Whether a transaction before `i` has the id of transaction `i`.
fn is_repeated(txs: &[Transaction], i: usize) -> (r: bool)
    requires
        i < txs@.len(),
    ensures
        r == repeats_id(txs@, i as int),
{
    for j in 0..i
        invariant
            i < txs@.len(),
            forall|k: int| 0 <= k < j ==> (#[trigger] txs@[k]).id@ != txs@[i as int].id@,
    {
        if same_text(txs[j].id.as_str(), txs[i].id.as_str()) {
            assert(txs@[j as int].id@ == txs@[i as int].id@);
            return true;
        }
    }
    false
}

/// Ids must be unique within a request.
pub fn validate_ids(txs: &[Transaction]) -> (r: Result<(), ApiError>)
    ensures
        refuses(r, ids_fault(txs@, 0)),
        r is Ok <==> distinct_ids(txs@),
        r matches Err(e) ==> e.error.code@ == "invalid_request"@,
{
    proof {
        lemma_distinct_ids(txs@);
    }
    for i in 0..txs.len()
        invariant
            ids_fault(txs@, 0) is None <==> distinct_ids(txs@),
            ids_fault(txs@, 0) == ids_fault(txs@, i as int),
    {
        if is_repeated(txs, i) {
            let mut m = "duplicate transaction id ".to_owned();
            m.append(debug_text(txs[i].id.as_str()).as_str());
            m.append(" (index ");
            m.append(decimal_text(i as u64).as_str());
            m.append("); ids must be unique");
            return Err(ApiError::invalid_request(m));
        }
    }
    Ok(())
}

/// An error reply, with a header where one is given.
pub fn api_err(err: ApiError, status: u16, header: Option<(&str, &str)>) -> (r: ErrorReply)
    ensures
        r.status == status,
        r.body == err,
        match header {
            Some((name, value)) => r.header matches Some(h) && h.name@ == name@ && h.value@
                == value@,
            None => r.header is None,
        },
{
    ErrorReply {
        status,
        body: err,
        header: match header {
            Some((name, value)) => Some(
                Header { name: name.to_owned(), value: value.to_owned() },
            ),
            None => None,
        },
    }
}

/// What is wrong with the transactions and options of a request, if anything.
pub open spec fn request_fault(
    txs: Seq<Transaction>,
    language: Option<Seq<char>>,
    max_field_len: nat,
) -> Option<Seq<char>> {
    if options_fault(language) is Some {
        options_fault(language)
    } else if ids_fault(txs, 0) is Some {
        ids_fault(txs, 0)
    } else {
        fields_fault(txs, 0, max_field_len)
    }
}

/// The status and the message that a batch is refused with, if it is.
pub open spec fn batch_fault(
    txs: Seq<Transaction>,
    language: Option<Seq<char>>,
    max_batch: nat,
    max_field_len: nat,
) -> Option<(u16, Seq<char>)> {
    if txs.len() == 0 {
        Some((400u16, "transactions must not be empty"@))
    } else if txs.len() > max_batch {
        Some(
            (
                413u16,
                "batch too large: "@ + text::decimal(txs.len()) + " transactions (max "@
                    + text::decimal(max_batch) + "); chunk client-side"@,
            ),
        )
    } else {
        match request_fault(txs, language, max_field_len) {
            Some(m) => Some((400u16, m)),
            None => None,
        }
    }
}

/// `reply` is an error with that status, code and message and without a header.
pub open spec fn is_error(
    reply: ErrorReply,
    status: u16,
    code: Seq<char>,
    message: Seq<char>,
) -> bool {
    reply.status == status && reply.body.says(code, message) && reply.header is None
}

/// The checks that single and batch requests share.
fn accept(transactions: Vec<Transaction>, options: &LabelOptions, state: &ApiState) -> (r: Result<
    LabelJob,
    ErrorReply,
>)
    ensures
        match request_fault(
            transactions@,
            text::opt_text(options.language),
            state.max_field_len as nat,
        ) {
            Some(m) => r matches Err(reply) && is_error(reply, 400, "invalid_request"@, m),
            None => r matches Ok(job) && job.transactions@ == transactions@ && job.language@
                == model::requested_language(
                text::opt_text(options.language),
                state.service.default_language@,
            ) && (options.language is Some ==> job.language@ == text::ascii_lowercase(
                text::trimmed(options.language->0@),
            )),
        },
{
    if let Err(e) = validate_language(options) {
        return Err(api_err(e, 400, None));
    }
    if let Err(e) = validate_ids(transactions.as_slice()) {
        return Err(api_err(e, 400, None));
    }
    if let Err(e) = validate_field_lengths(transactions.as_slice(), state.max_field_len) {
        return Err(api_err(e, 400, None));
    }
    let language = options.effective_language(state.service.default_language.as_str());
    Ok(LabelJob { transactions, language })
}

/// POST /v1/label — single transaction: what is to be labelled, or why the
/// request is refused.
pub fn label_single(state: &ApiState, body: LabelSingleRequest) -> (r: Result<
    LabelJob,
    ErrorReply,
>)
    ensures
        match request_fault(
            seq![body.transaction],
            text::opt_text(body.options.language),
            state.max_field_len as nat,
        ) {
            Some(m) => r matches Err(reply) && is_error(reply, 400, "invalid_request"@, m),
            None => r matches Ok(job) && job.transactions@ == seq![body.transaction]
                && job.language@ == model::requested_language(
                text::opt_text(body.options.language),
                state.service.default_language@,
            ) && (body.options.language is Some ==> job.language@ == text::ascii_lowercase(
                text::trimmed(body.options.language->0@),
            )),
        },
        r is Ok <==> {
            &&& body.options.language matches Some(l) ==> text::is_language_code(text::trimmed(l@))
            &&& fields_fit(body.transaction, state.max_field_len as nat)
        },
        r matches Ok(job) ==> (body.options.language is None ==> job.language@
            == state.service.default_language@),
        r matches Err(reply) ==> reply.status == 400 && reply.body.error.code@
            == "invalid_request"@,
{
    proof {
        law_accepted_batches(
            seq![body.transaction],
            text::opt_text(body.options.language),
            1,
            state.max_field_len as nat,
        );
        assert(seq![body.transaction][0] == body.transaction);
    }
    let mut transactions: Vec<Transaction> = Vec::new();
    transactions.push(body.transaction);
    assert(transactions@ =~= seq![body.transaction]);
    accept(transactions, &body.options, state)
}

/// POST /v1/label:batch — up to `max_batch` transactions: what is to be
/// labelled, or why the request is refused.
pub fn label_batch(state: &ApiState, body: LabelBatchRequest) -> (r: Result<LabelJob, ErrorReply>)
    ensures
        match batch_fault(
            body.transactions@,
            text::opt_text(body.options.language),
            state.max_batch as nat,
            state.max_field_len as nat,
        ) {
            Some((status, m)) => r matches Err(reply) && is_error(
                reply,
                status,
                "invalid_request"@,
                m,
            ),
            None => r matches Ok(job) && job.transactions@ == body.transactions@ && job.language@
                == model::requested_language(
                text::opt_text(body.options.language),
                state.service.default_language@,
            ) && (body.options.language is Some ==> job.language@ == text::ascii_lowercase(
                text::trimmed(body.options.language->0@),
            )),
        },
        r is Ok <==> {
            &&& 1 <= body.transactions@.len() <= state.max_batch
            &&& body.options.language matches Some(l) ==> text::is_language_code(text::trimmed(l@))
            &&& distinct_ids(body.transactions@)
            &&& forall|k: int|
                0 <= k < body.transactions@.len() ==> fields_fit(
                    #[trigger] body.transactions@[k],
                    state.max_field_len as nat,
                )
        },
        r matches Ok(job) ==> (body.options.language is None ==> job.language@
            == state.service.default_language@),
        r matches Err(reply) ==> reply.body.error.code@ == "invalid_request"@ && reply.status == (
        if body.transactions@.len() > 0 && body.transactions@.len() > state.max_batch {
            413int
        } else {
            400
        }),
{
    proof {
        law_accepted_batches(
            body.transactions@,
            text::opt_text(body.options.language),
            state.max_batch as nat,
            state.max_field_len as nat,
        );
    }
    let n = body.transactions.len();
    if n == 0 {
        return Err(
            api_err(
                ApiError::invalid_request("transactions must not be empty".to_owned()),
                400,
                None,
            ),
        );
    }
    if n > state.max_batch {
        let mut m = "batch too large: ".to_owned();
        m.append(decimal_text(n as u64).as_str());
        m.append(" transactions (max ");
        m.append(decimal_text(state.max_batch as u64).as_str());
        m.append("); chunk client-side");
        return Err(api_err(ApiError::invalid_request(m), 413, None));
    }
    accept(body.transactions, &body.options, state)
}

/// `reply` is the reply to a request that failed as a whole.
pub open spec fn is_failure_reply(reply: ErrorReply, failure: LabelFailure) -> bool {
    &&& reply.status == 503
    &&& failure matches LabelFailure::Backend(e) && reply.body.says(
        "backend_unavailable"@,
        "LLM backend failed: "@ + e.shown(),
    )
    &&& reply.header matches Some(h) && h.name@ == "Retry-After"@ && h.value@ == text::decimal(
        RETRY_AFTER_SECS as nat,
    )
}

/// The reply to a request that failed as a whole: 503 and a time to wait.
pub fn failure_to_response(failure: LabelFailure) -> (r: ErrorReply)
    ensures
        is_failure_reply(r, failure),
        r.status == 503,
        r.body.error.code@ == "backend_unavailable"@,
        r.header matches Some(h) && h.name@ == "Retry-After"@ && h.value@ == "5"@,
{
    proof {
        reveal_strlit("5");
        assert(text::decimal(5) =~= "5"@);
    }
    match failure {
        LabelFailure::Backend(e) => {
            let mut m = "LLM backend failed: ".to_owned();
            m.append(e.message().as_str());
            let secs = decimal_text(RETRY_AFTER_SECS);
            api_err(
                ApiError::backend_unavailable(m),
                503,
                Some(("Retry-After", secs.as_str())),
            )
        },
    }
}

/// The answer to `POST /v1/label`: the one result, without what it rests on.
pub fn single_answer(outcome: Result<BatchResponse, LabelFailure>) -> (r: Result<
    SingleLabelResponse,
    ErrorReply,
>)
    ensures
        match outcome {
            Ok(batch) => if batch.results@.len() > 0 {
                r matches Ok(answer) && answer.id@ == batch.results@[0].id@ && answer.label@
                    == batch.results@[0].label@
            } else {
                r matches Err(reply) && is_error(reply, 500, "internal"@, "no label produced"@)
            },
            Err(failure) => r matches Err(reply) && is_failure_reply(reply, failure),
        },
{
    match outcome {
        Ok(batch) => {
            if batch.results.len() == 0 {
                return Err(
                    api_err(ApiError::new("internal", "no label produced".to_owned()), 500, None),
                );
            }
            let first = &batch.results[0];
            Ok(SingleLabelResponse { id: first.id.clone(), label: first.label.clone() })
        },
        Err(failure) => Err(failure_to_response(failure)),
    }
}

/// The answer to `POST /v1/label:batch`: one id and label for each result, in
/// order, and nothing of what they rest on.
pub fn batch_answer(outcome: Result<BatchResponse, LabelFailure>) -> (r: Result<
    BatchLabelResponse,
    ErrorReply,
>)
    ensures
        match outcome {
            Ok(batch) => r matches Ok(answer) && answer.results@.len() == batch.results@.len()
                && forall|i: int|
                0 <= i < answer.results@.len() ==> (#[trigger] answer.results@[i]).id@
                    == batch.results@[i].id@ && answer.results@[i].label@
                    == batch.results@[i].label@,
            Err(failure) => r matches Err(reply) && is_failure_reply(reply, failure),
        },
{
    match outcome {
        Ok(batch) => {
            let mut results: Vec<LabeledTransaction> = Vec::new();
            for i in 0..batch.results.len()
                invariant
                    results@.len() == i,
                    forall|j: int|
                        0 <= j < i ==> (#[trigger] results@[j]).id@ == batch.results@[j].id@
                            && results@[j].label@ == batch.results@[j].label@,
            {
                let r = &batch.results[i];
                results.push(LabeledTransaction { id: r.id.clone(), label: r.label.clone() });
            }
            Ok(BatchLabelResponse { results })
        },
        Err(failure) => Err(failure_to_response(failure)),
    }
}

/// The query of `GET /v1/labels`.
#[derive(Debug)]
pub struct LabelListQuery {
    pub language: Option<String>,
}

/// The language that a query asks for: its code in lower case, or the server
/// default where it names none.
pub fn query_language(state: &ApiState, query: &LabelListQuery) -> (r: Result<String, ApiError>)
    ensures
        refuses(r, options_fault(text::opt_text(query.language))),
        r matches Ok(l) ==> l@ == asked_language(
            text::opt_text(query.language),
            state.service.default_language@,
        ),
        r is Ok <==> (query.language matches Some(l) ==> text::is_language_code(
            text::trimmed(l@),
        )),
        r matches Ok(l) ==> l@ == (if query.language is Some {
            text::ascii_lowercase(text::trimmed(query.language->0@))
        } else {
            state.service.default_language@
        }),
{
    match &query.language {
        Some(l) => match valid_language_code(l.as_str()) {
            Ok(code) => Ok(code.to_lowercase()),
            Err(e) => Err(e),
        },
        None => Ok(state.service.default_language.clone()),
    }
}

/// The language that a valid query asks for.
pub open spec fn asked_language(
    language: Option<Seq<char>>,
    server_default: Seq<char>,
) -> Seq<char> {
    match language {
        Some(l) => text::ascii_lowercase(text::trimmed(l)),
        None => server_default,
    }
}

/// GET /v1/labels — the label library: labels already known for a language.
/// These are the labels the model is instructed to reuse verbatim.
pub fn list_labels(state: &ApiState, query: &LabelListQuery, library: Option<&LabelLibrary>) -> (r:
    Result<LabelListResponse, ErrorReply>)
    requires
        library matches Some(l) ==> l.wf(),
    ensures
        match options_fault(text::opt_text(query.language)) {
            Some(m) => r matches Err(reply) && is_error(reply, 400, "invalid_request"@, m),
            None => r matches Ok(answer) && answer.labels@.map_values(|l: String| l@) == (
            match library {
                Some(library) => library.known(
                    asked_language(
                        text::opt_text(query.language),
                        state.service.default_language@,
                    ),
                ),
                None => Seq::empty(),
            }),
        },
        r is Ok <==> (query.language matches Some(l) ==> text::is_language_code(
            text::trimmed(l@),
        )),
        r matches Ok(answer) ==> match library {
            Some(l) => library::are_most_used(
                library::counts_of(
                    l@,
                    if query.language is Some {
                        text::ascii_lowercase(text::trimmed(query.language->0@))
                    } else {
                        state.service.default_language@
                    },
                ),
                l.limit() as nat,
                answer.labels@.map_values(|l: String| l@),
            ),
            None => answer.labels@.len() == 0,
        },
        r matches Err(reply) ==> reply.status == 400 && reply.body.error.code@
            == "invalid_request"@,
{
    let lang = match query_language(state, query) {
        Ok(lang) => lang,
        Err(e) => {
            return Err(api_err(e, 400, None));
        },
    };
    let labels = match library {
        Some(library) => library.labels_for(lang.as_str()),
        None => Vec::new(),
    };
    assert(library is None ==> labels@.map_values(|l: String| l@) =~= Seq::empty());
    Ok(LabelListResponse { labels })
}

/// GET /v1/health — liveness + backend reachability: the status and the body.
pub fn health(backend: Result<(), LlmError>) -> (r: (u16, HealthResponse))
    ensures
        match backend {
            Ok(_) => r.0 == 200 && r.1.status@ == "ok"@ && r.1.backend@ == "reachable"@,
            Err(e) => r.0 == 503 && r.1.status@ == "degraded"@ && r.1.backend@ == e.shown(),
        },
{
    match backend {
        Ok(_) => (
            200,
            HealthResponse { status: "ok".to_owned(), backend: "reachable".to_owned() },
        ),
        Err(e) => (503, HealthResponse { status: "degraded".to_owned(), backend: e.message() }),
    }
}

/// What is worth telling the operator after a VRAM check that lets the service
/// start.
#[derive(Debug)]
pub enum VramNote {
    /// The model of that size fits.
    Passed(u64),
    /// It does not fit, and only a warning is due.
    Exceeded(String),
    /// The model server lists no size.
    Unknown,
    /// There was no listing.
    Skipped(String),
}

/// The message about a model that is too large.
pub open spec fn vram_message(size_mb: nat, budget_mb: nat, limit: nat) -> Seq<char> {
    "model size "@ + text::decimal(size_mb) + " MB exceeds 80% of VRAM budget "@ + text::decimal(
        budget_mb,
    ) + " MB ("@ + text::decimal(limit) + " MB allowed)"@
}

/// `r` is the outcome of the check of a model of that size in bytes.
pub open spec fn is_vram_outcome(
    r: Result<VramNote, String>,
    size: Result<Option<u64>, LlmError>,
    budget_mb: u64,
    limit: u64,
    strict: bool,
) -> bool {
    match size {
        Ok(Some(bytes)) => {
            let size_mb = bytes / 0x10_0000;
            if size_mb <= limit {
                r == Ok::<VramNote, String>(VramNote::Passed(size_mb))
            } else if strict {
                r matches Err(m) && m@ == vram_message(
                    size_mb as nat,
                    budget_mb as nat,
                    limit as nat,
                )
            } else {
                r matches Ok(VramNote::Exceeded(m)) && m@ == vram_message(
                    size_mb as nat,
                    budget_mb as nat,
                    limit as nat,
                )
            }
        },
        Ok(None) => r matches Ok(VramNote::Unknown),
        Err(e) => r matches Ok(VramNote::Skipped(m)) && m@ == e.shown(),
    }
}

/// VRAM advisory check: warn (or fail in strict mode) if model weights exceed
/// `limit` MB, which is 80% of the budget.
pub fn vram_check_service(
    size: Result<Option<u64>, LlmError>,
    budget_mb: u64,
    limit: u64,
    strict: bool,
) -> (r: Result<VramNote, String>)
    ensures
        is_vram_outcome(r, size, budget_mb, limit, strict),
        r is Err <==> strict && (size matches Ok(Some(bytes)) && bytes >= (limit + 1) * 0x10_0000),
        (r matches Ok(VramNote::Passed(_))) <==> (size matches Ok(Some(bytes)) && bytes < (limit
            + 1) * 0x10_0000),
        (r matches Ok(VramNote::Exceeded(_))) <==> !strict && (size matches Ok(Some(bytes)) && bytes
            >= (limit + 1) * 0x10_0000),
        (size matches Ok(None)) ==> (r matches Ok(VramNote::Unknown)),
        size is Err ==> (r matches Ok(VramNote::Skipped(m)) && m@ == size->Err_0.shown()),
        r matches Err(m) ==> m@ == "model size "@ + text::decimal(
            (size->Ok_0->0 / 0x10_0000) as nat,
        ) + " MB exceeds 80% of VRAM budget "@ + text::decimal(budget_mb as nat) + " MB ("@
            + text::decimal(limit as nat) + " MB allowed)"@,
        r matches Ok(VramNote::Exceeded(m)) ==> m@ == "model size "@ + text::decimal(
            (size->Ok_0->0 / 0x10_0000) as nat,
        ) + " MB exceeds 80% of VRAM budget "@ + text::decimal(budget_mb as nat) + " MB ("@
            + text::decimal(limit as nat) + " MB allowed)"@,
        r matches Ok(VramNote::Passed(mb)) ==> mb * 0x10_0000 <= size->Ok_0->0 < (mb + 1)
            * 0x10_0000,
{
    match size {
        Ok(Some(bytes)) => {
            let size_mb: u64 = bytes / (1024 * 1024);
            assert(size_mb == bytes / 0x10_0000);
            assert(size_mb * 0x10_0000 <= bytes < (size_mb + 1) * 0x10_0000);
            assert(size_mb <= limit <==> bytes < (limit + 1) * 0x10_0000);
            if size_mb <= limit {
                return Ok(VramNote::Passed(size_mb));
            }
            let mut m = "model size ".to_owned();
            m.append(decimal_text(size_mb).as_str());
            m.append(" MB exceeds 80% of VRAM budget ");
            m.append(decimal_text(budget_mb).as_str());
            m.append(" MB (");
            m.append(decimal_text(limit).as_str());
            m.append(" MB allowed)");
            if strict {
                Err(m)
            } else {
                Ok(VramNote::Exceeded(m))
            }
        },
        Ok(None) => Ok(VramNote::Unknown),
        Err(e) => Ok(VramNote::Skipped(e.message())),
    }
}

/// No text field of a transaction takes more bytes than it may.
pub open spec fn fields_fit(tx: Transaction, max_len: nat) -> bool {
    &&& text::byte_len(tx.id@) <= max_len
    &&& text::byte_len(tx.counterparty@) <= max_len
    &&& text::byte_len(tx.purpose@) <= max_len
    &&& text::byte_len(tx.date@) <= max_len
    &&& text::byte_len(tx.currency@) <= 8
}

/// No two transactions share an id.
pub open spec fn distinct_ids(txs: Seq<Transaction>) -> bool {
    forall|i: int, j: int|
        0 <= i < j < txs.len() ==> (#[trigger] txs[i]).id@ != (#[trigger] txs[j]).id@
}

proof fn lemma_fields_fault(txs: Seq<Transaction>, i: int, max_len: nat)
    requires
        0 <= i,
    ensures
        fields_fault(txs, i, max_len) is None <==> forall|k: int|
            i <= k < txs.len() ==> fields_fit(#[trigger] txs[k], max_len),
    decreases txs.len() - i,
{
    if i < txs.len() {
        lemma_fields_fault(txs, i + 1, max_len);
        assert(field_fault(txs[i], i, max_len) is None <==> fields_fit(txs[i], max_len));
    }
}

proof fn lemma_ids_fault(txs: Seq<Transaction>, i: int)
    requires
        0 <= i,
    ensures
        ids_fault(txs, i) is None <==> forall|k: int|
            i <= k < txs.len() ==> !(#[trigger] repeats_id(txs, k)),
    decreases txs.len() - i,
{
    if i < txs.len() {
        lemma_ids_fault(txs, i + 1);
        if ids_fault(txs, i) is None {
            assert forall|k: int| i <= k < txs.len() implies !(#[trigger] repeats_id(
                txs,
                k,
            )) by {}
        }
    }
}

/// A batch is accepted exactly where it holds one to `max_batch` transactions
/// with ids of their own and fields that fit, and names a two-letter language or
/// none.
pub proof fn law_accepted_batches(
    txs: Seq<Transaction>,
    language: Option<Seq<char>>,
    max_batch: nat,
    max_field_len: nat,
)
    ensures
        batch_fault(txs, language, max_batch, max_field_len) is None <==> {
            &&& 1 <= txs.len() <= max_batch
            &&& language matches Some(l) ==> text::is_language_code(text::trimmed(l))
            &&& distinct_ids(txs)
            &&& forall|k: int| 0 <= k < txs.len() ==> fields_fit(#[trigger] txs[k], max_field_len)
        },
{
    lemma_fields_fault(txs, 0, max_field_len);
    lemma_ids_fault(txs, 0);
    if ids_fault(txs, 0) is None {
        assert forall|i: int, j: int| 0 <= i < j < txs.len() implies (#[trigger] txs[i]).id@ != (
        #[trigger] txs[j]).id@ by {
            assert(!repeats_id(txs, j));
        }
    } else {
        let k = choose|k: int| 0 <= k < txs.len() && #[trigger] repeats_id(txs, k);
        let j = choose|j: int| 0 <= j < k && (#[trigger] txs[j]).id@ == txs[k].id@;
        assert(!distinct_ids(txs)) by {
            assert(txs[j].id@ == txs[k].id@);
        }
    }
}

/// A single request is judged as a batch of one is.
pub proof fn law_single_is_batch_of_one(
    tx: Transaction,
    language: Option<Seq<char>>,
    max_batch: nat,
    max_field_len: nat,
)
    requires
        max_batch >= 1,
    ensures
        match request_fault(seq![tx], language, max_field_len) {
            Some(m) => batch_fault(seq![tx], language, max_batch, max_field_len) == Some(
                (400u16, m),
            ),
            None => batch_fault(seq![tx], language, max_batch, max_field_len) is None,
        },
{
}

/// A refused batch is answered 413 exactly where it is not empty and holds too many
/// transactions, and then both numbers are told; every other refusal is a 400.
pub proof fn law_only_large_batches_are_413(
    txs: Seq<Transaction>,
    language: Option<Seq<char>>,
    max_batch: nat,
    max_field_len: nat,
)
    ensures
        batch_fault(txs, language, max_batch, max_field_len) matches Some((status, m)) ==> {
            &&& status == (if txs.len() > 0 && txs.len() > max_batch {
                413int
            } else {
                400
            })
            &&& status == 413 ==> m == "batch too large: "@ + text::decimal(txs.len())
                + " transactions (max "@ + text::decimal(max_batch) + "); chunk client-side"@
        },
        txs.len() == 0 ==> batch_fault(txs, language, max_batch, max_field_len) == Some(
            (400u16, "transactions must not be empty"@),
        ),
{
}

/// A language is looked at first, ids next, and fields last.
pub proof fn law_language_ids_fields(
    txs: Seq<Transaction>,
    language: Option<Seq<char>>,
    max_field_len: nat,
)
    ensures
        language matches Some(l) && !text::is_language_code(text::trimmed(l)) ==> request_fault(
            txs,
            language,
            max_field_len,
        ) == Some(
            "language must be a 2-letter ISO 639-1 code, got: "@ + text::debug_of(language->0),
        ),
        (language matches Some(l) ==> text::is_language_code(text::trimmed(l))) && !distinct_ids(
            txs,
        ) ==> request_fault(txs, language, max_field_len) == ids_fault(txs, 0) && ids_fault(txs, 0)
            is Some,
        (language matches Some(l) ==> text::is_language_code(text::trimmed(l))) && distinct_ids(
            txs,
        ) ==> request_fault(txs, language, max_field_len) == fields_fault(txs, 0, max_field_len),
{
    lemma_ids_fault(txs, 0);
    if distinct_ids(txs) {
        assert forall|k: int| 0 <= k < txs.len() implies !(#[trigger] repeats_id(txs, k)) by {
            if repeats_id(txs, k) {
                let j = choose|j: int| 0 <= j < k && (#[trigger] txs[j]).id@ == txs[k].id@;
                assert(txs[j].id@ != txs[k].id@);
            }
        }
    } else {
        let (i, j) = choose|i: int, j: int|
            0 <= i < j < txs.len() && (#[trigger] txs[i]).id@ == (#[trigger] txs[j]).id@;
        assert(repeats_id(txs, j)) by {
            assert(txs[i].id@ == txs[j].id@);
        }
    }
}

/// Of repeated ids the first to repeat an earlier one is named, with its place.
pub proof fn law_first_repeated_id_is_named(txs: Seq<Transaction>, i: int, k: int)
    requires
        0 <= i < k < txs.len(),
        txs[i].id@ == txs[k].id@,
        distinct_ids(txs.take(k)),
    ensures
        ids_fault(txs, 0) == Some(
            "duplicate transaction id "@ + text::debug_of(txs[k].id@) + " (index "@
                + text::decimal(k as nat) + "); ids must be unique"@,
        ),
{
    assert(repeats_id(txs, k));
    assert forall|m: int| 0 <= m < k implies !(#[trigger] repeats_id(txs, m)) by {
        if repeats_id(txs, m) {
            let j = choose|j: int| 0 <= j < m && (#[trigger] txs[j]).id@ == txs[m].id@;
            assert(txs.take(k)[j] == txs[j] && txs.take(k)[m] == txs[m]);
        }
    }
    lemma_first_repeated(txs, 0, k);
}

proof fn lemma_first_repeated(txs: Seq<Transaction>, i: int, k: int)
    requires
        0 <= i <= k < txs.len(),
        repeats_id(txs, k),
        forall|m: int| i <= m < k ==> !(#[trigger] repeats_id(txs, m)),
    ensures
        ids_fault(txs, i) == ids_fault(txs, k),
    decreases k - i,
{
    if i < k {
        assert(!repeats_id(txs, i));
        lemma_first_repeated(txs, i + 1, k);
    }
}

/// Of fields that are too long the first one of the first transaction with such a
/// field is named, with the place and the id of the transaction.
pub proof fn law_first_long_field_is_named(txs: Seq<Transaction>, k: int, max_len: nat)
    requires
        0 <= k < txs.len(),
        !fields_fit(txs[k], max_len),
        forall|m: int| 0 <= m < k ==> fields_fit(#[trigger] txs[m], max_len),
    ensures
        ({
            let tx = txs[k];
            let start = "transaction "@ + text::decimal(k as nat) + " (id "@ + text::debug_of(tx.id@)
                + "): field `"@;
            let end = "` exceeds "@ + text::decimal(max_len) + " bytes"@;
            let fault = fields_fault(txs, 0, max_len);
            &&& fault is Some
            &&& text::byte_len(tx.id@) > max_len ==> fault == Some(start + "id"@ + end)
            &&& text::byte_len(tx.id@) <= max_len && text::byte_len(tx.counterparty@) > max_len
                ==> fault == Some(start + "counterparty"@ + end)
            &&& text::byte_len(tx.id@) <= max_len && text::byte_len(tx.counterparty@) <= max_len
                && text::byte_len(tx.purpose@) > max_len ==> fault == Some(
                start + "purpose"@ + end,
            )
            &&& text::byte_len(tx.id@) <= max_len && text::byte_len(tx.counterparty@) <= max_len
                && text::byte_len(tx.purpose@) <= max_len && text::byte_len(tx.date@) > max_len
                ==> fault == Some(start + "date"@ + end)
            &&& text::byte_len(tx.id@) <= max_len && text::byte_len(tx.counterparty@) <= max_len
                && text::byte_len(tx.purpose@) <= max_len && text::byte_len(tx.date@) <= max_len
                ==> fault == Some(
                start + "currency"@ + ("` exceeds "@ + text::decimal(8) + " bytes"@),
            )
        }),
{
    lemma_first_long(txs, 0, k, max_len);
    let tx = txs[k];
    lemma_too_long(k, tx.id@, "id"@, max_len);
    lemma_too_long(k, tx.id@, "counterparty"@, max_len);
    lemma_too_long(k, tx.id@, "purpose"@, max_len);
    lemma_too_long(k, tx.id@, "date"@, max_len);
    lemma_too_long(k, tx.id@, "currency"@, 8);
}

proof fn lemma_too_long(i: int, id: Seq<char>, field: Seq<char>, max: nat)
    ensures
        too_long(i, id, field, max) == "transaction "@ + text::decimal(i as nat) + " (id "@
            + text::debug_of(id) + "): field `"@ + field + ("` exceeds "@ + text::decimal(max)
            + " bytes"@),
{
    assert(too_long(i, id, field, max) =~= "transaction "@ + text::decimal(i as nat) + " (id "@
        + text::debug_of(id) + "): field `"@ + field + ("` exceeds "@ + text::decimal(max)
        + " bytes"@));
}

proof fn lemma_first_long(txs: Seq<Transaction>, i: int, k: int, max_len: nat)
    requires
        0 <= i <= k < txs.len(),
        !fields_fit(txs[k], max_len),
        forall|m: int| i <= m < k ==> fields_fit(#[trigger] txs[m], max_len),
    ensures
        fields_fault(txs, i, max_len) == field_fault(txs[k], k, max_len),
        field_fault(txs[k], k, max_len) is Some,
    decreases k - i,
{
    if i < k {
        assert(fields_fit(txs[i], max_len));
        lemma_first_long(txs, i + 1, k, max_len);
    }
}

proof fn lemma_distinct_ids(txs: Seq<Transaction>)
    ensures
        ids_fault(txs, 0) is None <==> distinct_ids(txs),
{
    law_language_ids_fields(txs, None, 0);
    lemma_ids_fault(txs, 0);
    if distinct_ids(txs) {
        assert forall|k: int| 0 <= k < txs.len() implies !(#[trigger] repeats_id(txs, k)) by {
            if repeats_id(txs, k) {
                let j = choose|j: int| 0 <= j < k && (#[trigger] txs[j]).id@ == txs[k].id@;
                assert(txs[j].id@ != txs[k].id@);
            }
        }
    }
}

} // verus!
