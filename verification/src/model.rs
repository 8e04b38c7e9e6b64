//! The values that requests and responses are made of.
use vstd::prelude::*;
use vstd::string::*;

use crate::text;

verus! {

/// Where money goes.
#[derive(Debug, Clone, Copy, PartialEq, Eq, Structural)]
pub enum Direction {
    Income,
    Expense,
}

/// The sign of an amount.
#[derive(Debug, Clone, Copy, PartialEq, Eq, Structural)]
pub enum Sign {
    Negative,
    Zero,
    Positive,
}

/// A finite amount of money: its sign, and the amount as it is shown to the
/// model.
#[derive(Debug)]
pub struct Amount {
    pub sign: Sign,
    pub text: String,
}

impl Clone for Amount {
    fn clone(&self) -> (r: Self)
        ensures
            r == *self,
    {
        Amount { sign: self.sign, text: self.text.clone() }
    }
}

/// A single banking transaction to be labelled.
#[derive(Debug)]
pub struct Transaction {
    /// Unique identifier within the request; results are returned in input
    /// order, so batch clients can associate by position.
    pub id: String,
    /// Payee (outgoing) or payer (incoming) name.
    pub counterparty: String,
    /// Purpose / reference line from the statement.
    pub purpose: String,
    /// Signed amount; negative = outflow, positive = inflow.
    pub amount: Amount,
    /// ISO 4217 currency code (advisory; shown to the model).
    pub currency: String,
    /// Booking date, ISO 8601 recommended.
    pub date: String,
}

impl Clone for Transaction {
    fn clone(&self) -> (r: Self)
        ensures
            r == *self,
    {
        Transaction {
            id: self.id.clone(),
            counterparty: self.counterparty.clone(),
            purpose: self.purpose.clone(),
            amount: self.amount.clone(),
            currency: self.currency.clone(),
            date: self.date.clone(),
        }
    }
}

/// The currency of a transaction that names none.
pub fn default_currency() -> (r: String)
    ensures
        r@ == "EUR"@,
{
    "EUR".to_owned()
}

/// A labelled transaction as the pipeline hands it out.
#[derive(Debug, Clone)]
pub struct LabelResult {
    /// Echoes the input transaction id.
    pub id: String,
    /// Category name in the requested language.
    pub label: String,
    /// The reason for the label, where one was asked for and given.
    pub rationale: Option<String>,
    /// The model that was asked.
    pub model: String,
}

/// One result per transaction, in input order, and the time that it took.
#[derive(Debug)]
pub struct BatchResponse {
    pub results: Vec<LabelResult>,
    pub batch_ms: u64,
}

/// Per-request options; language overrides the server default.
#[derive(Debug, Clone, Default)]
pub struct LabelOptions {
    /// ISO 639-1 label language (`de`, `en`, …). Overrides `TL_LANGUAGE`.
    pub language: Option<String>,
}

/// The language that a request is answered in: the one that it names, in lower
/// case, else the server default.
pub open spec fn requested_language(
    language: Option<Seq<char>>,
    server_default: Seq<char>,
) -> Seq<char> {
    match language {
        Some(l) => if text::lowercase_of(text::trimmed(l)).len() > 0 {
            text::lowercase_of(text::trimmed(l))
        } else {
            server_default
        },
        None => server_default,
    }
}

impl LabelOptions {
    /// The language that a request is answered in: the one that it names, in
    /// lower case, else the server default.
    pub fn effective_language(&self, server_default: &str) -> (r: String)
        ensures
            r@ == requested_language(text::opt_text(self.language), server_default@),
            self.language is None ==> r@ == server_default@,
            self.language is Some && text::lowercase_of(text::trimmed(self.language->0@)).len() > 0
                ==> r@ == text::lowercase_of(text::trimmed(self.language->0@)),
            self.language is Some && text::lowercase_of(text::trimmed(self.language->0@)).len()
                == 0 ==> r@ == server_default@,
            self.language is Some && text::trimmed(self.language->0@).len() == 0 ==> r@
                == server_default@,
            self.language is Some && text::is_language_code(text::trimmed(self.language->0@))
                ==> r@ == text::ascii_lowercase(text::trimmed(self.language->0@)),
    {
        match &self.language {
            Some(l) => {
                let l = l.trim().to_lowercase();
                if l.as_str().is_empty() {
                    server_default.to_owned()
                } else {
                    l
                }
            },
            None => server_default.to_owned(),
        }
    }
}

/// The label, with the id it belongs to.
#[derive(Debug, Clone)]
pub struct SingleLabelResponse {
    /// Echoes the input transaction id.
    pub id: String,
    /// LLM-generated category name in the requested language.
    pub label: String,
}

/// One result per input transaction, in input order (`results[i]` belongs to
/// request transaction `i`); `id` makes association explicit.
#[derive(Debug, Clone)]
pub struct BatchLabelResponse {
    pub results: Vec<LabeledTransaction>,
}

/// A transaction id paired with its LLM-generated label.
#[derive(Debug, Clone)]
pub struct LabeledTransaction {
    /// Echoes the input transaction id.
    pub id: String,
    /// LLM-generated category name in the requested language.
    pub label: String,
}

/// Uniform error body: `{ "error": { "code", "message", "details" } }`.
#[derive(Debug, Clone)]
pub struct ApiError {
    pub error: ErrorBody,
}

/// What an error body says.
#[derive(Debug, Clone)]
pub struct ErrorBody {
    /// Machine-readable error code (`invalid_request`, `backend_unavailable`).
    pub code: String,
    /// Human-readable description.
    pub message: String,
    /// Optional extra context (e.g. offending indices).
    pub details: Vec<String>,
}

impl ApiError {
    /// The error has that code and that message, and no details.
    pub open spec fn says(self, code: Seq<char>, message: Seq<char>) -> bool {
        &&& self.error.code@ == code
        &&& self.error.message@ == message
        &&& self.error.details@.len() == 0
    }

    /// An error without details.
    pub fn new(code: &str, message: String) -> (r: Self)
        ensures
            r.says(code@, message@),
            r.error.code@ == code@,
            r.error.message@ == message@,
            r.error.details@.len() == 0,
    {
        ApiError { error: ErrorBody { code: code.to_owned(), message, details: Vec::new() } }
    }

    /// The request itself is at fault.
    pub fn invalid_request(msg: String) -> (r: Self)
        ensures
            r.says("invalid_request"@, msg@),
            r.error.code@ == "invalid_request"@,
            r.error.message@ == msg@,
    {
        ApiError::new("invalid_request", msg)
    }

    /// The model server is at fault.
    pub fn backend_unavailable(msg: String) -> (r: Self)
        ensures
            r.says("backend_unavailable"@, msg@),
            r.error.code@ == "backend_unavailable"@,
            r.error.message@ == msg@,
    {
        ApiError::new("backend_unavailable", msg)
    }
}

/// `POST /v1/label` request body.
#[derive(Debug)]
pub struct LabelSingleRequest {
    pub transaction: Transaction,
    pub options: LabelOptions,
}

/// `POST /v1/label:batch` request body.
#[derive(Debug)]
pub struct LabelBatchRequest {
    /// 1..=`TL_MAX_BATCH` (default 100) transactions; ids must be unique.
    pub transactions: Vec<Transaction>,
    pub options: LabelOptions,
}

/// `GET /v1/labels` response — the label library for one language.
#[derive(Debug, Clone)]
pub struct LabelListResponse {
    /// Known labels, most-used first. The model is instructed to reuse these
    /// verbatim; new labels are appended automatically as they are used.
    pub labels: Vec<String>,
}

/// `GET /v1/health` response.
#[derive(Debug)]
pub struct HealthResponse {
    /// `ok` or `degraded`.
    pub status: String,
    /// Backend reachability description.
    pub backend: String,
}

} // verus!
