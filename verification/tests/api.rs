use transaction_labeller::api::{
    api_err, batch_answer, failure_to_response, health, label_batch, label_single, list_labels,
    query_language, single_answer, valid_language_code, validate_field_lengths, validate_ids,
    vram_check_service, ApiState, LabelListQuery, VramNote,
};
use transaction_labeller::config::Config;
use transaction_labeller::library::LabelLibrary;
use transaction_labeller::llm::LlmError;
use transaction_labeller::model::{
    Amount, ApiError, BatchResponse, LabelBatchRequest, LabelOptions, LabelResult,
    LabelSingleRequest, Sign, Transaction,
};
use transaction_labeller::pipeline::{LabelFailure, LabelService, RETRY_AFTER_SECS};
use transaction_labeller::router::max_field_len;

fn state(max_batch: usize) -> ApiState {
    ApiState {
        service: LabelService::new(&Config::default()),
        max_batch,
        max_field_len: max_field_len(),
    }
}

fn tx(id: &str) -> Transaction {
    Transaction {
        id: id.to_string(),
        counterparty: "A".to_string(),
        purpose: "x".to_string(),
        amount: Amount {
            sign: Sign::Negative,
            text: "-1".to_string(),
        },
        currency: "EUR".to_string(),
        date: "2026-02-14".to_string(),
    }
}

fn language(l: Option<&str>) -> LabelOptions {
    LabelOptions {
        language: l.map(|l| l.to_string()),
    }
}

fn batch(transactions: Vec<Transaction>, l: Option<&str>) -> LabelBatchRequest {
    LabelBatchRequest {
        transactions,
        options: language(l),
    }
}

fn result(id: &str, label: &str) -> LabelResult {
    LabelResult {
        id: id.to_string(),
        label: label.to_string(),
        rationale: None,
        model: "m".to_string(),
    }
}

fn refused(r: Result<(), ApiError>) -> String {
    match r {
        Ok(()) => panic!("must be refused"),
        Err(e) => e.error.message,
    }
}

#[test]
fn accepted_batches_keep_their_transactions() {
    let job = label_batch(&state(100), batch(vec![tx("a"), tx("b")], Some(" EN "))).unwrap();
    assert_eq!(job.language, "en");
    let ids: Vec<&str> = job.transactions.iter().map(|t| t.id.as_str()).collect();
    assert_eq!(ids, vec!["a", "b"]);
    let job = label_batch(&state(2), batch(vec![tx("a"), tx("b")], None)).unwrap();
    assert_eq!(job.language, "de");
}

#[test]
fn bad_batches_are_refused_with_their_status() {
    let e = label_batch(&state(100), batch(vec![], None)).unwrap_err();
    assert_eq!(e.status, 400);
    assert_eq!(e.body.error.code, "invalid_request");
    assert_eq!(e.body.error.message, "transactions must not be empty");
    assert!(e.header.is_none());

    let e = label_batch(&state(2), batch(vec![tx("a"), tx("b"), tx("c")], None)).unwrap_err();
    assert_eq!(e.status, 413);
    assert_eq!(e.body.error.code, "invalid_request");
    assert_eq!(
        e.body.error.message,
        "batch too large: 3 transactions (max 2); chunk client-side"
    );

    let e = label_batch(&state(9), batch(vec![tx("dup"), tx("dup")], None)).unwrap_err();
    assert_eq!(e.status, 400);
    assert_eq!(
        e.body.error.message,
        "duplicate transaction id \"dup\" (index 1); ids must be unique"
    );

    let e = label_batch(&state(9), batch(vec![tx("a")], Some("deutsch"))).unwrap_err();
    assert_eq!(e.status, 400);
    assert_eq!(
        e.body.error.message,
        "language must be a 2-letter ISO 639-1 code, got: \"deutsch\""
    );
}

#[test]
fn single_requests_pass_the_same_checks() {
    let ok = label_single(
        &state(1),
        LabelSingleRequest {
            transaction: tx("a"),
            options: language(None),
        },
    )
    .unwrap();
    assert_eq!(ok.transactions.len(), 1);
    assert_eq!(ok.language, "de");
    let mut long = tx("a");
    long.purpose = "x".repeat(600);
    let e = label_single(
        &state(1),
        LabelSingleRequest {
            transaction: long.clone(),
            options: language(None),
        },
    )
    .unwrap_err();
    assert_eq!(e.status, 400);
    assert_eq!(
        e.body.error.message,
        "transaction 0 (id \"a\"): field `purpose` exceeds 512 bytes"
    );
    let same = label_batch(&state(1), batch(vec![long], None)).unwrap_err();
    assert_eq!(same.status, e.status);
    assert_eq!(same.body.error.message, e.body.error.message);
}

#[test]
fn field_lengths_are_counted_in_bytes() {
    let mut t = tx("a");
    t.counterparty = "ü".repeat(256);
    assert!(validate_field_lengths(&[t.clone()], 512).is_ok());
    t.counterparty = "ü".repeat(257);
    assert_eq!(
        refused(validate_field_lengths(&[tx("z"), t], 512)),
        "transaction 1 (id \"a\"): field `counterparty` exceeds 512 bytes"
    );
    let mut t = tx("q\"q");
    t.currency = "123456789".to_string();
    assert_eq!(
        refused(validate_field_lengths(&[t], 512)),
        "transaction 0 (id \"q\\\"q\"): field `currency` exceeds 8 bytes"
    );
    let mut t = tx("a");
    t.date = "1234".to_string();
    assert_eq!(
        refused(validate_field_lengths(&[t], 3)),
        "transaction 0 (id \"a\"): field `date` exceeds 3 bytes"
    );
    assert_eq!(
        refused(validate_field_lengths(&[tx("abcd")], 3)),
        "transaction 0 (id \"abcd\"): field `id` exceeds 3 bytes"
    );
}

#[test]
fn ids_are_compared_exactly() {
    assert!(validate_ids(&[tx("a"), tx("A"), tx("a ")]).is_ok());
    assert_eq!(
        refused(validate_ids(&[tx("a"), tx("b"), tx("a"), tx("b")])),
        "duplicate transaction id \"a\" (index 2); ids must be unique"
    );
}

#[test]
fn language_codes_are_trimmed_letters() {
    assert_eq!(valid_language_code(" dE ").unwrap(), "dE");
    for bad in ["", "d", "deu", "d1", "ü", "日本"] {
        assert!(valid_language_code(bad).is_err(), "{bad}");
    }
}

#[test]
fn labels_are_listed_by_language() {
    let s = state(1);
    let mut library = LabelLibrary::open("", None, 2);
    library.record(
        "de",
        &["Miete".to_string(), "Auto".to_string(), "Miete".to_string(), "Zug".to_string()],
    );
    let query = |l: Option<&str>| LabelListQuery {
        language: l.map(|l| l.to_string()),
    };
    assert_eq!(
        list_labels(&s, &query(None), Some(&library)).unwrap().labels,
        vec!["Miete", "Auto"]
    );
    assert_eq!(
        list_labels(&s, &query(Some("DE")), Some(&library)).unwrap().labels,
        vec!["Miete", "Auto"]
    );
    assert!(list_labels(&s, &query(Some("en")), Some(&library)).unwrap().labels.is_empty());
    assert!(list_labels(&s, &query(None), None).unwrap().labels.is_empty());
    let e = list_labels(&s, &query(Some("x")), Some(&library)).unwrap_err();
    assert_eq!(e.status, 400);
    assert_eq!(query_language(&s, &query(Some(" FR "))).unwrap(), "fr");
    assert_eq!(query_language(&s, &query(None)).unwrap(), "de");
}

#[test]
fn answers_hold_ids_and_labels_only() {
    let outcome = || {
        Ok(BatchResponse {
            results: vec![result("a", "Miete"), result("b", "Auto")],
            batch_ms: 1,
        })
    };
    let single = single_answer(outcome()).unwrap();
    assert_eq!(single.id, "a");
    assert_eq!(single.label, "Miete");
    let all = batch_answer(outcome()).unwrap();
    assert_eq!(all.results.len(), 2);
    assert_eq!(all.results[1].id, "b");
    assert_eq!(all.results[1].label, "Auto");
    let e = single_answer(Ok(BatchResponse {
        results: vec![],
        batch_ms: 0,
    }))
    .unwrap_err();
    assert_eq!(e.status, 500);
    assert_eq!(e.body.error.code, "internal");
    assert_eq!(e.body.error.message, "no label produced");
}

#[test]
fn backend_failures_are_503_with_retry_after() {
    let failure = || LabelFailure::Backend(LlmError::Unreachable("refused".to_string()));
    for e in [
        failure_to_response(failure()),
        single_answer(Err(failure())).unwrap_err(),
        batch_answer(Err(failure())).unwrap_err(),
    ] {
        assert_eq!(e.status, 503);
        assert_eq!(e.body.error.code, "backend_unavailable");
        assert_eq!(
            e.body.error.message,
            "LLM backend failed: LLM backend unreachable: refused"
        );
        let header = e.header.unwrap();
        assert_eq!(header.name, "Retry-After");
        assert_eq!(header.value, "5");
    }
    assert_eq!(RETRY_AFTER_SECS, 5);
    assert!(api_err(ApiError::new("c", "m".to_string()), 400, None).header.is_none());
}

#[test]
fn health_is_ok_or_degraded() {
    let (status, body) = health(Ok(()));
    assert_eq!(status, 200);
    assert_eq!(body.status, "ok");
    assert_eq!(body.backend, "reachable");
    let (status, body) = health(Err(LlmError::Unreachable("down".to_string())));
    assert_eq!(status, 503);
    assert_eq!(body.status, "degraded");
    assert_eq!(body.backend, "LLM backend unreachable: down");
}

#[test]
fn large_models_are_reported() {
    let mb = 1024 * 1024;
    assert!(matches!(
        vram_check_service(Ok(Some(6553 * mb + 1)), 8192, 6553, true),
        Ok(VramNote::Passed(6553))
    ));
    let message = "model size 6554 MB exceeds 80% of VRAM budget 8192 MB (6553 MB allowed)";
    assert_eq!(
        vram_check_service(Ok(Some(6554 * mb)), 8192, 6553, true).unwrap_err(),
        message
    );
    match vram_check_service(Ok(Some(6554 * mb)), 8192, 6553, false) {
        Ok(VramNote::Exceeded(m)) => assert_eq!(m, message),
        other => panic!("{other:?}"),
    }
    assert!(matches!(
        vram_check_service(Ok(None), 8192, 6553, true),
        Ok(VramNote::Unknown)
    ));
    match vram_check_service(Err(LlmError::Timeout(5)), 8192, 6553, true) {
        Ok(VramNote::Skipped(m)) => assert_eq!(m, "LLM request timed out after 5s"),
        other => panic!("{other:?}"),
    }
}
