use transaction_labeller::config::Config;
use transaction_labeller::llm::{
    backoff_base_ms, backoff_delay, backoff_with, balanced_object, extract_json, localize,
    localize_all, parse_model_output, ChatMessage, ChatResponse, Exchange, LlmError, LlmRequest,
    OllamaClient, RawClassification, Step,
};
use transaction_labeller::model::{Amount, Sign, Transaction};
use transaction_labeller::taxonomy::builtin;

fn client(model: &str) -> OllamaClient {
    let cfg = Config {
        model: model.to_string(),
        ollama_url: "http://localhost:1".to_string(),
        request_timeout_secs: 7,
        ..Config::default()
    };
    OllamaClient::new(&cfg, builtin())
}

fn replied(status: u16, body: &str, content: Option<&str>) -> Exchange {
    Exchange::Replied {
        status,
        body: body.to_string(),
        reply: Ok(ChatResponse {
            message: Some(ChatMessage {
                content: content.map(|c| c.to_string()),
            }),
        }),
    }
}

#[test]
fn parse_plain_json() {
    let out = parse_model_output(
        r#"{"results":[{"index":0,"category":"groceries"},{"index":1,"category":"salary_income"}]}"#,
        2,
    );
    assert_eq!(out[0].as_ref().unwrap().category, "groceries");
    assert_eq!(out[1].as_ref().unwrap().category, "salary_income");
}

#[test]
fn parse_markdown_fenced_json() {
    let content =
        "Here you go:\n```json\n{\"results\":[{\"index\":0,\"category\":\"dining\"}]}\n```";
    let out = parse_model_output(content, 2);
    assert_eq!(out[0].as_ref().unwrap().category, "dining");
    assert!(out[1].is_none());
}

#[test]
fn parse_json_with_surrounding_prose() {
    let content =
        "Sure! {\"results\":[{\"index\":1,\"category\":\"housing\"}]} hope that helps";
    let out = parse_model_output(content, 3);
    // Positional: first result slot maps to first transaction regardless
    // of the echoed index.
    assert_eq!(out[0].as_ref().unwrap().category, "housing");
    assert!(out[1].is_none());
    assert!(out[2].is_none());
}

#[test]
fn echoed_indices_are_ignored() {
    let content = r#"{"results":[{"index":5,"category":"groceries"},{"category":"housing"},{"index":0}]}"#;
    let out = parse_model_output(content, 3);
    assert_eq!(out[0].as_ref().unwrap().category, "groceries");
    assert_eq!(out[1].as_ref().unwrap().category, "housing");
    // third entry has no category → stays unmapped
    assert!(out[2].is_none());
}

#[test]
fn extra_results_beyond_input_are_dropped() {
    let content = r#"{"results":[{"category":"groceries"},{"category":"dining"}]}"#;
    let out = parse_model_output(content, 1);
    assert_eq!(out[0].as_ref().unwrap().category, "groceries");
    assert_eq!(out.len(), 1);
}

#[test]
fn duplicate_index_first_wins() {
    let content =
        r#"{"results":[{"index":0,"category":"groceries"},{"index":0,"category":"housing"}]}"#;
    let out = parse_model_output(content, 1);
    assert_eq!(out[0].as_ref().unwrap().category, "groceries");
}

#[test]
fn braces_inside_strings_are_tolerated() {
    let content =
        r#"{"results":[{"index":0,"category":"groceries","rationale":"has } brace"}]}"#;
    let out = parse_model_output(content, 1);
    assert_eq!(out[0].as_ref().unwrap().category, "groceries");
    assert_eq!(
        out[0].as_ref().unwrap().rationale.as_deref(),
        Some("has } brace")
    );
}

#[test]
fn garbage_yields_all_none() {
    assert!(parse_model_output("no json at all", 2)
        .iter()
        .all(|o| o.is_none()));
    assert!(parse_model_output("{\"results\": 5}", 2)
        .iter()
        .all(|o| o.is_none()));
}

#[test]
fn prose_with_a_brace_does_not_poison_the_answer() {
    let content = "I use {curly} braces: {\"results\":[{\"category\":\" rent \",\"rationale\":\"  \"}]}";
    assert_eq!(
        extract_json(content).as_deref(),
        Some("{\"results\":[{\"category\":\" rent \",\"rationale\":\"  \"}]}")
    );
    let out = parse_model_output(content, 1);
    let first = out[0].as_ref().unwrap();
    assert_eq!(first.category, "rent");
    assert_eq!(first.rationale, None);
    assert_eq!(first.index(), 0);
}

#[test]
fn objects_end_where_their_brace_closes() {
    assert_eq!(balanced_object("{a{b}c}d").as_deref(), Some("{a{b}c}"));
    assert_eq!(balanced_object(r#"{"\"}"}x"#).as_deref(), Some(r#"{"\"}"}"#));
    assert_eq!(balanced_object("{\"ü}\"}").as_deref(), Some("{\"ü}\"}"));
    assert_eq!(balanced_object("{never closed"), None);
    assert_eq!(balanced_object("x{}"), None);
    assert_eq!(balanced_object(""), None);
}

#[test]
fn a_cut_answer_keeps_its_head() {
    let whole = parse_model_output(
        r#"{"results":[{"category":"a"},{"category":"b"},{"category":"c"}]}"#,
        3,
    );
    let cut = parse_model_output(r#"{"results":[{"category":"a"},{"category":"b"}]}"#, 3);
    for i in 0..2 {
        assert_eq!(
            whole[i].as_ref().unwrap().category,
            cut[i].as_ref().unwrap().category
        );
    }
    assert!(cut[2].is_none());
    assert_eq!(whole[2].as_ref().unwrap().index, 2);
}

#[test]
fn replies_become_outcomes() {
    let c = client("m");
    assert_eq!(
        c.attempt(replied(200, "{}", Some("hello"))).unwrap(),
        "hello"
    );
    let err = c.attempt(replied(200, "{}", None)).unwrap_err();
    assert_eq!(
        err.message(),
        "LLM response was not valid JSON: missing message.content"
    );
    let err = c
        .attempt(Exchange::Replied {
            status: 200,
            body: String::new(),
            reply: Ok(ChatResponse { message: None }),
        })
        .unwrap_err();
    assert!(matches!(err, LlmError::BadResponse(_)));
    let long = "ä".repeat(600);
    let err = c.attempt(replied(500, &long, Some("x"))).unwrap_err();
    match &err {
        LlmError::Http { status, body } => {
            assert_eq!(*status, 500);
            assert_eq!(body.chars().count(), 500);
        }
        other => panic!("{other:?}"),
    }
    let err = c.attempt(replied(404, "no", Some("x"))).unwrap_err();
    assert_eq!(err.message(), "LLM backend error (HTTP 404): no");
    let err = c.attempt(Exchange::TimedOut).unwrap_err();
    assert_eq!(err.message(), "LLM request timed out after 7s");
    let err = c.attempt(Exchange::SendFailed("refused".to_string())).unwrap_err();
    assert_eq!(err.message(), "LLM backend unreachable: refused");
    let err = c.attempt(Exchange::BodyFailed("cut".to_string())).unwrap_err();
    assert_eq!(err.message(), "LLM response was not valid JSON: cut");
}

#[test]
fn transient_failures_are_tried_again_and_no_others() {
    let c = client("m");
    let http = |status: u16| LlmError::Http {
        status,
        body: String::new(),
    };
    assert_eq!(c.max_retries, 2);
    for status in [429u16, 500, 503, 599] {
        assert!(http(status).is_transient());
        assert!(matches!(c.classify_batch(Err(http(status)), 1, 3), Step::Retry));
        assert!(matches!(c.classify_batch(Err(http(status)), 2, 3), Step::Retry));
        assert!(matches!(c.classify_batch(Err(http(status)), 3, 3), Step::Fail(_)));
    }
    for status in [301u16, 400, 404, 600] {
        assert!(!http(status).is_transient());
        assert!(matches!(c.classify_batch(Err(http(status)), 1, 3), Step::Fail(_)));
    }
    assert!(matches!(
        c.classify_batch(Err(LlmError::Unreachable("x".to_string())), 1, 3),
        Step::Retry
    ));
    assert!(matches!(
        c.classify_batch(Err(LlmError::BadResponse("x".to_string())), 1, 3),
        Step::Fail(LlmError::BadResponse(_))
    ));
}

#[test]
fn timeouts_degrade_item_wise() {
    let c = client("m");
    match c.classify_batch(Err(LlmError::Timeout(7)), 1, 3) {
        Step::Answer(slots) => {
            assert_eq!(slots.len(), 3);
            assert!(slots.iter().all(|s| s.is_none()));
        }
        other => panic!("{other:?}"),
    }
}

#[test]
fn answers_are_read_by_position() {
    let c = client("m");
    let content = r#"{"results":[{"index":9,"category":"housing"}]}"#.to_string();
    match c.classify_batch(Ok(content), 1, 2) {
        Step::Answer(slots) => {
            assert_eq!(slots[0].as_ref().unwrap().category, "housing");
            assert!(slots[1].is_none());
        }
        other => panic!("{other:?}"),
    }
}

#[test]
fn waits_grow_fourfold_with_bounded_jitter() {
    assert_eq!(backoff_base_ms(0), 200);
    assert_eq!(backoff_base_ms(1), 200);
    assert_eq!(backoff_base_ms(2), 800);
    assert_eq!(backoff_base_ms(3), 3200);
    assert_eq!(backoff_base_ms(29), 200 * (1u64 << 56));
    assert_eq!(backoff_base_ms(30), u64::MAX);
    assert_eq!(backoff_base_ms(u32::MAX), u64::MAX);
    assert_eq!(backoff_with(2, 7), 807);
    let mut seen = Vec::new();
    for _ in 0..200 {
        let wait = backoff_delay(3);
        assert!((3200..=4000).contains(&wait));
        seen.push(wait);
    }
    seen.sort();
    seen.dedup();
    assert!(seen.len() > 1, "the jitter varies");
}

#[test]
fn health_follows_the_status() {
    let c = client("m");
    assert!(c.health(Ok(200)).is_ok());
    assert!(c.health(Ok(299)).is_ok());
    assert_eq!(
        c.health(Ok(502)).unwrap_err().message(),
        "LLM backend error (HTTP 502): health check failed"
    );
    assert_eq!(
        c.health(Err("down".to_string())).unwrap_err().message(),
        "LLM backend unreachable: down"
    );
}

#[test]
fn model_sizes_prefer_the_exact_tag() {
    let listing = r#"{"models":[
        {"name":"qwen3.5:4b-instruct","size":1},
        {"name":"qwen3.5:4b","size":2},
        {"name":"other:1b","size":3}]}"#;
    assert_eq!(client("qwen3.5:4b").model_size_bytes(listing).unwrap(), Some(2));
    assert_eq!(client("qwen3.5:9b").model_size_bytes(listing).unwrap(), Some(1));
    assert_eq!(client("other").model_size_bytes(listing).unwrap(), Some(3));
    assert_eq!(client("absent").model_size_bytes(listing).unwrap(), None);
    assert_eq!(client("x").model_size_bytes("{}").unwrap(), None);
    assert_eq!(
        client("x")
            .model_size_bytes(r#"{"models":[{"name":"x"},{"name":"x:1","size":4}]}"#)
            .unwrap(),
        None,
        "the exact tag counts even without a size"
    );
    let err = client("x").model_size_bytes("{not json").unwrap_err();
    assert_eq!(
        err.message(),
        "LLM response was not valid JSON: error decoding response body"
    );
}

#[test]
fn requests_carry_prompts_schema_and_settings() {
    let c = client("qwen");
    let req = LlmRequest {
        transactions: vec![Transaction {
            id: "a".to_string(),
            counterparty: "REWE".to_string(),
            purpose: "Einkauf".to_string(),
            amount: Amount {
                sign: Sign::Negative,
                text: "-5".to_string(),
            },
            currency: "EUR".to_string(),
            date: "2026-02-14".to_string(),
        }],
        language: "de".to_string(),
        include_rationale: false,
    };
    let body = c.chat_request(&req, &["Lebensmittel".to_string()]);
    assert_eq!(body.model, "qwen");
    assert_eq!(body.messages.len(), 2);
    assert_eq!(body.messages[0].role, "system");
    assert!(body.messages[0].content.contains("- Lebensmittel\n"));
    assert!(body.messages[0].content.contains("verbatim"));
    assert_eq!(body.messages[1].role, "user");
    assert!(body.messages[1].content.contains("amount=-5; currency=EUR"));
    assert!(!body.stream);
    assert!(!body.think);
    assert_eq!(body.keep_alive, "10m");
    assert_eq!(body.options.num_ctx, 4096);
    assert_eq!(body.options.temperature, 0);
    assert_eq!(body.options.num_predict, 768);
    let value = body.format.into_value();
    assert_eq!(value["type"], "object");
    assert_eq!(value["required"][0], "results");
    let bare = c.chat_request(&req, &[]);
    assert!(!bare.messages[0].content.contains("verbatim"));
    assert_eq!(c.tags_url(), "http://localhost:1/api/tags");
    assert_eq!(c.chat_url(), "http://localhost:1/api/chat");
}

#[test]
fn known_slugs_are_localized_and_other_wording_stands() {
    let t = builtin();
    let said = |category: &str| RawClassification {
        index: 0,
        category: category.to_string(),
        rationale: Some("why".to_string()),
    };
    let label = localize(&t, said("GROCERIES"), "de");
    assert_eq!(label.label, "Lebensmittel");
    assert_eq!(label.rationale.as_deref(), Some("why"));
    assert_eq!(localize(&t, said("groceries"), "en").label, "Groceries");
    assert_eq!(localize(&t, said("Haustierbedarf"), "de").label, "Haustierbedarf");
    let all = localize_all(&t, vec![None, Some(said("refund"))], "de");
    assert!(all[0].is_none());
    assert_eq!(all[1].as_ref().unwrap().label, "Erstattung");
}
