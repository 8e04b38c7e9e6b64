use transaction_labeller::model::{default_currency, ApiError, LabelOptions};

#[test]
fn language_precedence_request_over_default() {
    let opts = LabelOptions {
        language: Some("EN".to_string()),
    };
    assert_eq!(opts.effective_language("de"), "en");

    let opts_none = LabelOptions::default();
    assert_eq!(opts_none.effective_language("de"), "de");

    let opts_blank = LabelOptions {
        language: Some("  ".to_string()),
    };
    assert_eq!(opts_blank.effective_language("de"), "de");
}

#[test]
fn a_transaction_without_currency_is_in_euro() {
    assert_eq!(default_currency(), "EUR");
}

#[test]
fn errors_have_a_code_a_message_and_no_details() {
    let e = ApiError::new("internal", "no label produced".to_string());
    assert_eq!(e.error.code, "internal");
    assert_eq!(e.error.message, "no label produced");
    assert!(e.error.details.is_empty());
    assert_eq!(ApiError::invalid_request("m".to_string()).error.code, "invalid_request");
    assert_eq!(
        ApiError::backend_unavailable("m".to_string()).error.code,
        "backend_unavailable"
    );
}
