use transaction_labeller::config::{parse_usize, Config, ConfigError, Environment};

fn message(r: Result<Config, ConfigError>) -> String {
    match r {
        Ok(_) => panic!("the settings must be refused"),
        Err(e) => e.message(),
    }
}

fn set(s: &str) -> Option<String> {
    Some(s.to_string())
}

#[test]
fn defaults_are_sane() {
    let cfg = Config::default();
    assert_eq!(cfg.model, "qwen3.8:27b-q4_K_M");
    assert_eq!(cfg.concurrency, 1);
    assert_eq!(cfg.micro_batch, 16);
    assert_eq!(cfg.num_ctx, 4096);
    assert_eq!(cfg.language, "de");
    assert_eq!(cfg.label_library, "labels.json");
    assert_eq!(cfg.library_prompt_max, 200);
    // Hybrid CPU+GPU inference: the 27B model (18 GB at Q4_K_M) cannot fit
    // into the 8 GB VRAM budget, so the advisory check is expected to warn.
    assert!(cfg.vram_budget_mb >= 8192);
    // Hybrid decode is slow (~3-5 tok/s); each attempt needs a generous
    // timeout or every call degrades to the fallback label.
    assert!(cfg.request_timeout_secs >= 600);
}

#[test]
fn parse_usize_rejects_garbage() {
    assert!(parse_usize("X", "abc", None, None).is_err());
    assert!(parse_usize("X", "-1", None, None).is_err());
    assert!(parse_usize("X", "10", Some(20), None).is_err());
    assert!(parse_usize("X", "10", None, Some(5)).is_err());
    assert_eq!(parse_usize("X", " 42 ", None, None).unwrap(), 42);
}

#[test]
fn library_config_from_env() {
    let mut env = Environment {
        language: set("en"),
        label_library: set("/tmp/my-labels.json"),
        library_prompt_max: set("50"),
        ..Environment::default()
    };
    let cfg = Config::from_env(&env).unwrap();
    assert_eq!(cfg.label_library, "/tmp/my-labels.json");
    assert_eq!(cfg.library_prompt_max, 50);
    // Empty path disables the library.
    env.label_library = set("");
    let cfg = Config::from_env(&env).unwrap();
    assert_eq!(cfg.label_library, "");
}

#[test]
fn language_must_be_iso_code() {
    let mut env = Environment {
        language: set("german"),
        ..Environment::default()
    };
    assert!(Config::from_env(&env).is_err());
    env.language = set("EN");
    let cfg = Config::from_env(&env).unwrap();
    assert_eq!(cfg.language, "en");
}

#[test]
fn nothing_set_gives_the_defaults() {
    let cfg = Config::from_env(&Environment::default()).unwrap();
    let default = Config::default();
    assert_eq!(cfg.bind_addr, default.bind_addr);
    assert_eq!(cfg.ollama_url, default.ollama_url);
    assert_eq!(cfg.model, default.model);
    assert_eq!(cfg.language, default.language);
    assert_eq!(cfg.concurrency, default.concurrency);
    assert_eq!(cfg.micro_batch, default.micro_batch);
    assert_eq!(cfg.num_ctx, default.num_ctx);
    assert_eq!(cfg.vram_budget_mb, default.vram_budget_mb);
    assert_eq!(cfg.request_timeout_secs, default.request_timeout_secs);
    assert_eq!(cfg.max_retries, default.max_retries);
    assert_eq!(cfg.max_batch, default.max_batch);
    assert_eq!(cfg.label_library, default.label_library);
    assert_eq!(cfg.library_prompt_max, default.library_prompt_max);
}

#[test]
fn every_variable_is_read() {
    let env = Environment {
        bind_addr: set(" 0.0.0.0:9000 "),
        ollama_url: set(" http://gpu:11434// "),
        model: set("qwen3.5:4b"),
        language: set("Fr"),
        concurrency: set("4"),
        micro_batch: set("8"),
        num_ctx: set("8192"),
        vram_budget_mb: set("16384"),
        request_timeout_secs: set("30"),
        max_retries: set("0"),
        max_batch: set("+10000"),
        label_library: set(" labels2.json "),
        library_prompt_max: set("0"),
    };
    let cfg = Config::from_env(&env).unwrap();
    assert_eq!(cfg.bind_addr, "0.0.0.0:9000");
    assert_eq!(cfg.ollama_url, "http://gpu:11434");
    assert_eq!(cfg.model, "qwen3.5:4b");
    assert_eq!(cfg.language, "fr");
    assert_eq!(cfg.concurrency, 4);
    assert_eq!(cfg.micro_batch, 8);
    assert_eq!(cfg.num_ctx, 8192);
    assert_eq!(cfg.vram_budget_mb, 16384);
    assert_eq!(cfg.request_timeout_secs, 30);
    assert_eq!(cfg.max_retries, 0);
    assert_eq!(cfg.max_batch, 10000);
    assert_eq!(cfg.label_library, "labels2.json");
    assert_eq!(cfg.library_prompt_max, 0);
}

#[test]
fn settings_out_of_bounds_are_refused() {
    let env = Environment {
        micro_batch: set("65"),
        ..Environment::default()
    };
    assert!(message(Config::from_env(&env)).starts_with("invalid configuration: TL_MICRO_BATCH"));
    let env = Environment {
        micro_batch: set("0"),
        ..Environment::default()
    };
    assert!(Config::from_env(&env).is_err());
    let env = Environment {
        max_retries: set("11"),
        ..Environment::default()
    };
    assert!(message(Config::from_env(&env)).contains("TL_MAX_RETRIES"));
    let env = Environment {
        num_ctx: set("99999999999999999999999"),
        ..Environment::default()
    };
    assert!(message(Config::from_env(&env)).contains("TL_NUM_CTX"));
}

#[test]
fn blank_settings_are_refused() {
    let env = Environment {
        model: set("   "),
        ..Environment::default()
    };
    assert_eq!(
        message(Config::from_env(&env)),
        "invalid configuration: TL_MODEL must not be empty"
    );
}

#[test]
fn the_first_fault_is_reported() {
    let env = Environment {
        concurrency: set("none"),
        max_batch: set("none"),
        language: set("german"),
        ..Environment::default()
    };
    assert!(message(Config::from_env(&env)).contains("TL_CONCURRENCY"));
}
