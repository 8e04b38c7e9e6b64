//! The settings of the service and how they follow from environment variables.
use vstd::prelude::*;
use vstd::string::*;

use crate::text;
use crate::text::{decimal_text, is_two_letters, parse_number, strip_trailing_slashes};

verus! {

/// The settings of the service.
#[derive(Debug, Clone)]
pub struct Config {
    pub bind_addr: String,
    pub ollama_url: String,
    pub model: String,
    pub language: String,
    pub concurrency: usize,
    pub micro_batch: usize,
    pub num_ctx: u32,
    pub vram_budget_mb: u64,
    pub request_timeout_secs: u64,
    pub max_retries: u32,
    pub max_batch: usize,
    /// Path of the label-library JSON file; empty disables the library.
    pub label_library: String,
    /// Max library labels injected into a prompt (per language).
    pub library_prompt_max: usize,
}

/// What is wrong with a setting.
#[derive(Debug)]
pub enum ConfigError {
    InvalidValue(String),
}

/// The environment variables that the settings are read from; `None` where a
/// variable is not set.
#[derive(Debug, Clone, Default)]
pub struct Environment {
    /// `TL_BIND_ADDR`
    pub bind_addr: Option<String>,
    /// `TL_OLLAMA_URL`
    pub ollama_url: Option<String>,
    /// `TL_MODEL`
    pub model: Option<String>,
    /// `TL_LANGUAGE`
    pub language: Option<String>,
    /// `TL_CONCURRENCY`
    pub concurrency: Option<String>,
    /// `TL_MICRO_BATCH`
    pub micro_batch: Option<String>,
    /// `TL_NUM_CTX`
    pub num_ctx: Option<String>,
    /// `TL_VRAM_BUDGET_MB`
    pub vram_budget_mb: Option<String>,
    /// `TL_REQUEST_TIMEOUT_SECS`
    pub request_timeout_secs: Option<String>,
    /// `TL_MAX_RETRIES`
    pub max_retries: Option<String>,
    /// `TL_MAX_BATCH`
    pub max_batch: Option<String>,
    /// `TL_LABEL_LIBRARY`
    pub label_library: Option<String>,
    /// `TL_LIBRARY_PROMPT_MAX`
    pub library_prompt_max: Option<String>,
}

impl ConfigError {
    /// The message inside.
    pub open spec fn detail(self) -> Seq<char> {
        match self {
            ConfigError::InvalidValue(m) => m@,
        }
    }

    /// The error as it is shown to the operator.
    pub fn message(&self) -> (r: String)
        ensures
            r@ == "invalid configuration: "@ + self.detail(),
    {
        match self {
            ConfigError::InvalidValue(m) => {
                let mut r = "invalid configuration: ".to_owned();
                r.append(m.as_str());
                r
            },
        }
    }
}

/// Settings that the service can work with: every number within its limits, and
/// a language of two letters.
pub open spec fn in_bounds(cfg: Config) -> bool {
    &&& 1 <= cfg.concurrency <= 64
    &&& 1 <= cfg.micro_batch <= 64
    &&& 512 <= cfg.num_ctx <= 1_048_576
    &&& 256 <= cfg.vram_budget_mb
    &&& 1 <= cfg.request_timeout_secs <= 600
    &&& cfg.max_retries <= 10
    &&& 1 <= cfg.max_batch <= 10_000
    &&& cfg.library_prompt_max <= 1000
    &&& text::is_language_code(cfg.language@)
    &&& cfg.bind_addr@.len() > 0
    &&& cfg.model@.len() > 0
}

impl Default for Config {
    fn default() -> (r: Self)
        ensures
            in_bounds(r),
            r.bind_addr@ == "127.0.0.1:8080"@,
            r.ollama_url@ == "http://127.0.0.1:11434"@,
            r.model@ == "qwen3.8:27b-q4_K_M"@,
            r.language@ == "de"@,
            r.concurrency == 1,
            r.micro_batch == 16,
            r.num_ctx == 4096,
            r.vram_budget_mb == 8192,
            r.request_timeout_secs == 600,
            r.max_retries == 2,
            r.max_batch == 100,
            r.label_library@ == "labels.json"@,
            r.library_prompt_max == 200,
    {
        proof {
            reveal_strlit("127.0.0.1:8080");
            reveal_strlit("qwen3.8:27b-q4_K_M");
            reveal_strlit("de");
        }
        Config {
            bind_addr: "127.0.0.1:8080".to_owned(),
            ollama_url: "http://127.0.0.1:11434".to_owned(),
            model: "qwen3.8:27b-q4_K_M".to_owned(),
            language: "de".to_owned(),
            concurrency: 1,
            micro_batch: 16,
            num_ctx: 4096,
            vram_budget_mb: 8192,
            request_timeout_secs: 600,
            max_retries: 2,
            max_batch: 100,
            label_library: "labels.json".to_owned(),
            library_prompt_max: 200,
        }
    }
}

/// What is wrong with `raw` as a number from `min` to `max`, if anything.
pub open spec fn number_fault(
    name: Seq<char>,
    raw: Seq<char>,
    min: Option<usize>,
    max: Option<usize>,
) -> Option<Seq<char>> {
    match text::number_of(text::trimmed(raw)) {
        None => Some(name + " must be a non-negative integer, got: "@ + raw),
        Some(n) => if min is Some && n < min->0 {
            Some(
                name + " must be >= "@ + text::decimal(min->0 as nat) + ", got: "@
                    + text::decimal(n as nat),
            )
        } else if max is Some && n > max->0 {
            Some(
                name + " must be <= "@ + text::decimal(max->0 as nat) + ", got: "@
                    + text::decimal(n as nat),
            )
        } else {
            None
        },
    }
}

/// The number in `raw`, white space around it left aside, from `min` to `max`.
pub fn parse_usize(name: &str, raw: &str, min: Option<usize>, max: Option<usize>) -> (r: Result<
    usize,
    ConfigError,
>)
    ensures
        match r {
            Ok(n) => number_fault(name@, raw@, min, max) is None && text::number_of(
                text::trimmed(raw@),
            ) == Some(n),
            Err(e) => number_fault(name@, raw@, min, max) == Some(e.detail()),
        },
        r is Ok <==> (exists|n: usize|
            text::number_of(text::trimmed(raw@)) == Some(n) && (min is Some ==> min->0 <= n) && (
            max is Some ==> n <= max->0)),
{
    let v = match parse_number(raw.trim()) {
        Some(v) => v,
        None => {
            let mut m = name.to_owned();
            m.append(" must be a non-negative integer, got: ");
            m.append(raw);
            return Err(ConfigError::InvalidValue(m));
        },
    };
    if let Some(min) = min {
        if v < min {
            let mut m = name.to_owned();
            m.append(" must be >= ");
            m.append(decimal_text(min as u64).as_str());
            m.append(", got: ");
            m.append(decimal_text(v as u64).as_str());
            return Err(ConfigError::InvalidValue(m));
        }
    }
    if let Some(max) = max {
        if v > max {
            let mut m = name.to_owned();
            m.append(" must be <= ");
            m.append(decimal_text(max as u64).as_str());
            m.append(", got: ");
            m.append(decimal_text(v as u64).as_str());
            return Err(ConfigError::InvalidValue(m));
        }
    }
    Ok(v)
}

/// What is wrong with a variable that must hold some text, if it is set.
pub open spec fn text_setting_fault(name: Seq<char>, raw: Option<String>) -> Option<Seq<char>> {
    match text::opt_text(raw) {
        Some(v) if text::trimmed(v).len() == 0 => Some(name + " must not be empty"@),
        _ => None,
    }
}

/// The text of a variable without the white space around it, or the default.
pub open spec fn text_setting_value(raw: Option<String>, default: Seq<char>) -> Seq<char> {
    match text::opt_text(raw) {
        Some(v) => text::trimmed(v),
        None => default,
    }
}

/// What is wrong with a variable that must hold a number, if it is set.
pub open spec fn number_setting_fault(
    name: Seq<char>,
    raw: Option<String>,
    min: Option<usize>,
    max: Option<usize>,
) -> Option<Seq<char>> {
    match text::opt_text(raw) {
        Some(v) => number_fault(name, v, min, max),
        None => None,
    }
}

/// The number of a variable, or the default.
pub open spec fn number_setting_value(raw: Option<String>, default: int) -> int {
    match text::opt_text(raw) {
        Some(v) => text::number_of(text::trimmed(v))->0 as int,
        None => default,
    }
}

/// The language that the variables select.
pub open spec fn language_setting(env: Environment) -> Seq<char> {
    match text::opt_text(env.language) {
        Some(v) => text::lowercase_of(text::trimmed(v)),
        None => "de"@,
    }
}

/// The first of two faults.
pub open spec fn first_fault(a: Option<Seq<char>>, b: Option<Seq<char>>) -> Option<Seq<char>> {
    if a is Some {
        a
    } else {
        b
    }
}

/// The first thing that is wrong with the variables, in the order in which
/// they are looked at, if anything is.
pub open spec fn env_fault(env: Environment) -> Option<Seq<char>> {
    let language = language_setting(env);
    let language_fault = if text::is_language_code(language) {
        None
    } else {
        Some("TL_LANGUAGE must be a 2-letter ISO 639-1 code, got: "@ + language)
    };
    let texts = first_fault(
        text_setting_fault("TL_BIND_ADDR"@, env.bind_addr),
        first_fault(
            text_setting_fault("TL_OLLAMA_URL"@, env.ollama_url),
            first_fault(
                text_setting_fault("TL_MODEL"@, env.model),
                text_setting_fault("TL_LANGUAGE"@, env.language),
            ),
        ),
    );
    let sizes = first_fault(
        number_setting_fault("TL_CONCURRENCY"@, env.concurrency, Some(1), Some(64)),
        first_fault(
            number_setting_fault("TL_MICRO_BATCH"@, env.micro_batch, Some(1), Some(64)),
            first_fault(
                number_setting_fault("TL_NUM_CTX"@, env.num_ctx, Some(512), Some(1_048_576)),
                number_setting_fault("TL_VRAM_BUDGET_MB"@, env.vram_budget_mb, Some(256), None),
            ),
        ),
    );
    let limits = first_fault(
        number_setting_fault(
            "TL_REQUEST_TIMEOUT_SECS"@,
            env.request_timeout_secs,
            Some(1),
            Some(600),
        ),
        first_fault(
            number_setting_fault("TL_MAX_RETRIES"@, env.max_retries, Some(0), Some(10)),
            first_fault(
                number_setting_fault("TL_MAX_BATCH"@, env.max_batch, Some(1), Some(10_000)),
                number_setting_fault(
                    "TL_LIBRARY_PROMPT_MAX"@,
                    env.library_prompt_max,
                    Some(0),
                    Some(1000),
                ),
            ),
        ),
    );
    first_fault(texts, first_fault(sizes, first_fault(limits, language_fault)))
}

/// `raw` without the white space around it, or the default where it is not
/// set.
fn text_setting(name: &str, raw: &Option<String>, default: String) -> (r: Result<
    String,
    ConfigError,
>)
    ensures
        match r {
            Ok(v) => text_setting_fault(name@, *raw) is None && v@ == text_setting_value(
                *raw,
                default@,
            ),
            Err(e) => text_setting_fault(name@, *raw) == Some(e.detail()),
        },
{
    match raw {
        Some(v) => {
            let v = v.trim().to_owned();
            if v.as_str().is_empty() {
                let mut m = name.to_owned();
                m.append(" must not be empty");
                return Err(ConfigError::InvalidValue(m));
            }
            Ok(v)
        },
        None => Ok(default),
    }
}

/// The number in `raw`, or the default where it is not set.
fn number_setting(
    name: &str,
    raw: &Option<String>,
    min: Option<usize>,
    max: Option<usize>,
    default: usize,
) -> (r: Result<usize, ConfigError>)
    ensures
        match r {
            Ok(n) => number_setting_fault(name@, *raw, min, max) is None && n
                == number_setting_value(*raw, default as int) && (n == default || ((min is Some
                ==> min->0 <= n) && (max is Some ==> n <= max->0))),
            Err(e) => number_setting_fault(name@, *raw, min, max) == Some(e.detail()),
        },
{
    match raw {
        Some(v) => parse_usize(name, v.as_str(), min, max),
        None => Ok(default),
    }
}

impl Config {
    /// The settings that the environment variables select: the default where
    /// one is not set, and the first fault where one of them is faulty. What
    /// is accepted is within its limits.
    pub fn from_env(env: &Environment) -> (r: Result<Self, ConfigError>)
        ensures
            match r {
                Ok(cfg) => {
                    &&& env_fault(*env) is None
                    &&& in_bounds(cfg)
                    &&& cfg.bind_addr@ == text_setting_value(env.bind_addr, "127.0.0.1:8080"@)
                    &&& cfg.ollama_url@ == (if env.ollama_url is Some {
                        text::without_trailing_slashes(text::trimmed(env.ollama_url->0@))
                    } else {
                        "http://127.0.0.1:11434"@
                    })
                    &&& cfg.model@ == text_setting_value(env.model, "qwen3.8:27b-q4_K_M"@)
                    &&& cfg.language@ == language_setting(*env)
                    &&& env.language is Some && text::is_language_code(
                        text::trimmed(env.language->0@),
                    ) ==> cfg.language@ == text::ascii_lowercase(text::trimmed(env.language->0@))
                    &&& cfg.concurrency == number_setting_value(env.concurrency, 1)
                    &&& cfg.micro_batch == number_setting_value(env.micro_batch, 16)
                    &&& cfg.num_ctx == number_setting_value(env.num_ctx, 4096)
                    &&& cfg.vram_budget_mb == number_setting_value(env.vram_budget_mb, 8192)
                    &&& cfg.request_timeout_secs == number_setting_value(
                        env.request_timeout_secs,
                        600,
                    )
                    &&& cfg.max_retries == number_setting_value(env.max_retries, 2)
                    &&& cfg.max_batch == number_setting_value(env.max_batch, 100)
                    &&& cfg.label_library@ == text_setting_value(
                        env.label_library,
                        "labels.json"@,
                    )
                    &&& cfg.library_prompt_max == number_setting_value(
                        env.library_prompt_max,
                        200,
                    )
                },
                Err(e) => env_fault(*env) == Some(e.detail()),
            },
            r is Ok <==> is_accepted(*env),
            r matches Ok(cfg) ==> follows(cfg, *env),
    {
        let mut cfg = Config::default();
        proof {
            law_accepted_environments(*env);
            reveal_strlit("de");
        }
        cfg.bind_addr = text_setting("TL_BIND_ADDR", &env.bind_addr, cfg.bind_addr)?;
        let url = text_setting("TL_OLLAMA_URL", &env.ollama_url, cfg.ollama_url.clone())?;
        if env.ollama_url.is_some() {
            cfg.ollama_url = strip_trailing_slashes(url.as_str());
        }
        cfg.model = text_setting("TL_MODEL", &env.model, cfg.model)?;
        let language = text_setting("TL_LANGUAGE", &env.language, cfg.language.clone())?;
        if env.language.is_some() {
            cfg.language = language.to_lowercase();
        }
        cfg.concurrency = number_setting(
            "TL_CONCURRENCY",
            &env.concurrency,
            Some(1),
            Some(64),
            cfg.concurrency,
        )?;
        cfg.micro_batch = number_setting(
            "TL_MICRO_BATCH",
            &env.micro_batch,
            Some(1),
            Some(64),
            cfg.micro_batch,
        )?;
        let num_ctx = number_setting("TL_NUM_CTX", &env.num_ctx, Some(512), Some(1_048_576), 4096)?;
        cfg.num_ctx = num_ctx as u32;
        let vram = number_setting(
            "TL_VRAM_BUDGET_MB",
            &env.vram_budget_mb,
            Some(256),
            None,
            8192,
        )?;
        cfg.vram_budget_mb = vram as u64;
        let timeout = number_setting(
            "TL_REQUEST_TIMEOUT_SECS",
            &env.request_timeout_secs,
            Some(1),
            Some(600),
            600,
        )?;
        cfg.request_timeout_secs = timeout as u64;
        let retries = number_setting("TL_MAX_RETRIES", &env.max_retries, Some(0), Some(10), 2)?;
        cfg.max_retries = retries as u32;
        cfg.max_batch = number_setting(
            "TL_MAX_BATCH",
            &env.max_batch,
            Some(1),
            Some(10_000),
            cfg.max_batch,
        )?;
        if let Some(v) = &env.label_library {
            cfg.label_library = v.trim().to_owned();
        }
        cfg.library_prompt_max = number_setting(
            "TL_LIBRARY_PROMPT_MAX",
            &env.library_prompt_max,
            Some(0),
            Some(1000),
            cfg.library_prompt_max,
        )?;
        if !is_two_letters(cfg.language.as_str()) {
            let mut m = "TL_LANGUAGE must be a 2-letter ISO 639-1 code, got: ".to_owned();
            m.append(cfg.language.as_str());
            return Err(ConfigError::InvalidValue(m));
        }
        Ok(cfg)
    }
}

/// A variable that is not set, or holds a number from `low` to `high`, white space
/// around it left aside.
pub open spec fn holds_number(raw: Option<String>, low: int, high: int) -> bool {
    raw matches Some(v) ==> exists|n: usize|
        text::number_of(text::trimmed(v@)) == Some(n) && low <= n <= high
}

/// A variable that is not set, or holds more than white space.
pub open spec fn holds_text(raw: Option<String>) -> bool {
    raw matches Some(v) ==> exists|i: int| 0 <= i < v@.len() && !text::is_white(#[trigger] v@[i])
}

/// Variables that the service accepts.
pub open spec fn is_accepted(env: Environment) -> bool {
    &&& holds_text(env.bind_addr)
    &&& holds_text(env.ollama_url)
    &&& holds_text(env.model)
    &&& holds_text(env.language)
    &&& env.language matches Some(v) ==> text::is_language_code(
        text::lowercase_of(text::trimmed(v@)),
    )
    &&& holds_number(env.concurrency, 1, 64)
    &&& holds_number(env.micro_batch, 1, 64)
    &&& holds_number(env.num_ctx, 512, 1048576)
    &&& holds_number(env.vram_budget_mb, 256, usize::MAX as int)
    &&& holds_number(env.request_timeout_secs, 1, 600)
    &&& holds_number(env.max_retries, 0, 10)
    &&& holds_number(env.max_batch, 1, 10000)
    &&& holds_number(env.library_prompt_max, 0, 1000)
}

/// `n` is the number that a variable holds, or the default where it is not set.
pub open spec fn is_number_in(n: int, raw: Option<String>, default: int) -> bool {
    match raw {
        Some(v) => text::number_of(text::trimmed(v@)) == Some(n as usize) && 0 <= n <= usize::MAX,
        None => n == default,
    }
}

/// The settings hold what the variables say.
pub open spec fn follows(cfg: Config, env: Environment) -> bool {
    &&& cfg.bind_addr@ == (if env.bind_addr is Some {
        text::trimmed(env.bind_addr->0@)
    } else {
        "127.0.0.1:8080"@
    })
    &&& cfg.model@ == (if env.model is Some {
        text::trimmed(env.model->0@)
    } else {
        "qwen3.8:27b-q4_K_M"@
    })
    &&& cfg.label_library@ == (if env.label_library is Some {
        text::trimmed(env.label_library->0@)
    } else {
        "labels.json"@
    })
    &&& cfg.language@ == (if env.language is Some {
        text::lowercase_of(text::trimmed(env.language->0@))
    } else {
        "de"@
    })
    &&& is_number_in(cfg.concurrency as int, env.concurrency, 1)
    &&& is_number_in(cfg.micro_batch as int, env.micro_batch, 16)
    &&& is_number_in(cfg.num_ctx as int, env.num_ctx, 4096)
    &&& is_number_in(cfg.vram_budget_mb as int, env.vram_budget_mb, 8192)
    &&& is_number_in(cfg.request_timeout_secs as int, env.request_timeout_secs, 600)
    &&& is_number_in(cfg.max_retries as int, env.max_retries, 2)
    &&& is_number_in(cfg.max_batch as int, env.max_batch, 100)
    &&& is_number_in(cfg.library_prompt_max as int, env.library_prompt_max, 200)
}

proof fn lemma_holds_text(name: Seq<char>, raw: Option<String>)
    ensures
        text_setting_fault(name, raw) is None <==> holds_text(raw),
{
    if raw is Some {
        let s = raw->0@;
        let (before, after) = text::law_trimming_takes_white_space_only(s);
        let core = text::trimmed(s);
        assert(s == before + core + after);
        if core.len() > 0 {
            assert(!text::is_white(core[0]));
            assert(s[before.len() as int] == core[0]);
        } else {
            assert forall|i: int| 0 <= i < s.len() implies text::is_white(#[trigger] s[i]) by {
                if i < before.len() {
                    assert(s[i] == before[i]);
                } else {
                    assert(s[i] == after[i - before.len()]);
                }
            }
        }
    }
}

proof fn lemma_holds_number(
    name: Seq<char>,
    raw: Option<String>,
    min: Option<usize>,
    max: Option<usize>,
    low: int,
    high: int,
)
    requires
        min is Some && low == min->0,
        high == (if max is Some {
            max->0 as int
        } else {
            usize::MAX as int
        }),
    ensures
        number_setting_fault(name, raw, min, max) is None <==> holds_number(raw, low, high),
{
    if raw is Some {
        let found = text::number_of(text::trimmed(raw->0@));
        if found is Some {
            assert(found == Some(found->0));
        }
    }
}

/// The service starts exactly on variables that are not set or hold what they
/// should: text that is not blank, a language of two letters, and numbers within
/// their limits.
pub proof fn law_accepted_environments(env: Environment)
    ensures
        env_fault(env) is None <==> is_accepted(env),
{
    reveal_strlit("de");
    lemma_holds_text("TL_BIND_ADDR"@, env.bind_addr);
    lemma_holds_text("TL_OLLAMA_URL"@, env.ollama_url);
    lemma_holds_text("TL_MODEL"@, env.model);
    lemma_holds_text("TL_LANGUAGE"@, env.language);
    lemma_holds_number("TL_CONCURRENCY"@, env.concurrency, Some(1), Some(64), 1, 64);
    lemma_holds_number("TL_MICRO_BATCH"@, env.micro_batch, Some(1), Some(64), 1, 64);
    lemma_holds_number("TL_NUM_CTX"@, env.num_ctx, Some(512), Some(1048576), 512, 1048576);
    lemma_holds_number("TL_VRAM_BUDGET_MB"@, env.vram_budget_mb, Some(256), None, 256, usize::MAX as int);
    lemma_holds_number("TL_REQUEST_TIMEOUT_SECS"@, env.request_timeout_secs, Some(1), Some(600), 1, 600);
    lemma_holds_number("TL_MAX_RETRIES"@, env.max_retries, Some(0), Some(10), 0, 10);
    lemma_holds_number("TL_MAX_BATCH"@, env.max_batch, Some(1), Some(10000), 1, 10000);
    lemma_holds_number("TL_LIBRARY_PROMPT_MAX"@, env.library_prompt_max, Some(0), Some(1000), 0, 1000);
}

/// Whether variable `k` is at fault, in the order in which they are looked at.
pub open spec fn is_faulty(env: Environment, k: int) -> bool {
    if k == 0 {
        !holds_text(env.bind_addr)
    } else if k == 1 {
        !holds_text(env.ollama_url)
    } else if k == 2 {
        !holds_text(env.model)
    } else if k == 3 {
        !holds_text(env.language)
    } else if k == 4 {
        !holds_number(env.concurrency, 1, 64)
    } else if k == 5 {
        !holds_number(env.micro_batch, 1, 64)
    } else if k == 6 {
        !holds_number(env.num_ctx, 512, 1048576)
    } else if k == 7 {
        !holds_number(env.vram_budget_mb, 256, usize::MAX as int)
    } else if k == 8 {
        !holds_number(env.request_timeout_secs, 1, 600)
    } else if k == 9 {
        !holds_number(env.max_retries, 0, 10)
    } else if k == 10 {
        !holds_number(env.max_batch, 1, 10000)
    } else if k == 11 {
        !holds_number(env.library_prompt_max, 0, 1000)
    } else if k == 12 {
        env.language is Some && !text::is_language_code(text::lowercase_of(text::trimmed(env.language->0@)))
    } else {
        false
    }
}

/// The name of variable `k`.
pub open spec fn variable_name(k: int) -> Seq<char> {
    if k == 0 {
        "TL_BIND_ADDR"@
    } else if k == 1 {
        "TL_OLLAMA_URL"@
    } else if k == 2 {
        "TL_MODEL"@
    } else if k == 3 {
        "TL_LANGUAGE"@
    } else if k == 4 {
        "TL_CONCURRENCY"@
    } else if k == 5 {
        "TL_MICRO_BATCH"@
    } else if k == 6 {
        "TL_NUM_CTX"@
    } else if k == 7 {
        "TL_VRAM_BUDGET_MB"@
    } else if k == 8 {
        "TL_REQUEST_TIMEOUT_SECS"@
    } else if k == 9 {
        "TL_MAX_RETRIES"@
    } else if k == 10 {
        "TL_MAX_BATCH"@
    } else if k == 11 {
        "TL_LIBRARY_PROMPT_MAX"@
    } else if k == 12 {
        "TL_LANGUAGE"@
    } else {
        Seq::empty()
    }
}

/// The first variable at fault is the one that is reported, by name.
#[verifier::rlimit(50)]
pub proof fn law_first_faulty_variable_is_named(env: Environment, k: int)
    requires
        is_faulty(env, k),
        forall|j: int| 0 <= j < k ==> !(#[trigger] is_faulty(env, j)),
    ensures
        env_fault(env) matches Some(m) && text::occurs_at(m, variable_name(k) + " must "@, 0),
{
    reveal_strlit("de");
    reveal_strlit(" must ");
    reveal_strlit(" must not be empty");
    reveal_strlit(" must be a non-negative integer, got: ");
    reveal_strlit(" must be >= ");
    reveal_strlit(" must be <= ");
    reveal_strlit("TL_LANGUAGE");
    reveal_strlit("TL_LANGUAGE must be a 2-letter ISO 639-1 code, got: ");
    lemma_holds_text("TL_BIND_ADDR"@, env.bind_addr);
    lemma_text_fault_names("TL_BIND_ADDR"@, env.bind_addr);
    lemma_holds_text("TL_OLLAMA_URL"@, env.ollama_url);
    lemma_text_fault_names("TL_OLLAMA_URL"@, env.ollama_url);
    lemma_holds_text("TL_MODEL"@, env.model);
    lemma_text_fault_names("TL_MODEL"@, env.model);
    lemma_holds_text("TL_LANGUAGE"@, env.language);
    lemma_text_fault_names("TL_LANGUAGE"@, env.language);
    lemma_holds_number("TL_CONCURRENCY"@, env.concurrency, Some(1), Some(64), 1, 64);
    lemma_number_fault_names("TL_CONCURRENCY"@, env.concurrency, Some(1), Some(64));
    lemma_holds_number("TL_MICRO_BATCH"@, env.micro_batch, Some(1), Some(64), 1, 64);
    lemma_number_fault_names("TL_MICRO_BATCH"@, env.micro_batch, Some(1), Some(64));
    lemma_holds_number("TL_NUM_CTX"@, env.num_ctx, Some(512), Some(1048576), 512, 1048576);
    lemma_number_fault_names("TL_NUM_CTX"@, env.num_ctx, Some(512), Some(1048576));
    lemma_holds_number("TL_VRAM_BUDGET_MB"@, env.vram_budget_mb, Some(256), None, 256, usize::MAX as int);
    lemma_number_fault_names("TL_VRAM_BUDGET_MB"@, env.vram_budget_mb, Some(256), None);
    lemma_holds_number("TL_REQUEST_TIMEOUT_SECS"@, env.request_timeout_secs, Some(1), Some(600), 1, 600);
    lemma_number_fault_names("TL_REQUEST_TIMEOUT_SECS"@, env.request_timeout_secs, Some(1), Some(600));
    lemma_holds_number("TL_MAX_RETRIES"@, env.max_retries, Some(0), Some(10), 0, 10);
    lemma_number_fault_names("TL_MAX_RETRIES"@, env.max_retries, Some(0), Some(10));
    lemma_holds_number("TL_MAX_BATCH"@, env.max_batch, Some(1), Some(10000), 1, 10000);
    lemma_number_fault_names("TL_MAX_BATCH"@, env.max_batch, Some(1), Some(10000));
    lemma_holds_number("TL_LIBRARY_PROMPT_MAX"@, env.library_prompt_max, Some(0), Some(1000), 0, 1000);
    lemma_number_fault_names("TL_LIBRARY_PROMPT_MAX"@, env.library_prompt_max, Some(0), Some(1000));
    assert(0 < k ==> !is_faulty(env, 0));
    assert(1 < k ==> !is_faulty(env, 1));
    assert(2 < k ==> !is_faulty(env, 2));
    assert(3 < k ==> !is_faulty(env, 3));
    assert(4 < k ==> !is_faulty(env, 4));
    assert(5 < k ==> !is_faulty(env, 5));
    assert(6 < k ==> !is_faulty(env, 6));
    assert(7 < k ==> !is_faulty(env, 7));
    assert(8 < k ==> !is_faulty(env, 8));
    assert(9 < k ==> !is_faulty(env, 9));
    assert(10 < k ==> !is_faulty(env, 10));
    assert(11 < k ==> !is_faulty(env, 11));
    assert(12 < k ==> !is_faulty(env, 12));
    if k == 12 {
        let m = env_fault(env)->0;
        assert(m.subrange(0, 17) =~= variable_name(k) + " must "@);
    }
}

proof fn lemma_text_fault_names(name: Seq<char>, raw: Option<String>)
    ensures
        text_setting_fault(name, raw) matches Some(m) ==> text::occurs_at(m, name + " must "@, 0),
{
    reveal_strlit(" must ");
    reveal_strlit(" must not be empty");
    let m = name + " must not be empty"@;
    assert(m.subrange(0, (name.len() + 6) as int) =~= name + " must "@);
}

proof fn lemma_number_fault_names(
    name: Seq<char>,
    raw: Option<String>,
    min: Option<usize>,
    max: Option<usize>,
)
    ensures
        number_setting_fault(name, raw, min, max) matches Some(m) ==> text::occurs_at(
            m,
            name + " must "@,
            0,
        ),
{
    reveal_strlit(" must ");
    reveal_strlit(" must be a non-negative integer, got: ");
    reveal_strlit(" must be >= ");
    reveal_strlit(" must be <= ");
    if let Some(m) = number_setting_fault(name, raw, min, max) {
        assert(m.subrange(0, (name.len() + 6) as int) =~= name + " must "@);
    }
}

/// A number is refused with what it should be and what it is: the limit that it
/// breaks and the number itself, or the text where it is none.
pub proof fn law_refused_numbers_are_shown(
    name: Seq<char>,
    raw: Seq<char>,
    min: Option<usize>,
    max: Option<usize>,
    n: usize,
)
    ensures
        text::number_of(text::trimmed(raw)) is None ==> number_fault(name, raw, min, max) == Some(
            name + " must be a non-negative integer, got: "@ + raw,
        ),
        text::number_of(text::trimmed(raw)) == Some(n) && min is Some && n < min->0
            ==> number_fault(name, raw, min, max) == Some(
            name + " must be >= "@ + text::decimal(min->0 as nat) + ", got: "@ + text::decimal(
                n as nat,
            ),
        ),
        text::number_of(text::trimmed(raw)) == Some(n) && (min is Some ==> min->0 <= n)
            && max is Some && n > max->0 ==> number_fault(name, raw, min, max) == Some(
            name + " must be <= "@ + text::decimal(max->0 as nat) + ", got: "@ + text::decimal(
                n as nat,
            ),
        ),
        text::number_of(text::trimmed(raw)) == Some(n) && (min is Some ==> min->0 <= n) && (
        max is Some ==> n <= max->0) ==> number_fault(name, raw, min, max) is None,
{
}

} // verus!
