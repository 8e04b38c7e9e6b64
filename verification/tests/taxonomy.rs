use transaction_labeller::model::Direction;
use transaction_labeller::taxonomy::{builtin, RawCategory, Taxonomy, TaxonomyError};

fn raw(slug: &str, direction: Option<&str>, names: &[(&str, &str)]) -> RawCategory {
    RawCategory {
        slug: slug.to_string(),
        direction: direction.map(|d| d.to_string()),
        names: names
            .iter()
            .map(|(lang, name)| (lang.to_string(), name.to_string()))
            .collect(),
    }
}

fn message(list: Vec<RawCategory>) -> String {
    match Taxonomy::build(list) {
        Ok(_) => panic!("the taxonomy must be refused"),
        Err(e) => e.message(),
    }
}

#[test]
fn builtin_parses_and_has_no_duplicates() {
    let t = builtin();
    assert!(t.len() >= 20);
    let slugs = t.slugs();
    let mut sorted = slugs.clone();
    sorted.sort();
    sorted.dedup();
    assert_eq!(slugs.len(), sorted.len(), "slugs must be unique");
    for s in &slugs {
        assert!(s.chars().all(|c| c.is_ascii_lowercase() || c == '_'));
    }
}

#[test]
fn display_name_fallback_chain() {
    let t = builtin();
    let groceries = t.lookup("groceries").unwrap();
    assert_eq!(groceries.display_name("de"), "Lebensmittel");
    assert_eq!(groceries.display_name("en"), "Groceries");
    // Unknown language falls back to canonical (de)
    assert_eq!(groceries.display_name("fr"), "Lebensmittel");
}

#[test]
fn lookup_ci_is_case_insensitive() {
    let t = builtin();
    assert!(t.lookup_ci("GROCERIES").is_some());
    assert!(t.lookup_ci(" Groceries ").is_some());
    assert!(t.lookup_ci("nonexistent_slug").is_none());
}

#[test]
fn custom_taxonomy_from_json() {
    let t = Taxonomy::build(vec![raw("food", Some("expense"), &[("en", "Food")])]).unwrap();
    assert_eq!(t.len(), 1);
    assert_eq!(
        t.lookup("food").unwrap().display_name("de"),
        "Food",
        "falls back to the only provided name"
    );
    assert_eq!(t.lookup("food").unwrap().direction, Direction::Expense);
}

#[test]
fn missing_direction_rejected_unless_naming_convention() {
    // no direction, slug gives no hint → rejected
    assert!(Taxonomy::build(vec![raw("food", None, &[("en", "Food")])]).is_err());
    // convention fallback: *_income
    let t = Taxonomy::build(vec![raw("my_income", None, &[("en", "My Income")])]).unwrap();
    assert_eq!(t.lookup("my_income").unwrap().direction, Direction::Income);
    // bad direction value → rejected
    assert!(Taxonomy::build(vec![raw("food", Some("sideways"), &[("en", "Food")])]).is_err());
}

#[test]
fn invalid_taxonomies_rejected() {
    // duplicate slug
    let dup = vec![
        raw("a", Some("expense"), &[("en", "A")]),
        raw("a", Some("expense"), &[("en", "B")]),
    ];
    assert!(matches!(Taxonomy::build(dup), Err(TaxonomyError::Invalid(_))));
    // bad slug characters (model-facing enum must stay ASCII)
    let bad = vec![raw("Übertragung", Some("expense"), &[("en", "T")])];
    assert!(Taxonomy::build(bad).is_err());
    // empty
    assert!(Taxonomy::build(vec![]).is_err());
    // no names
    assert!(Taxonomy::build(vec![raw("a", Some("expense"), &[])]).is_err());
}

#[test]
fn faults_are_named() {
    assert_eq!(message(vec![]), "invalid taxonomy: no categories");
    assert_eq!(
        message(vec![raw("  ", Some("income"), &[("en", "A")])]),
        "invalid taxonomy: category 0: empty slug"
    );
    assert_eq!(
        message(vec![raw("A", Some("income"), &[("en", "A")])]),
        "invalid taxonomy: category 0: slug `A` must be lowercase ASCII with underscores"
    );
    assert_eq!(
        message(vec![
            raw("a", Some("income"), &[("en", "A")]),
            raw(" a ", Some("income"), &[("en", "A")]),
        ]),
        "invalid taxonomy: category 1: duplicate slug `a`"
    );
    assert_eq!(
        message(vec![raw("a", Some("income"), &[])]),
        "invalid taxonomy: category 0 (`a`): no names provided"
    );
    assert_eq!(
        message(vec![raw("a", Some("side\"ways"), &[("en", "A")])]),
        "invalid taxonomy: category 0 (`a`): direction must be \"income\" or \"expense\", got \"side\\\"ways\""
    );
    assert_eq!(
        message(vec![raw("a", None, &[("en", "A")])]),
        "invalid taxonomy: category 0 (`a`): missing `direction` (income|expense); it cannot be inferred from the slug"
    );
}

#[test]
fn slug_suffixes_give_the_direction() {
    let t = Taxonomy::build(vec![
        raw("x_income", None, &[("de", "X")]),
        raw("x_expense", None, &[("de", "Y")]),
    ])
    .unwrap();
    assert_eq!(t.lookup("x_income").unwrap().direction, Direction::Income);
    assert_eq!(t.lookup("x_expense").unwrap().direction, Direction::Expense);
    assert!(!t.is_empty());
    assert_eq!(t.iter().len(), 2);
    assert_eq!(t.slugs(), vec!["x_income", "x_expense"]);
}

#[test]
fn no_file_means_the_builtin_taxonomy() {
    let t = Taxonomy::load(None).unwrap();
    assert_eq!(t.slugs(), builtin().slugs());
    let t = Taxonomy::load(Some(vec![raw("food", Some("expense"), &[("en", "Food")])])).unwrap();
    assert_eq!(t.slugs(), vec!["food"]);
}

#[test]
fn builtin_refunds_are_income() {
    let t = builtin();
    assert_eq!(t.lookup("refund").unwrap().direction, Direction::Income);
    assert_eq!(t.lookup("salary_income").unwrap().display_name("de"), "Einkommen");
    assert_eq!(t.lookup("taxes_fees").unwrap().display_name("en"), "Taxes & Fees");
    assert!(t.lookup("Refund").is_none());
}

#[test]
fn case_and_outer_white_space_make_no_difference() {
    let t = builtin();
    for text in ["groceries", "GROCERIES", " gRoCeRiEs\t", "\u{a0}groceries\u{3000}"] {
        assert_eq!(t.lookup_ci(text).unwrap().slug, "groceries");
    }
    for slug in t.slugs() {
        assert_eq!(t.lookup(&slug).unwrap().slug, slug);
        assert_eq!(t.lookup_ci(&slug).unwrap().slug, slug);
        assert_eq!(t.lookup_ci(&slug.to_uppercase()).unwrap().slug, slug);
    }
    assert!(t.lookup_ci("gro ceries").is_none());
    assert!(t.lookup(" groceries").is_none());
}

#[test]
fn the_last_name_of_a_language_counts() {
    let names = [("en", "Old"), ("de", "Alt"), ("en", "New"), ("fr", "Vieux"), ("de", "Neu")];
    let t = Taxonomy::build(vec![raw("a", Some("expense"), &names)]).unwrap();
    let a = t.lookup("a").unwrap();
    assert_eq!(a.display_name("en"), "New");
    assert_eq!(a.display_name("de"), "Neu");
    assert_eq!(a.display_name("fr"), "Vieux");
    assert_eq!(a.display_name("xx"), "Neu", "German before the first name");
    let languages: Vec<&str> = a.names.iter().map(|n| n.0.as_str()).collect();
    assert_eq!(languages, vec!["en", "de", "fr"]);
    let t = Taxonomy::build(vec![raw("a", Some("expense"), &[("en", "E"), ("fr", "F")])]).unwrap();
    assert_eq!(t.lookup("a").unwrap().display_name("xx"), "E");
}

#[test]
fn ascii_case_makes_no_difference_beyond_ascii() {
    let t = builtin();
    // The Kelvin sign is a capital k outside ASCII.
    let t2 = Taxonomy::build(vec![raw("kiosk", Some("expense"), &[("de", "Kiosk")])]).unwrap();
    for text in ["\u{212a}iosk", "\u{212a}IOSK", "\u{a0}\u{212a}IoSK "] {
        assert_eq!(t2.lookup_ci(text).unwrap().slug, "kiosk");
    }
    for (a, b) in [("a\u{3a3}", "A\u{3a3}"), ("\u{3a3}a", "\u{3a3}A"), ("a\u{3a3}b", "A\u{3a3}B")] {
        assert_eq!(a.to_lowercase(), b.to_lowercase());
    }
    assert!(t.lookup_ci("grocerie\u{3a3}").is_none());
    assert!(t.lookup_ci("GROCERIE\u{3a3}").is_none());
}

#[test]
fn a_copy_of_a_taxonomy_says_the_same() {
    let t = builtin();
    let copy = t.clone();
    assert_eq!(copy.slugs(), t.slugs());
    for (a, b) in copy.iter().iter().zip(t.iter()) {
        assert_eq!(a.direction, b.direction);
        assert_eq!(a.names, b.names);
    }
}
