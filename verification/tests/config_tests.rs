use git_identity_manager::codec::{load_from_text, parse_file_text, to_file_text};
use git_identity_manager::ident::{derive_key, is_whitespace_char, Identity};
use git_identity_manager::menu::{
    add_identity, apply_outcome, classify_choice, parse_index, select_identity, Choice, Selection,
};
use git_identity_manager::registry::Config;

fn identity(name: &str, email: &str) -> Identity {
    Identity { name: name.to_string(), email: email.to_string() }
}

fn config_of(entries: &[(&str, &str)]) -> Config {
    let mut c = Config::empty();
    for (name, email) in entries {
        let key = derive_key(name);
        c.insert(key, identity(name, email));
    }
    c
}

#[test]
fn derive_key_replaces_each_whitespace_character() {
    assert_eq!(derive_key("Jane Q Doe"), "Jane_Q_Doe");
    assert_eq!(derive_key("a\tb\nc"), "a_b_c");
    assert_eq!(derive_key("two  spaces"), "two__spaces");
}

#[test]
fn derive_key_keeps_plain_names_unchanged() {
    assert_eq!(derive_key("Ada_Lovelace"), "Ada_Lovelace");
    assert_eq!(derive_key("nospace-punct.ok!"), "nospace-punct.ok!");
    assert_eq!(derive_key(""), "");
}

#[test]
fn derive_key_is_idempotent() {
    for name in ["Ada Lovelace", "a b  c", "plain", "\u{2003}wide\u{00A0}space"] {
        let once = derive_key(name);
        let twice = derive_key(&once);
        assert_eq!(once, twice);
    }
}

#[test]
fn unicode_whitespace_is_normalized() {
    assert!(is_whitespace_char('\u{2003}'));
    assert!(is_whitespace_char('\u{00A0}'));
    assert!(!is_whitespace_char('_'));
    assert_eq!(derive_key("a\u{2003}b"), "a_b");
}

#[test]
fn serialized_layout_is_exact() {
    let mut c = Config::empty();
    let apply = add_identity(&mut c, "Ada Lovelace".to_string(), "ada@example.com".to_string());
    assert_eq!(
        to_file_text(&c),
        "[identities.Ada_Lovelace]\nname = \"Ada Lovelace\"\nemail = \"ada@example.com\"\n\n"
    );
    assert_eq!(
        apply,
        Some(("Ada Lovelace".to_string(), "ada@example.com".to_string()))
    );
}

#[test]
fn add_with_empty_field_is_stored_but_not_applied() {
    let mut c = Config::empty();
    let apply = add_identity(&mut c, "Ada Lovelace".to_string(), "".to_string());
    assert!(apply.is_none());
    assert_eq!(c.len(), 1);
}

#[test]
fn round_trip_empty_config() {
    let c = Config::empty();
    let text = to_file_text(&c);
    assert_eq!(text, "");
    let parsed = parse_file_text(&text).expect("empty text parses");
    assert_eq!(parsed.len(), 0);
}

#[test]
fn round_trip_single_entry() {
    let c = config_of(&[("Ada Lovelace", "ada@example.com")]);
    let text = to_file_text(&c);
    let parsed = parse_file_text(&text).expect("serialized text parses");
    assert_eq!(to_file_text(&parsed), text);
    assert_eq!(parsed.len(), 1);
    assert_eq!(parsed.key_at(0).as_str(), "Ada_Lovelace");
    assert_eq!(parsed.name_at(0).as_str(), "Ada Lovelace");
    assert_eq!(parsed.email_at(0).as_str(), "ada@example.com");
}

#[test]
fn round_trip_many_entries_with_punctuation() {
    let c = config_of(&[
        ("Bob Smith", "bob@work.example"),
        ("Ada Lovelace", "ada@example.com"),
        ("J. Random-Hacker, Jr.", "jr+git@example.org"),
        ("odd'chars&here", "x@y"),
    ]);
    let text = to_file_text(&c);
    let parsed = parse_file_text(&text).expect("serialized text parses");
    assert_eq!(parsed.len(), c.len());
    for i in 0..c.len() {
        assert_eq!(parsed.key_at(i), c.key_at(i));
        assert_eq!(parsed.name_at(i), c.name_at(i));
        assert_eq!(parsed.email_at(i), c.email_at(i));
    }
}

#[test]
fn insert_overwrites_same_key() {
    let mut c = config_of(&[("Ada Lovelace", "old@example.com")]);
    c.insert(derive_key("Ada Lovelace"), identity("Ada Lovelace", "new@example.com"));
    assert_eq!(c.len(), 1);
    assert_eq!(c.email_at(0).as_str(), "new@example.com");
}

#[test]
fn colliding_names_keep_last_write() {
    let mut c = Config::empty();
    add_identity(&mut c, "A B".to_string(), "first@example.com".to_string());
    add_identity(&mut c, "A_B".to_string(), "second@example.com".to_string());
    assert_eq!(c.len(), 1);
    assert_eq!(c.key_at(0).as_str(), "A_B");
    assert_eq!(c.email_at(0).as_str(), "second@example.com");
}

#[test]
fn loading_nothing_gives_empty_config() {
    let c = load_from_text(None);
    assert_eq!(c.len(), 0);
    assert_eq!(to_file_text(&c), "");
}

#[test]
fn loading_malformed_text_gives_empty_config() {
    for bad in [
        "not a config at all",
        "[identities.A]\nname = \"a\"\n",
        "[identities.A]\nemail = \"a\"\nname = \"b\"\n\n",
        "[identities.A]\nname = \"a\"\nemail = \"b\"\n",
        "[other.A]\nname = \"a\"\nemail = \"b\"\n\n",
    ] {
        let c = load_from_text(Some(bad));
        assert_eq!(c.len(), 0, "text {:?} should be rejected", bad);
    }
}

#[test]
fn loading_duplicate_keys_gives_empty_config() {
    let section = "[identities.A]\nname = \"a\"\nemail = \"b\"\n\n";
    let doubled = format!("{section}{section}");
    let c = load_from_text(Some(&doubled));
    assert_eq!(c.len(), 0);
}

#[test]
fn loading_well_formed_text_recovers_the_table() {
    let stored = config_of(&[("Bob Smith", "bob@work.example"), ("Ada Lovelace", "ada@example.com")]);
    let text = to_file_text(&stored);
    let c = load_from_text(Some(&text));
    assert_eq!(c.len(), 2);
    assert_eq!(to_file_text(&c), text);
}

#[test]
fn sorted_keys_are_in_strict_lexicographic_order() {
    let c = config_of(&[
        ("Bob Smith", "bob@work.example"),
        ("Ada Lovelace", "ada@example.com"),
        ("carol", "carol@example.com"),
    ]);
    let keys = c.sorted_keys();
    assert_eq!(keys, vec!["Ada_Lovelace", "Bob_Smith", "carol"]);
}

#[test]
fn selection_resolves_against_sorted_order() {
    let c = config_of(&[("Bob Smith", "bob@work.example"), ("Ada Lovelace", "ada@example.com")]);
    let first = c.get_by_index(1).expect("index 1 is valid");
    assert_eq!(first.name, "Ada Lovelace");
    assert_eq!(first.email, "ada@example.com");
    let second = c.get_by_index(2).expect("index 2 is valid");
    assert_eq!(second.name, "Bob Smith");
    assert!(c.get_by_index(0).is_err());
    assert!(c.get_by_index(3).is_err());
}

#[test]
fn invalid_selection_tokens_are_rejected_without_change() {
    let c = config_of(&[("Bob Smith", "bob@work.example"), ("Ada Lovelace", "ada@example.com")]);
    let before = to_file_text(&c);
    for token in ["0", "99", "x", "", "1x", "-1"] {
        match select_identity(&c, token) {
            Selection::Invalid => {}
            Selection::Chosen(id) => panic!("token {:?} chose {}", token, id.name),
        }
    }
    assert_eq!(to_file_text(&c), before);
}

#[test]
fn valid_selection_token_chooses_the_sorted_entry() {
    let c = config_of(&[("Bob Smith", "bob@work.example"), ("Ada Lovelace", "ada@example.com")]);
    match select_identity(&c, "1") {
        Selection::Chosen(id) => {
            assert_eq!(id.name, "Ada Lovelace");
            assert_eq!(id.email, "ada@example.com");
        }
        Selection::Invalid => panic!("token 1 should be valid"),
    }
}

#[test]
fn parse_index_accepts_digits_and_rejects_the_rest() {
    assert_eq!(parse_index("1"), Some(1));
    assert_eq!(parse_index("42"), Some(42));
    assert_eq!(parse_index("007"), Some(7));
    assert_eq!(parse_index(""), None);
    assert_eq!(parse_index("x"), None);
    assert_eq!(parse_index("4 2"), None);
    assert_eq!(parse_index("+1"), None);
    assert_eq!(parse_index("99999999999999999999999999999999"), None);
}

#[test]
fn menu_choices_are_classified_case_insensitively() {
    assert_eq!(classify_choice("q"), Choice::Quit);
    assert_eq!(classify_choice("Q"), Choice::Quit);
    assert_eq!(classify_choice("a"), Choice::Add);
    assert_eq!(classify_choice("A"), Choice::Add);
    assert_eq!(classify_choice("1"), Choice::Select);
    assert_eq!(classify_choice("qq"), Choice::Select);
    assert_eq!(classify_choice(""), Choice::Select);
}

#[test]
fn applying_needs_both_invocations_to_succeed() {
    assert!(apply_outcome(true, true).is_ok());
    for (a, b) in [(true, false), (false, true), (false, false)] {
        let err = apply_outcome(a, b).expect_err("one failure fails the application");
        assert_eq!(
            err.message,
            "Failed to set git identity. Make sure you're in a Git repository."
        );
    }
}

#[test]
fn serialized_text_is_valid_toml_with_the_same_fields() {
    let c = config_of(&[("Bob Smith", "bob@work.example"), ("Ada Lovelace", "ada@example.com")]);
    let text = to_file_text(&c);
    let value: toml::Value = toml::from_str(&text).expect("output is valid TOML");
    let table = value.get("identities").and_then(|v| v.as_table()).expect("identities table");
    assert_eq!(table.len(), 2);
    let ada = table.get("Ada_Lovelace").and_then(|v| v.as_table()).expect("Ada section");
    assert_eq!(ada.get("name").and_then(|v| v.as_str()), Some("Ada Lovelace"));
    assert_eq!(ada.get("email").and_then(|v| v.as_str()), Some("ada@example.com"));
    let bob = table.get("Bob_Smith").and_then(|v| v.as_table()).expect("Bob section");
    assert_eq!(bob.get("name").and_then(|v| v.as_str()), Some("Bob Smith"));
}
