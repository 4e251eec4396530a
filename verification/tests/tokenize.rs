use hex_encoder::error::ErrorKind;
use hex_encoder::grammar::is_embedded_iota;
use hex_encoder::patterns::{is_pattern, is_special_handler};
use hex_encoder::tokenizer::{embedded_list_in_bounds, tokenize_file};

fn table() -> Vec<String> {
    vec![
        "Mind's Reflection".to_string(),
        "Introspection".to_string(),
        "Retrospection".to_string(),
        "Flock's Disintegration".to_string(),
        "Compass' Purification".to_string(),
        "Consideration".to_string(),
    ]
}

fn strings(v: &[&str]) -> Vec<String> {
    v.iter().map(|s| s.to_string()).collect()
}

#[test]
fn tokenizes_patterns_and_braces() {
    let r = tokenize_file(
        "Mind's Reflection\n{\nCompass' Purification\n}\n".to_string(),
        &table(),
    );
    assert_eq!(
        r.unwrap(),
        strings(&["Mind's Reflection", "Introspection", "Compass' Purification", "Retrospection"])
    );
}

#[test]
fn pattern_names_of_braces_become_braces() {
    let r = tokenize_file("Introspection\nRetrospection".to_string(), &table());
    assert_eq!(r.unwrap(), strings(&["Introspection", "Retrospection"]));
}

#[test]
fn empty_braces_expand_to_both() {
    let r = tokenize_file("{}".to_string(), &table());
    assert_eq!(r.unwrap(), strings(&["Introspection", "Retrospection"]));
}

#[test]
fn consideration_goes_on_its_own_line() {
    let r = tokenize_file("Consideration: Mind's Reflection".to_string(), &table());
    assert_eq!(r.unwrap(), strings(&["Consideration", "Mind's Reflection"]));
}

#[test]
fn too_many_retrospections() {
    let e = tokenize_file("}".to_string(), &table()).unwrap_err();
    assert_eq!(e.kind, ErrorKind::UnbalancedRetrospection);
    assert_eq!(e.message(), "Unbalanced intro-retro - too many Retrospections");
}

#[test]
fn too_many_introspections() {
    let e = tokenize_file("{\nMind's Reflection".to_string(), &table()).unwrap_err();
    assert_eq!(e.kind, ErrorKind::UnbalancedIntrospection);
    assert_eq!(e.message(), "Unbalanced intro-retro - too many Introspections");
}

#[test]
fn lone_list_opener_and_closer() {
    let e = tokenize_file("<[".to_string(), &table()).unwrap_err();
    assert_eq!(e.kind, ErrorKind::UnbalancedListOpener);
    let e = tokenize_file("]>".to_string(), &table()).unwrap_err();
    assert_eq!(e.kind, ErrorKind::UnbalancedListCloser);
    assert_eq!(
        e.message(),
        "Unbalanced embedded list iotas - too many embedded list iota closers (]>)."
    );
}

#[test]
fn invalid_line() {
    let e = tokenize_file("Mind's Reflection\nFoo".to_string(), &table()).unwrap_err();
    assert_eq!(e.kind, ErrorKind::InvalidLine);
    assert_eq!(e.detail, "Foo");
    assert_eq!(e.message(), "Invalid line: \"Foo\"");
}

#[test]
fn embedded_list_is_one_token() {
    let file = "Mind's Reflection\n<[1,\n2]>\n".to_string();
    assert!(embedded_list_in_bounds(&file));
    let r = tokenize_file(file, &table());
    assert_eq!(r.unwrap(), strings(&["Mind's Reflection", "<[1,\n2]>"]));
}

#[test]
fn embedded_list_at_the_very_end_cannot_be_taken() {
    assert!(!embedded_list_in_bounds(&"<[1]>".to_string()));
    assert!(embedded_list_in_bounds(&"<[1]".to_string()));
}

#[test]
fn special_handlers_and_embedded_iotas_are_tokens() {
    let r = tokenize_file(
        "Bookkeeper's Gambit: v-v\nNumerical Reflection: -2.5\n<5>\n<(1, 2, 3)>".to_string(),
        &table(),
    );
    assert_eq!(
        r.unwrap(),
        strings(&[
            "Bookkeeper's Gambit: v-v",
            "Numerical Reflection: -2.5",
            "<5>",
            "<(1, 2, 3)>"
        ])
    );
}

#[test]
fn tokens_have_balanced_braces() {
    let tokens = tokenize_file("{\n{\n}\n{}\n}".to_string(), &table()).unwrap();
    let mut depth: i64 = 0;
    for t in &tokens {
        if t == "Introspection" {
            depth += 1;
        } else if t == "Retrospection" {
            depth -= 1;
        }
        assert!(depth >= 0);
    }
    assert_eq!(depth, 0);
}

#[test]
fn digits_are_those_of_the_unicode_class() {
    let r = tokenize_file(
        "Numerical Reflection: \u{663}\n<\u{661}.\u{665}>".to_string(),
        &table(),
    );
    assert_eq!(
        r.unwrap(),
        strings(&["Numerical Reflection: \u{663}", "<\u{661}.\u{665}>"])
    );
}

#[test]
fn other_numeric_characters_are_no_digits() {
    let r = tokenize_file("Numerical Reflection: \u{bd}".to_string(), &table());
    let e = r.unwrap_err();
    assert_eq!(e.kind, ErrorKind::InvalidLine);
    assert_eq!(e.detail, "Numerical Reflection: \u{bd}");
}

#[test]
fn every_token_is_of_a_known_kind() {
    let file = "Mind's Reflection\n{}\nBookkeeper's Gambit: v-\n<3>\n<[1, 2]>\n".to_string();
    let tokens = tokenize_file(file, &table()).unwrap();
    assert_eq!(tokens.len(), 6);
    for t in &tokens {
        assert!(
            is_pattern(t, &table())
                || is_special_handler(t)
                || is_embedded_iota(t)
                || t == "Introspection"
                || t == "Retrospection"
                || t.starts_with("<[")
        );
    }
}
