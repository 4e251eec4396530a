use hex_encoder::encoder::{encode, find_unique_patterns, program_size_exec, tokens_to_binary, try_encode};
use hex_encoder::error::ErrorKind;
use hex_encoder::numbers::NumberCode;

fn table() -> Vec<String> {
    vec![
        "Mind's Reflection".to_string(),
        "Introspection".to_string(),
        "Retrospection".to_string(),
        "Flock's Disintegration".to_string(),
        "Compass' Purification".to_string(),
    ]
}

fn strings(v: &[&str]) -> Vec<String> {
    v.iter().map(|s| s.to_string()).collect()
}

fn code(lit: &str, scalar_op: &str, scalar: &str, comp_op: &str, comp: &str) -> NumberCode {
    NumberCode::new(
        lit.to_string(),
        scalar_op.to_string(),
        scalar.to_string(),
        comp_op.to_string(),
        comp.to_string(),
    )
}

fn numbers() -> Vec<NumberCode> {
    vec![
        code("5", "001", "00000101", "00", "00000101"),
        code("1", "001", "00000001", "00", "00000001"),
        code("2", "001", "00000010", "00", "00000010"),
        code("3", "001", "00000011", "00", "00000011"),
    ]
}

#[test]
fn unique_patterns_in_first_use_order() {
    let tokens = strings(&[
        "Compass' Purification",
        "Introspection",
        "Compass' Purification",
        "Numerical Reflection: 5",
        "Unknown",
    ]);
    let u = find_unique_patterns(&tokens, &table());
    assert_eq!(
        u,
        strings(&[
            "Compass' Purification",
            "Introspection",
            "Retrospection",
            "Flock's Disintegration"
        ])
    );
}

#[test]
fn unique_patterns_without_numbers() {
    let tokens = strings(&["Mind's Reflection", "Mind's Reflection"]);
    assert_eq!(find_unique_patterns(&tokens, &table()), strings(&["Mind's Reflection"]));
}

#[test]
fn program_without_local_mappings() {
    let tokens = strings(&["Mind's Reflection", "Compass' Purification"]);
    let unique = strings(&["Mind's Reflection", "Compass' Purification"]);
    let (out, lm) = tokens_to_binary(&tokens, &unique, 3, &table(), &numbers()).unwrap();
    assert_eq!(out, strings(&["00000000", "0011", "00000000", "001", "101", "000", "000"]));
    assert!(lm.is_empty());
}

#[test]
fn program_with_local_mappings() {
    let tokens = strings(&["Mind's Reflection", "Compass' Purification"]);
    let unique = strings(&["Mind's Reflection", "Compass' Purification"]);
    let (out, lm) = tokens_to_binary(&tokens, &unique, 2, &table(), &numbers()).unwrap();
    assert_eq!(
        lm,
        strings(&["Compass' Purification", "Compass' Purification", "Mind's Reflection"])
    );
    assert_eq!(
        out,
        strings(&[
            "00000000", "0010", "00000011", "00000101", "00000101", "00000001", "01", "101",
            "00", "000"
        ])
    );
}

#[test]
fn threshold_wraps_when_too_many_patterns_are_beyond() {
    let tokens = strings(&["Mind's Reflection", "Compass' Purification"]);
    let unique = strings(&["Mind's Reflection", "Compass' Purification"]);
    // One bit addresses no code, so both patterns are beyond it; the
    // threshold then wraps around and adds no second copy.
    let (out, lm) = tokens_to_binary(&tokens, &unique, 1, &table(), &numbers()).unwrap();
    assert_eq!(lm, strings(&["Compass' Purification", "Mind's Reflection"]));
    assert_eq!(
        out,
        strings(&[
            "00000000", "0001", "00000010", "00000101", "00000001", "1", "101", "0", "000"
        ])
    );
}

#[test]
fn embedded_number() {
    let tokens = strings(&["<5>"]);
    let (out, _) = tokens_to_binary(&tokens, &vec![], 3, &table(), &numbers()).unwrap();
    assert_eq!(
        out,
        strings(&["00000000", "0011", "00000000", "000", "001", "00000101", "000", "000"])
    );
}

#[test]
fn missing_number_code() {
    let tokens = strings(&["<7>"]);
    let e = tokens_to_binary(&tokens, &vec![], 3, &table(), &numbers()).unwrap_err();
    assert_eq!(e.kind, ErrorKind::MissingNumberCode);
    assert_eq!(e.detail, "7");
}

#[test]
fn embedded_list() {
    let tokens = strings(&["<[Mind's Reflection, 5]>"]);
    let (out, _) = tokens_to_binary(&tokens, &vec![], 3, &table(), &numbers()).unwrap();
    assert_eq!(
        out,
        strings(&[
            "00000000", "0011", "00000000", "000", "111", "001", "000", "001", "00000101",
            "000", "000", "000", "000"
        ])
    );
}

#[test]
fn embedded_vector() {
    let tokens = strings(&["<( 1 ,2, 3 )>"]);
    let (out, _) = tokens_to_binary(&tokens, &vec![], 3, &table(), &numbers()).unwrap();
    assert_eq!(
        out,
        strings(&[
            "00000000", "0011", "00000000", "000", "110", "00", "00000001", "00", "00000010",
            "00", "00000011", "000", "000"
        ])
    );
}

#[test]
fn bookkeepers_gambit() {
    let tokens = strings(&["Bookkeeper's Gambit: v-v", "Bookkeeper's Gambit: vvvv-"]);
    let (out, _) = tokens_to_binary(&tokens, &vec![], 3, &table(), &numbers()).unwrap();
    assert_eq!(
        out,
        strings(&[
            "00000000",
            "0011",
            "00000000",
            "000",
            "100",
            "0101",
            "000",
            "101",
            "0000000000011110",
            "000",
            "000"
        ])
    );
}

#[test]
fn bookkeepers_gambit_too_long() {
    let tokens = strings(&["Bookkeeper's Gambit: vvvvvvvvvvvvvvvv"]);
    let e = tokens_to_binary(&tokens, &vec![], 3, &table(), &numbers()).unwrap_err();
    assert_eq!(e.kind, ErrorKind::BookkeeperTooLong);
    assert_eq!(
        e.message(),
        "Exceeded maximum Bookkeeper's Gambit length (maximum = 16, found size = 16)."
    );
}

#[test]
fn invalid_bookkeepers_gambit() {
    let tokens = strings(&["Bookkeeper's Gambit: vx"]);
    let e = tokens_to_binary(&tokens, &vec![], 3, &table(), &numbers()).unwrap_err();
    assert_eq!(e.kind, ErrorKind::InvalidBookkeeper);
    assert_eq!(e.message(), "Invalid Bookkeeper's Gambit: \"Bookkeeper's Gambit: vx\"");
}

#[test]
fn numerical_reflection() {
    let tokens = strings(&["Numerical Reflection: 5"]);
    let unique = strings(&["Introspection", "Retrospection", "Flock's Disintegration"]);
    let (out, _) = tokens_to_binary(&tokens, &unique, 3, &table(), &numbers()).unwrap();
    assert_eq!(
        out,
        strings(&[
            "00000000", "0011", "00000000", "010", "000", "001", "00000101", "011", "100",
            "000", "000"
        ])
    );
}

#[test]
fn invalid_numerical_reflection() {
    let tokens = strings(&["Numerical Reflection: 5x"]);
    let e = tokens_to_binary(&tokens, &vec![], 3, &table(), &numbers()).unwrap_err();
    assert_eq!(e.kind, ErrorKind::InvalidNumericalReflection);
}

#[test]
fn invalid_token_and_iota() {
    let e = tokens_to_binary(&strings(&["Foo"]), &vec![], 3, &table(), &numbers()).unwrap_err();
    assert_eq!(e.kind, ErrorKind::InvalidToken);
    assert_eq!(e.message(), "Invalid: Foo");
    let e = tokens_to_binary(&strings(&["<foo>"]), &vec![], 3, &table(), &numbers()).unwrap_err();
    assert_eq!(e.kind, ErrorKind::InvalidIota);
    assert_eq!(e.message(), "\"foo\" is not a valid embedded iota.");
}

#[test]
fn list_errors() {
    let e = tokens_to_binary(&strings(&["<[1,,2]>"]), &vec![], 3, &table(), &numbers())
        .unwrap_err();
    assert_eq!(e.kind, ErrorKind::TooManyCommas);
    let e = tokens_to_binary(&strings(&["<[foo]>"]), &vec![], 3, &table(), &numbers())
        .unwrap_err();
    assert_eq!(e.kind, ErrorKind::InvalidListElement);
    assert_eq!(e.message(), "Invalid list iota element: \"foo\"");
}

#[test]
fn encode_picks_the_shortest_chunk_size() {
    let tokens = strings(&["Mind's Reflection", "Compass' Purification"]);
    let best = encode(&tokens, &table(), &numbers()).unwrap();
    assert_eq!(
        best,
        strings(&[
            "00000000", "0001", "00000010", "00000101", "00000001", "1", "101", "0", "000"
        ])
    );
    assert_eq!(program_size_exec(&best), 44);
    let unique = find_unique_patterns(&tokens, &table());
    let (other, _) = tokens_to_binary(&tokens, &unique, 2, &table(), &numbers()).unwrap();
    assert!(program_size_exec(&best) <= program_size_exec(&other));
}

#[test]
fn program_size_skips_spaces() {
    assert_eq!(program_size_exec(&strings(&["1 0", "  1"])), 3);
}

#[test]
fn encoder_stops_without_the_patterns_a_number_needs() {
    let no_intro = strings(&[
        "Mind's Reflection",
        "Retrospection",
        "Flock's Disintegration",
        "Compass' Purification",
        "Nullary Reflection",
    ]);
    let e = try_encode(&strings(&["Numerical Reflection: 5"]), &no_intro, &numbers()).unwrap_err();
    assert_eq!(e.kind, ErrorKind::NotAPattern);
    assert_eq!(e.message(), "\"Introspection\" is not a pattern.");
    let no_retro = strings(&[
        "Mind's Reflection",
        "Introspection",
        "Flock's Disintegration",
        "Compass' Purification",
        "Nullary Reflection",
    ]);
    let e = try_encode(&strings(&["<[Numerical Reflection: 5]>"]), &no_retro, &numbers())
        .unwrap_err();
    assert_eq!(e.kind, ErrorKind::NotAPattern);
    assert_eq!(e.detail, "Retrospection");
}

#[test]
fn patterns_a_number_needs_are_needed_only_for_numbers() {
    let table = strings(&["Mind's Reflection", "Compass' Purification", "Nullary Reflection"]);
    let program = try_encode(&strings(&["Mind's Reflection"]), &table, &numbers()).unwrap();
    assert_eq!(program, encode(&strings(&["Mind's Reflection"]), &table, &numbers()).unwrap());
    assert!(!program.is_empty());
}

#[test]
fn chunk_sizes_past_the_sign_bit_address_nothing() {
    let tokens = strings(&["Mind's Reflection"]);
    let unique = strings(&["Mind's Reflection"]);
    let (out, lm) = tokens_to_binary(&tokens, &unique, 64, &table(), &numbers()).unwrap();
    assert_eq!(lm, strings(&["Mind's Reflection"]));
    let mut expected = strings(&["00000000", "1000000", "00000001", "00000001"]);
    let one = format!("{}1", "0".repeat(63));
    let zero = "0".repeat(64);
    expected.push(one);
    expected.push(zero);
    expected.push("000".to_string());
    assert_eq!(out, expected);
}

#[test]
fn failures_are_the_same_for_every_chunk_size() {
    let tokens = strings(&["Mind's Reflection", "<[1, Foo]>", "Bar"]);
    let unique = strings(&["Mind's Reflection"]);
    let mut seen = Vec::new();
    for c in 0..6 {
        let e = tokens_to_binary(&tokens, &unique, c, &table(), &numbers()).unwrap_err();
        seen.push((e.kind, e.detail));
    }
    assert!(seen.iter().all(|f| *f == seen[0]));
    assert_eq!(seen[0], (ErrorKind::InvalidListElement, "Foo".to_string()));
}

#[test]
fn order_of_the_patterns_in_use_does_not_matter() {
    let tokens = strings(&["Mind's Reflection", "Compass' Purification", "Mind's Reflection"]);
    let u1 = strings(&["Mind's Reflection", "Compass' Purification"]);
    let u2 = strings(&["Compass' Purification", "Mind's Reflection"]);
    for c in 0..5 {
        assert_eq!(
            tokens_to_binary(&tokens, &u1, c, &table(), &numbers()),
            tokens_to_binary(&tokens, &u2, c, &table(), &numbers())
        );
    }
}
