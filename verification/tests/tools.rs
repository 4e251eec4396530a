use hex_encoder::binary::{ceil_log2_exec, floor_log2_exec, pad_0_upto, to_binary, to_decimal};
use hex_encoder::patterns::{
    is_pattern, is_special_handler, parse_pattern_list, patterns_bits, patterns_len,
    PatternListError,
};
use hex_encoder::used_types::{Bits, Chunked, Iter, STRIP};

fn strings(v: &[&str]) -> Vec<String> {
    v.iter().map(|s| s.to_string()).collect()
}

fn chars(s: &str) -> Vec<char> {
    s.chars().collect()
}

#[test]
fn padding_binary_numbers() {
    assert_eq!(pad_0_upto(5, 8), chars("00000101"));
    assert_eq!(pad_0_upto(5, 2), chars("101"));
    assert_eq!(pad_0_upto(0, 0), chars("0"));
    assert_eq!(pad_0_upto(0, 3), chars("000"));
}

#[test]
fn binary_and_decimal_digits() {
    assert_eq!(to_binary(10), chars("1010"));
    assert_eq!(to_decimal(1024), chars("1024"));
    assert_eq!(to_decimal(0), chars("0"));
}

#[test]
fn logarithms() {
    assert_eq!(ceil_log2_exec(5), 3);
    assert_eq!(ceil_log2_exec(4), 2);
    assert_eq!(ceil_log2_exec(1), 0);
    assert_eq!(ceil_log2_exec(0), 0);
    assert_eq!(floor_log2_exec(5), 2);
    assert_eq!(floor_log2_exec(8), 3);
    assert_eq!(floor_log2_exec(0), 0);
}

#[test]
fn pattern_table() {
    let t = strings(&["A", "B", "C", "D", "E"]);
    assert!(is_pattern(&"C".to_string(), &t));
    assert!(!is_pattern(&"F".to_string(), &t));
    assert_eq!(patterns_len(&t), 5);
    assert_eq!(patterns_bits(&t), 3);
    assert_eq!(patterns_bits(&strings(&["A"])), 0);
}

#[test]
fn special_handlers() {
    assert!(is_special_handler(&"Bookkeeper's Gambit: v--v".to_string()));
    assert!(!is_special_handler(&"Bookkeeper's Gambit: ".to_string()));
    assert!(is_special_handler(&"Numerical Reflection: -12.5".to_string()));
    assert!(!is_special_handler(&"Numerical Reflection: 1.".to_string()));
    assert!(!is_special_handler(&"Numerical Reflection: 1.2.3".to_string()));
}

#[test]
fn pattern_list_from_json() {
    assert_eq!(
        parse_pattern_list("[\"Mind's Reflection\", \"Introspection\"]"),
        Ok(strings(&["Mind's Reflection", "Introspection"]))
    );
    assert_eq!(parse_pattern_list("{\"a\": 1}"), Err(PatternListError::NotAStringArray));
    assert_eq!(parse_pattern_list("[1, 2]"), Err(PatternListError::NotAStringArray));
}

#[test]
fn iterator_hands_out_from_the_front() {
    let mut it = Iter::new(vec![1, 2]);
    assert_eq!(it.next(), Some(1));
    assert_eq!(it.next(), Some(2));
    assert_eq!(it.next(), None);
    assert_eq!(it.len(), 0);
}

#[test]
fn chunks_drop_the_leftover() {
    let mut it = Iter::new(vec!['a', 'b', 'c', 'd', 'e', 'f', 'g']);
    let mut chunks = it.chunks_of(3);
    assert_eq!(chunks.next(), Some(vec!['a', 'b', 'c']));
    assert_eq!(chunks.next(), Some(vec!['d', 'e', 'f']));
    assert_eq!(chunks.next(), None);
    assert_eq!(it.len(), 0);
}

#[test]
fn next_chunk_takes_what_is_left() {
    let mut it = Iter::new(vec![1, 2, 3]);
    assert_eq!(it.next_chunk_of(2), Some(vec![1, 2]));
    assert_eq!(it.next_chunk_of(2), None);
    assert_eq!(it.len(), 0);
}

#[test]
fn bits_of_bytes() {
    assert_eq!(0b1011_0111u8.to_bits(), vec![1, 0, 1, 1, 0, 1, 1]);
    assert_eq!("A".to_string().to_bits(), vec![0, 1, 0, 0, 0, 0, 0]);
}

#[test]
fn stripping() {
    let s = "<[1]>".to_string();
    assert_eq!(s.try_strip_prefix("<"), "[1]>");
    assert_eq!(s.try_strip_suffix(">"), "<[1]");
    assert_eq!(s.try_strip_prefix("x"), "<[1]>");
    assert_eq!(s.try_strip_prefix("<").try_strip_suffix(">"), "[1]");
}

#[test]
fn chunks_rejoin_to_the_items_but_the_leftover() {
    let items: Vec<u8> = (0..11).collect();
    let mut it = Iter::new(items.clone());
    let mut chunks = it.chunks_of(4);
    let mut joined: Vec<u8> = Vec::new();
    let mut count = 0;
    while let Some(c) = chunks.next() {
        joined.extend(c);
        count += 1;
    }
    assert_eq!(count, 11 / 4);
    assert_eq!(joined, items[..11 - 11 % 4].to_vec());
}

#[test]
fn unicode_digits_make_numerical_reflections() {
    assert!(is_special_handler(&"Numerical Reflection: \u{967}\u{968}".to_string()));
    assert!(!is_special_handler(&"Numerical Reflection: \u{b2}".to_string()));
}
