//! The shapes of the words of a `.hexpattern` file: numbers, embedded iotas,
//! Bookkeeper's Gambits and Numerical Reflections.
use vstd::prelude::*;

use crate::text::{
    chars_of, chars_view, ends_with, find_char, first_index_of, is_prefix, is_suffix, lemma_first_index_of,
    split_chars, split_on, starts_with, sub_chars, trim, trim_chars,
};

verus! {

// ---------------------------------------------------------------------------
// Specifications
// ---------------------------------------------------------------------------

/// The text that opens a Bookkeeper's Gambit.
pub open spec fn bookkeeper_prefix() -> Seq<char> {
    "Bookkeeper's Gambit: "@
}

/// The text that opens a Numerical Reflection.
pub open spec fn numref_prefix() -> Seq<char> {
    "Numerical Reflection: "@
}

/// `c` is in the regex crate's class `\d`, the decimal digits of its
/// Unicode tables (`\p{Nd}`).
pub uninterp spec fn regex_digit(c: char) -> bool;

/// `regex::Regex::is_match` with the pattern `^\d$` on the one character
/// `c`. Claimed: the result depends on `c` alone and is `regex_digit(c)`.
#[verifier::external_body]
fn regex_digit_exec(c: char) -> (r: bool)
    ensures
        r == regex_digit(c),
{
    regex::Regex::new(r"^\d$").unwrap().is_match(&c.to_string())
}

/// A decimal digit as `\d` has it: `0` to `9` among ASCII characters (the
/// only ones of `\p{Nd}` there), the crate's class beyond them.
pub open spec fn is_digit(c: char) -> bool {
    if '\u{80}' > c {
        '0' <= c <= '9'
    } else {
        regex_digit(c)
    }
}

/// A decimal digit as `\d` has it.
pub fn is_digit_char(c: char) -> (r: bool)
    ensures
        r == is_digit(c),
{
    if '\u{80}' > c {
        '0' <= c && c <= '9'
    } else {
        regex_digit_exec(c)
    }
}

/// One or more decimal digits.
pub open spec fn is_digits(s: Seq<char>) -> bool {
    s.len() > 0 && forall|i: int| 0 <= i < s.len() ==> is_digit(#[trigger] s[i])
}

/// Digits, optionally followed by a point and more digits.
pub open spec fn is_unsigned_number(s: Seq<char>) -> bool {
    match first_index_of(s, '.') {
        None => is_digits(s),
        Some(i) => is_digits(s.take(i)) && is_digits(s.skip(i + 1)),
    }
}

/// A decimal number with an optional minus sign: `-?\d+(\.\d+)?`.
pub open spec fn is_number(s: Seq<char>) -> bool {
    if s.len() > 0 && s[0] == '-' {
        is_unsigned_number(s.drop_first())
    } else {
        is_unsigned_number(s)
    }
}

/// The three numbers of the inside of a vector `x, y, z`, each possibly
/// surrounded by white space.
pub open spec fn vec_components(inner: Seq<char>) -> Option<Seq<Seq<char>>> {
    let pieces = split_on(inner, ',');
    if pieces.len() == 3 && is_number(trim(pieces[0])) && is_number(trim(pieces[1]))
        && is_number(trim(pieces[2])) {
        Some(seq![trim(pieces[0]), trim(pieces[1]), trim(pieces[2])])
    } else {
        None
    }
}

/// The inside of `s` without its first and last characters.
pub open spec fn inner(s: Seq<char>) -> Seq<char> {
    s.subrange(1, s.len() - 1)
}

/// `s` is enclosed by `open` and `close`.
pub open spec fn is_enclosed(s: Seq<char>, open: char, close: char) -> bool {
    s.len() >= 2 && s[0] == open && s.last() == close
}

/// A vector iota: `( x , y , z )`.
pub open spec fn is_vec_iota(s: Seq<char>) -> bool {
    is_enclosed(s, '(', ')') && vec_components(inner(s)) is Some
}

/// A list iota: `[ ... ]`.
pub open spec fn is_list_iota(s: Seq<char>) -> bool {
    is_enclosed(s, '[', ']')
}

/// An embedded iota: `<[ ... ]>`, `<number>` or `<(x, y, z)>`.
pub open spec fn embedded_iota_shape(s: Seq<char>) -> bool {
    ||| s.len() >= 4 && is_prefix(seq!['<', '['], s) && is_suffix(seq![']', '>'], s)
    ||| is_enclosed(s, '<', '>') && is_number(inner(s))
    ||| is_enclosed(s, '<', '>') && is_vec_iota(inner(s))
}

/// `s` begins with something shaped like an iota: a list `[ ... ]`, a
/// vector `(x, y, z)` or a number.
pub open spec fn starts_with_iota(s: Seq<char>) -> bool {
    ||| s.len() > 0 && s[0] == '[' && first_index_of(s.drop_first(), ']') is Some
    ||| s.len() > 0 && s[0] == '(' && match first_index_of(s, ')') {
        Some(j) => is_vec_iota(s.take(j + 1)),
        None => false,
    }
    ||| s.len() > 0 && is_digit(s[0])
    ||| s.len() > 1 && s[0] == '-' && is_digit(s[1])
}

/// The strokes of a Bookkeeper's Gambit: `v` keeps, `-` removes.
pub open spec fn is_strokes(s: Seq<char>) -> bool {
    s.len() > 0 && forall|i: int| 0 <= i < s.len() ==> (#[trigger] s[i] == 'v' || s[i] == '-')
}

/// A Bookkeeper's Gambit: the prefix, then one or more strokes.
pub open spec fn is_bookkeeper(s: Seq<char>) -> bool {
    is_prefix(bookkeeper_prefix(), s) && is_strokes(s.skip(bookkeeper_prefix().len() as int))
}

/// A Numerical Reflection: the prefix, then a number.
pub open spec fn is_numref(s: Seq<char>) -> bool {
    is_prefix(numref_prefix(), s) && is_number(s.skip(numref_prefix().len() as int))
}

/// A word that the encoder expands itself.
pub open spec fn is_special(s: Seq<char>) -> bool {
    is_bookkeeper(s) || is_numref(s)
}

/// The lengths of the two prefixes.
pub proof fn lemma_prefix_lengths()
    ensures
        bookkeeper_prefix().len() == 21,
        numref_prefix().len() == 22,
{
    reveal_strlit("Bookkeeper's Gambit: ");
    reveal_strlit("Numerical Reflection: ");
}

// ---------------------------------------------------------------------------
// Executable functions
// ---------------------------------------------------------------------------

/// The characters of the Bookkeeper's Gambit prefix.
pub fn bookkeeper_prefix_chars() -> (r: Vec<char>)
    ensures
        r@ == bookkeeper_prefix(),
{
    chars_of("Bookkeeper's Gambit: ")
}

/// The characters of the Numerical Reflection prefix.
pub fn numref_prefix_chars() -> (r: Vec<char>)
    ensures
        r@ == numref_prefix(),
{
    chars_of("Numerical Reflection: ")
}

/// One or more decimal digits, between `start` and `end`.
fn digits_between(s: &Vec<char>, start: usize, end: usize) -> (r: bool)
    requires
        start <= end <= s.len(),
    ensures
        r == is_digits(s@.subrange(start as int, end as int)),
{
    if start == end {
        return false;
    }
    let mut i = start;
    while i < end
        invariant
            start <= i <= end <= s.len(),
            forall|k: int| start <= k < i ==> is_digit(#[trigger] s@[k]),
        decreases end - i,
    {
        if !is_digit_char(s[i]) {
            assert(!is_digit(s@.subrange(start as int, end as int)[i - start]));
            return false;
        }
        i = i + 1;
    }
    assert forall|k: int| 0 <= k < end - start implies is_digit(
        #[trigger] s@.subrange(start as int, end as int)[k],
    ) by {
        assert(s@.subrange(start as int, end as int)[k] == s@[start + k]);
    }
    true
}

/// `-?\d+(\.\d+)?`, between `start` and `end`.
fn number_between(s: &Vec<char>, start: usize, end: usize) -> (r: bool)
    requires
        start <= end <= s.len(),
    ensures
        r == is_number(s@.subrange(start as int, end as int)),
{
    let ghost t = s@.subrange(start as int, end as int);
    let mut from = start;
    if start < end && s[start] == '-' {
        from = start + 1;
        assert(t.drop_first() =~= s@.subrange(from as int, end as int));
    }
    let ghost u = s@.subrange(from as int, end as int);
    let mut i = from;
    while i < end && s[i] != '.'
        invariant
            from <= i <= end <= s.len(),
            forall|k: int| from <= k < i ==> s@[k] != '.',
        decreases end - i,
    {
        i = i + 1;
    }
    if i == end {
        proof {
            lemma_first_index_of(u, '.');
            if first_index_of(u, '.') is Some {
                let j = first_index_of(u, '.')->0;
                assert(u[j] == s@[from + j]);
            }
        }
        digits_between(s, from, end)
    } else {
        proof {
            lemma_first_index_of(u, '.');
            assert(u[i - from] == '.');
            let j = first_index_of(u, '.')->0;
            assert(u[j] == s@[from + j]);
            assert(j == i - from);
            assert(u.take(j) =~= s@.subrange(from as int, i as int));
            assert(u.skip(j + 1) =~= s@.subrange(i + 1, end as int));
        }
        digits_between(s, from, i) && digits_between(s, i + 1, end)
    }
}

/// A decimal number with an optional minus sign: `-?\d+(\.\d+)?`.
pub fn number_chars(s: &Vec<char>) -> (r: bool)
    ensures
        r == is_number(s@),
{
    assert(s@.subrange(0, s.len() as int) =~= s@);
    number_between(s, 0, s.len())
}

/// The three numbers of the inside of a vector, when it is one.
pub fn vec_components_chars(inner: &Vec<char>) -> (r: Option<Vec<Vec<char>>>)
    ensures
        match r {
            Some(v) => vec_components(inner@) == Some(chars_view(v@)),
            None => vec_components(inner@) is None,
        },
{
    let pieces = split_chars(inner, ',');
    if pieces.len() != 3 {
        return None;
    }
    let a = trim_chars(&pieces[0]);
    let b = trim_chars(&pieces[1]);
    let c = trim_chars(&pieces[2]);
    if number_chars(&a) && number_chars(&b) && number_chars(&c) {
        let ghost pv = chars_view(pieces@);
        assert(pv[0] == pieces@[0]@ && pv[1] == pieces@[1]@ && pv[2] == pieces@[2]@);
        let mut v: Vec<Vec<char>> = Vec::new();
        v.push(a);
        v.push(b);
        v.push(c);
        assert(chars_view(v@) =~= seq![trim(pv[0]), trim(pv[1]), trim(pv[2])]);
        Some(v)
    } else {
        let ghost pv = chars_view(pieces@);
        assert(pv[0] == pieces@[0]@ && pv[1] == pieces@[1]@ && pv[2] == pieces@[2]@);
        None
    }
}

/// `s` is enclosed by `open` and `close`.
pub fn enclosed_chars(s: &Vec<char>, open: char, close: char) -> (r: bool)
    ensures
        r == is_enclosed(s@, open, close),
{
    s.len() >= 2 && s[0] == open && s[s.len() - 1] == close
}

/// The inside of `s` without its first and last characters.
pub fn inner_chars(s: &Vec<char>) -> (r: Vec<char>)
    requires
        s.len() >= 2,
    ensures
        r@ == inner(s@),
{
    sub_chars(s, 1, s.len() - 1)
}

/// A vector iota: `( x , y , z )`.
pub fn vec_iota_chars(s: &Vec<char>) -> (r: bool)
    ensures
        r == is_vec_iota(s@),
{
    if !enclosed_chars(s, '(', ')') {
        return false;
    }
    let i = inner_chars(s);
    vec_components_chars(&i).is_some()
}

/// A list iota: `[ ... ]`.
pub fn list_iota_chars(s: &Vec<char>) -> (r: bool)
    ensures
        r == is_list_iota(s@),
{
    enclosed_chars(s, '[', ']')
}

/// An embedded iota: `<[ ... ]>`, `<number>` or `<(x, y, z)>`.
pub fn embedded_iota_chars(s: &Vec<char>) -> (r: bool)
    ensures
        r == embedded_iota_shape(s@),
{
    let open = vec!['<', '['];
    let close = vec![']', '>'];
    if s.len() >= 4 && starts_with(s, &open) && ends_with(s, &close) {
        return true;
    }
    if !enclosed_chars(s, '<', '>') {
        return false;
    }
    let i = inner_chars(s);
    number_chars(&i) || vec_iota_chars(&i)
}

/// `pattern` is an embedded iota: `<[ ... ]>`, `<number>` or `<(x, y, z)>`.
pub fn is_embedded_iota(pattern: &String) -> (r: bool)
    ensures
        r == embedded_iota_shape(pattern@),
{
    embedded_iota_chars(&chars_of(pattern.as_str()))
}

/// `s` begins with something shaped like an iota.
pub fn starts_with_iota_chars(s: &Vec<char>) -> (r: bool)
    ensures
        r == starts_with_iota(s@),
{
    if s.len() == 0 {
        return false;
    }
    if s[0] == '[' {
        let rest = sub_chars(s, 1, s.len());
        assert(rest@ =~= s@.drop_first());
        if find_char(&rest, ']').is_some() {
            return true;
        }
    }
    if s[0] == '(' {
        proof {
            lemma_first_index_of(s@, ')');
        }
        match find_char(s, ')') {
            Some(j) => {
                let head = sub_chars(s, 0, j + 1);
                assert(head@ =~= s@.take(j + 1));
                if vec_iota_chars(&head) {
                    return true;
                }
            },
            None => {},
        }
    }
    is_digit_char(s[0]) || (s.len() > 1 && s[0] == '-' && is_digit_char(s[1]))
}

/// One or more strokes `v` or `-`, from `start` to the end.
fn strokes_from(s: &Vec<char>, start: usize) -> (r: bool)
    requires
        start <= s.len(),
    ensures
        r == is_strokes(s@.skip(start as int)),
{
    if start == s.len() {
        return false;
    }
    let mut i = start;
    while i < s.len()
        invariant
            start <= i <= s.len(),
            forall|k: int| start <= k < i ==> (#[trigger] s@[k] == 'v' || s@[k] == '-'),
        decreases s.len() - i,
    {
        if s[i] != 'v' && s[i] != '-' {
            assert(s@.skip(start as int)[i - start] == s@[i as int]);
            return false;
        }
        i = i + 1;
    }
    assert forall|k: int| 0 <= k < s.len() - start implies (#[trigger] s@.skip(
        start as int,
    )[k] == 'v' || s@.skip(start as int)[k] == '-') by {
        assert(s@.skip(start as int)[k] == s@[start + k]);
    }
    true
}

/// A Bookkeeper's Gambit: the prefix, then one or more strokes.
pub fn bookkeeper_chars(s: &Vec<char>) -> (r: bool)
    ensures
        r == is_bookkeeper(s@),
{
    let p = bookkeeper_prefix_chars();
    starts_with(s, &p) && strokes_from(s, p.len())
}

/// A Numerical Reflection: the prefix, then a number.
pub fn numref_chars(s: &Vec<char>) -> (r: bool)
    ensures
        r == is_numref(s@),
{
    let p = numref_prefix_chars();
    if !starts_with(s, &p) {
        return false;
    }
    assert(s@.skip(p.len() as int) =~= s@.subrange(p.len() as int, s.len() as int));
    number_between(s, p.len(), s.len())
}

} // verus!
