//! The table of pattern names. A pattern's code is its place in the table,
//! counted from 1; the most used patterns come first.
use vstd::prelude::*;

use crate::binary::{ceil_log2, ceil_log2_exec, pow2};
use crate::grammar::{bookkeeper_chars, is_special, numref_chars};
use crate::text::{chars_eq, chars_of, chars_of_all, chars_view};

verus! {

// ---------------------------------------------------------------------------
// The pattern list file
// ---------------------------------------------------------------------------

#[verifier::external_type_specification]
#[verifier::external_body]
pub struct ExJsonError(serde_json::Error);

/// The list of strings that a JSON text holds, or `None` when the text is
/// not a JSON array of strings.
pub uninterp spec fn json_string_list(text: Seq<char>) -> Option<Seq<Seq<char>>>;

/// `serde_json::from_str::<Vec<String>>`: reads a JSON array of strings.
/// Claimed: the result depends on the text alone; `Ok` carries the strings
/// that `json_string_list` names, and `Err` comes exactly when that name
/// gives `None`.
#[verifier::external_body]
fn json_from_str(text: &str) -> (r: Result<Vec<String>, serde_json::Error>)
    ensures
        match r {
            Ok(v) => json_string_list(text@) == Some(v.deep_view()),
            Err(_) => json_string_list(text@) is None,
        },
{
    serde_json::from_str::<Vec<String>>(text)
}

/// Why a pattern list could not be read.
#[derive(Clone, Copy, Debug, PartialEq, Eq, Structural)]
pub enum PatternListError {
    /// The text is not a JSON array of strings.
    NotAStringArray,
}

/// Reads the pattern names from the text of a JSON array of strings.
pub fn parse_pattern_list(json: &str) -> (r: Result<Vec<String>, PatternListError>)
    ensures
        match r {
            Ok(v) => json_string_list(json@) == Some(v.deep_view()),
            Err(e) => e == PatternListError::NotAStringArray && json_string_list(json@) is None,
        },
{
    match json_from_str(json) {
        Ok(v) => Ok(v),
        Err(_) => Err(PatternListError::NotAStringArray),
    }
}

// ---------------------------------------------------------------------------
// Specifications
// ---------------------------------------------------------------------------

/// The place of the first occurrence of `p` in `table`.
pub open spec fn pattern_index(table: Seq<Seq<char>>, p: Seq<char>) -> Option<int>
    decreases table.len(),
{
    if table.len() == 0 {
        None
    } else {
        match pattern_index(table.drop_last(), p) {
            Some(i) => Some(i),
            None => if table.last() == p {
                Some(table.len() - 1)
            } else {
                None
            },
        }
    }
}

/// The code of pattern `p`: its first place in the table, counted from 1.
pub open spec fn pattern_code(table: Seq<Seq<char>>, p: Seq<char>) -> Option<nat> {
    match pattern_index(table, p) {
        Some(i) => Some((i + 1) as nat),
        None => None,
    }
}

/// `pattern_index` finds the first occurrence of `p`.
pub proof fn lemma_pattern_index(table: Seq<Seq<char>>, p: Seq<char>)
    ensures
        match pattern_index(table, p) {
            Some(i) => 0 <= i < table.len() && table[i] == p && forall|j: int|
                0 <= j < i ==> table[j] != p,
            None => !table.contains(p),
        },
    decreases table.len(),
{
    if table.len() > 0 {
        let init = table.drop_last();
        lemma_pattern_index(init, p);
        match pattern_index(init, p) {
            Some(i) => {
                assert(table[i] == init[i]);
                assert forall|j: int| 0 <= j < i implies table[j] != p by {
                    assert(table[j] == init[j]);
                }
            },
            None => {
                if table.last() != p {
                    assert forall|j: int| 0 <= j < table.len() implies table[j] != p by {
                        if j < table.len() - 1 {
                            assert(table[j] == init[j]);
                        }
                    }
                } else {
                    assert forall|j: int| 0 <= j < table.len() - 1 implies table[j] != p by {
                        assert(table[j] == init[j]);
                    }
                }
            },
        }
    }
}

/// Once the first occurrence lies within a prefix, it lies there in the
/// whole table too.
proof fn lemma_pattern_index_extend(table: Seq<Seq<char>>, p: Seq<char>, n: int)
    requires
        0 <= n <= table.len(),
        pattern_index(table.take(n), p) is Some,
    ensures
        pattern_index(table, p) == pattern_index(table.take(n), p),
    decreases table.len() - n,
{
    if n < table.len() {
        assert(table.take(n + 1).drop_last() =~= table.take(n));
        lemma_pattern_index_extend(table, p, n + 1);
    } else {
        assert(table.take(n) =~= table);
    }
}

// ---------------------------------------------------------------------------
// Executable functions
// ---------------------------------------------------------------------------

/// The code of pattern `pattern`: its first place in the table, counted
/// from 1, or `None` when it is no pattern.
pub fn get_pat_bin_optional(pattern: &Vec<char>, table: &Vec<Vec<char>>) -> (r: Option<usize>)
    ensures
        match r {
            Some(b) => pattern_code(chars_view(table@), pattern@) == Some(b as nat),
            None => pattern_code(chars_view(table@), pattern@) is None,
        },
{
    let ghost t = chars_view(table@);
    let mut i: usize = 0;
    while i < table.len()
        invariant
            i <= table.len(),
            t == chars_view(table@),
            pattern_index(t.take(i as int), pattern@) is None,
        decreases table.len() - i,
    {
        assert(t.take(i + 1).drop_last() =~= t.take(i as int));
        assert(t.take(i + 1).last() == table@[i as int]@);
        if chars_eq(&table[i], pattern) {
            proof {
                lemma_pattern_index_extend(t, pattern@, i + 1);
            }
            return Some(i + 1);
        }
        i = i + 1;
    }
    assert(t.take(table.len() as int) =~= t);
    None
}

/// The code of a pattern that is in the table.
pub fn get_pat_bin(pattern: &Vec<char>, table: &Vec<Vec<char>>) -> (r: usize)
    requires
        pattern_code(chars_view(table@), pattern@) is Some,
    ensures
        pattern_code(chars_view(table@), pattern@) == Some(r as nat),
{
    match get_pat_bin_optional(pattern, table) {
        Some(b) => b,
        None => {
            assert(false);
            0
        },
    }
}

/// `pattern` is one of the table's patterns.
pub fn is_pattern(pattern: &String, patterns: &Vec<String>) -> (r: bool)
    ensures
        r == patterns.deep_view().contains(pattern@),
{
    let table = chars_of_all(patterns);
    let p = chars_of(pattern.as_str());
    let r = get_pat_bin_optional(&p, &table).is_some();
    proof {
        lemma_pattern_index(chars_view(table@), p@);
    }
    r
}

/// `pattern` is a Bookkeeper's Gambit or a Numerical Reflection.
pub fn is_special_handler(pattern: &String) -> (r: bool)
    ensures
        r == is_special(pattern@),
{
    let p = chars_of(pattern.as_str());
    bookkeeper_chars(&p) || numref_chars(&p)
}

/// The number of patterns in the table.
pub fn patterns_len(patterns: &Vec<String>) -> (r: usize)
    ensures
        r == patterns.len(),
{
    patterns.len()
}

/// The number of bits that write the code of any pattern: the least `b`
/// with `patterns_len <= 2^b`.
pub fn patterns_bits(patterns: &Vec<String>) -> (r: u32)
    ensures
        r == ceil_log2(patterns.len() as nat),
        pow2(r as nat) >= patterns.len(),
        r == 0 || pow2((r - 1) as nat) < patterns.len(),
{
    ceil_log2_exec(patterns_len(patterns))
}

} // verus!
