//! Splitting a `.hexpattern` file into tokens.
use vstd::prelude::*;

use crate::error::{EncodingError, ErrorKind, Fault};
use crate::grammar::{embedded_iota_shape, is_embedded_iota, is_special, lemma_prefix_lengths};
use crate::patterns::{get_pat_bin_optional, is_special_handler, lemma_pattern_index};
use crate::text::{
    append_all, chars_eq, chars_of, chars_of_all, chars_view, is_prefix, is_whitespace,
    lemma_replace_occurs, lemma_split_on_len, lemma_split_on_occurs, lemma_trim_end_prefix,
    occurs, occurs_at, replace_all, replace_all_chars, shares_no_char, split_chars, split_on,
    starts_with, strings_of, sub_chars, trim, trim_chars, trim_start,
};

verus! {

// ---------------------------------------------------------------------------
// Specifications
// ---------------------------------------------------------------------------

/// The name of the pattern that opens a quoted block.
pub open spec fn intro_name() -> Seq<char> {
    "Introspection"@
}

/// The name of the pattern that closes a quoted block.
pub open spec fn retro_name() -> Seq<char> {
    "Retrospection"@
}

/// The name of the pattern that unpacks a list onto the stack.
pub open spec fn flock_name() -> Seq<char> {
    "Flock's Disintegration"@
}

/// The outcome of a step that yields lines of text.
pub type Lines = Result<Seq<Seq<char>>, Fault>;

/// `prefix` placed before the lines of `r`, when `r` succeeded.
pub open spec fn prepend(prefix: Seq<Seq<char>>, r: Lines) -> Lines {
    match r {
        Ok(v) => Ok(prefix + v),
        Err(e) => Err(e),
    }
}

/// `r` holds the characters of each string of `v`, or the failure `e`.
pub open spec fn result_is(r: Result<Vec<Vec<char>>, EncodingError>, s: Lines) -> bool {
    match r {
        Ok(v) => s == Ok::<Seq<Seq<char>>, Fault>(chars_view(v@)),
        Err(e) => s == Err::<Seq<Seq<char>>, Fault>(e@),
    }
}

/// `r` holds the strings of the lines of `s`, or its failure.
pub open spec fn string_result_is(r: Result<Vec<String>, EncodingError>, s: Lines) -> bool {
    match r {
        Ok(v) => s == Ok::<Seq<Seq<char>>, Fault>(v.deep_view()),
        Err(e) => s == Err::<Seq<Seq<char>>, Fault>(e@),
    }
}

/// The file with `Consideration: ` put on a line of its own, and the
/// Introspection and Retrospection names shortened to braces.
pub open spec fn preprocess(file: Seq<char>) -> Seq<char> {
    replace_all(
        replace_all(
            replace_all(file, "Consideration: "@, "Consideration\n"@),
            intro_name(),
            seq!['{'],
        ),
        retro_name(),
        seq!['}'],
    )
}

/// `<[` starts at `i`.
pub open spec fn is_list_open_at(s: Seq<char>, i: int) -> bool {
    0 <= i && i + 1 < s.len() && s[i] == '<' && s[i + 1] == '['
}

/// `]>` starts at `j`.
pub open spec fn is_list_close_at(s: Seq<char>, j: int) -> bool {
    0 <= j && j + 1 < s.len() && s[j] == ']' && s[j + 1] == '>'
}

/// Where the first `<[` starts.
pub open spec fn first_list_open(s: Seq<char>) -> Option<int>
    decreases s.len(),
{
    if s.len() < 2 {
        None
    } else {
        match first_list_open(s.drop_last()) {
            Some(i) => Some(i),
            None => if is_list_open_at(s, s.len() - 2) {
                Some(s.len() - 2)
            } else {
                None
            },
        }
    }
}

/// Where the last `]>` starts.
pub open spec fn last_list_close(s: Seq<char>) -> Option<int>
    decreases s.len(),
{
    if s.len() < 2 {
        None
    } else if is_list_close_at(s, s.len() - 2) {
        Some(s.len() - 2)
    } else {
        last_list_close(s.drop_last())
    }
}

/// The embedded list of a file: from its first `<[` to the end of the last
/// `]>` that follows it. There is at most one, since it reaches the last
/// `]>` of the file.
pub open spec fn embedded_list_span(s: Seq<char>) -> Option<(int, int)> {
    match first_list_open(s) {
        Some(i) => match last_list_close(s) {
            Some(j) => if j >= i + 2 {
                Some((i, j + 2))
            } else {
                None
            },
            None => None,
        },
        None => None,
    }
}

/// The embedded list is followed by a one-byte character, which the
/// tokenizer takes along with it.
pub open spec fn list_span_in_bounds(s: Seq<char>) -> bool {
    match embedded_list_span(s) {
        Some((_, e)) => e < s.len() && s[e] < '\u{80}',
        None => true,
    }
}

/// The words of a preprocessed file: its lines, except that the embedded
/// list, with the character after it, is one word without its surrounding
/// white space; the text after the list starts again at that character.
pub open spec fn file_words(s: Seq<char>) -> Seq<Seq<char>> {
    match embedded_list_span(s) {
        None => split_on(s, '\n'),
        Some((ms, me)) => split_on(s.take(ms), '\n') + seq![trim(s.subrange(ms, me + 1))]
            + split_on(s.skip(me), '\n'),
    }
}

/// What one word adds to the tokens, and the new depth of braces.
pub open spec fn word_step(table: Seq<Seq<char>>, w: Seq<char>, nested: nat) -> Result<
    (Seq<Seq<char>>, nat),
    Fault,
> {
    if table.contains(w) || is_special(w) || embedded_iota_shape(w) {
        Ok((seq![w], nested))
    } else if w == seq!['{', '}'] {
        Ok((seq![intro_name(), retro_name()], nested))
    } else if w == seq!['{'] {
        Ok((seq![intro_name()], nested + 1))
    } else if w == seq!['}'] {
        if nested == 0 {
            Err((ErrorKind::UnbalancedRetrospection, Seq::empty()))
        } else {
            Ok((seq![retro_name()], (nested - 1) as nat))
        }
    } else if w == seq!['<', '['] {
        Err((ErrorKind::UnbalancedListOpener, Seq::empty()))
    } else if w == seq![']', '>'] {
        Err((ErrorKind::UnbalancedListCloser, Seq::empty()))
    } else if w.len() == 0 {
        Ok((Seq::empty(), nested))
    } else if is_prefix(seq!['<', '['], w) {
        Ok((seq![w], nested))
    } else {
        Err((ErrorKind::InvalidLine, w))
    }
}

/// The tokens of `words`, starting at brace depth `nested`.
pub open spec fn tokenize_words(table: Seq<Seq<char>>, words: Seq<Seq<char>>, nested: nat) -> Lines
    decreases words.len(),
{
    if words.len() == 0 {
        if nested > 0 {
            Err((ErrorKind::UnbalancedIntrospection, Seq::empty()))
        } else {
            Ok(Seq::empty())
        }
    } else {
        match word_step(table, words[0], nested) {
            Err(e) => Err(e),
            Ok((emitted, n)) => prepend(emitted, tokenize_words(table, words.drop_first(), n)),
        }
    }
}

/// The tokens of a file.
pub open spec fn tokenize(table: Seq<Seq<char>>, file: Seq<char>) -> Lines {
    tokenize_words(table, file_words(preprocess(file)), 0)
}

/// The number of `Introspection` minus the number of `Retrospection` tokens.
pub open spec fn brace_balance(tokens: Seq<Seq<char>>) -> int
    decreases tokens.len(),
{
    if tokens.len() == 0 {
        0
    } else {
        brace_balance(tokens.drop_last()) + if tokens.last() == intro_name() {
            1int
        } else if tokens.last() == retro_name() {
            -1int
        } else {
            0int
        }
    }
}

/// The brace depth never goes below zero in any prefix and ends at zero.
pub open spec fn balanced(tokens: Seq<Seq<char>>) -> bool {
    &&& brace_balance(tokens) == 0
    &&& forall|k: int| 0 <= k <= tokens.len() ==> brace_balance(#[trigger] tokens.take(k)) >= 0
}

/// Facts about the names that the proofs use.
pub proof fn lemma_names()
    ensures
        intro_name().len() == 13,
        retro_name().len() == 13,
        intro_name() != retro_name(),
        intro_name() != seq!['{', '}'],
        "Consideration: "@.len() == 15,
{
    reveal_strlit("Introspection");
    reveal_strlit("Retrospection");
    reveal_strlit("Consideration: ");
    assert(intro_name()[0] != retro_name()[0]);
}

// ---------------------------------------------------------------------------
// Laws
// ---------------------------------------------------------------------------

/// The tokens of a file have Introspections and Retrospections that pair
/// up: after any prefix there are no more closers than openers, and in all
/// there are as many of each.
pub proof fn lemma_tokenize_balanced(table: Seq<Seq<char>>, file: Seq<char>)
    requires
        list_span_in_bounds(preprocess(file)),
    ensures
        tokenize(table, file) matches Ok(tokens) ==> balanced(tokens),
{
    lemma_words_not_brace_names(file);
    let words = file_words(preprocess(file));
    lemma_tokenize_words_balanced(table, words, 0, Seq::empty());
    assert(Seq::<Seq<char>>::empty() + Seq::<Seq<char>>::empty() =~= Seq::<Seq<char>>::empty());
}

/// A token that tokenizing can give: a pattern of the table, a Bookkeeper's
/// Gambit or Numerical Reflection, an embedded iota, a brace name, or a word
/// that opens an embedded list.
pub open spec fn is_known_token(table: Seq<Seq<char>>, t: Seq<char>) -> bool {
    ||| table.contains(t)
    ||| is_special(t)
    ||| embedded_iota_shape(t)
    ||| t == intro_name()
    ||| t == retro_name()
    ||| is_prefix(seq!['<', '['], t)
}

/// Every token of a file is of a kind that tokenizing can give.
pub proof fn lemma_tokens_known(table: Seq<Seq<char>>, file: Seq<char>)
    ensures
        tokenize(table, file) matches Ok(tokens) ==> forall|i: int|
            0 <= i < tokens.len() ==> is_known_token(table, #[trigger] tokens[i]),
{
    lemma_tokenize_words_known(table, file_words(preprocess(file)), 0);
}

proof fn lemma_tokenize_words_known(table: Seq<Seq<char>>, words: Seq<Seq<char>>, nested: nat)
    ensures
        tokenize_words(table, words, nested) matches Ok(tokens) ==> forall|i: int|
            0 <= i < tokens.len() ==> is_known_token(table, #[trigger] tokens[i]),
    decreases words.len(),
{
    if words.len() > 0 {
        match word_step(table, words[0], nested) {
            Err(_) => {},
            Ok((emitted, n)) => {
                lemma_tokenize_words_known(table, words.drop_first(), n);
                assert forall|i: int| 0 <= i < emitted.len() implies is_known_token(
                    table,
                    #[trigger] emitted[i],
                ) by {
                    let w = words[0];
                    if table.contains(w) || is_special(w) || embedded_iota_shape(w) {
                        assert(emitted[i] == w);
                    } else if w == seq!['{', '}'] {
                        assert(emitted[i] == intro_name() || emitted[i] == retro_name());
                    } else if w == seq!['{'] {
                        assert(emitted[i] == intro_name());
                    } else if w == seq!['}'] {
                        assert(emitted[i] == retro_name());
                    } else {
                        assert(emitted[i] == w);
                    }
                }
                match tokenize_words(table, words.drop_first(), n) {
                    Ok(rest) => {
                        let all = emitted + rest;
                        assert forall|i: int| 0 <= i < all.len() implies is_known_token(
                            table,
                            #[trigger] all[i],
                        ) by {
                            if i < emitted.len() {
                                assert(all[i] == emitted[i]);
                            } else {
                                assert(all[i] == rest[i - emitted.len()]);
                            }
                        }
                    },
                    Err(_) => {},
                }
            },
        }
    }
}

/// Neither brace name is left in a preprocessed file.
proof fn lemma_no_brace_names(file: Seq<char>)
    ensures
        !occurs(preprocess(file), intro_name()),
        !occurs(preprocess(file), retro_name()),
{
    lemma_names();
    reveal_strlit("Introspection");
    reveal_strlit("Retrospection");
    reveal_strlit("Consideration: ");
    reveal_strlit("Consideration\n");
    let e = replace_all(file, "Consideration: "@, "Consideration\n"@);
    let g = replace_all(e, intro_name(), seq!['{']);
    let f = replace_all(g, retro_name(), seq!['}']);
    assert(f == preprocess(file));
    assert(shares_no_char(intro_name(), seq!['{'])) by {
        assert forall|i: int| 0 <= i < intro_name().len() implies !seq!['{'].contains(
            #[trigger] intro_name()[i],
        ) by {
            assert(seq!['{'][0] == '{');
        }
    }
    assert(shares_no_char(intro_name(), seq!['}'])) by {
        assert forall|i: int| 0 <= i < intro_name().len() implies !seq!['}'].contains(
            #[trigger] intro_name()[i],
        ) by {
            assert(seq!['}'][0] == '}');
        }
    }
    assert(shares_no_char(retro_name(), seq!['}'])) by {
        assert forall|i: int| 0 <= i < retro_name().len() implies !seq!['}'].contains(
            #[trigger] retro_name()[i],
        ) by {
            assert(seq!['}'][0] == '}');
        }
    }
    if occurs(g, intro_name()) {
        let i = choose|i: int| #[trigger] occurs_at(g, intro_name(), i);
        lemma_replace_occurs(e, intro_name(), seq!['{'], intro_name(), i);
    }
    if occurs(f, intro_name()) {
        let i = choose|i: int| #[trigger] occurs_at(f, intro_name(), i);
        lemma_replace_occurs(g, retro_name(), seq!['}'], intro_name(), i);
    }
    if occurs(f, retro_name()) {
        let i = choose|i: int| #[trigger] occurs_at(f, retro_name(), i);
        lemma_replace_occurs(g, retro_name(), seq!['}'], retro_name(), i);
    }
}

/// A piece that occurs in a part of a text occurs in the text.
proof fn lemma_occurs_in_part(s: Seq<char>, start: int, end: int, p: Seq<char>)
    requires
        0 <= start <= end <= s.len(),
        occurs(s.subrange(start, end), p),
    ensures
        occurs(s, p),
{
    let t = s.subrange(start, end);
    let j = choose|j: int| #[trigger] occurs_at(t, p, j);
    assert(s.subrange(start + j, start + j + p.len()) =~= t.subrange(j, j + p.len()));
    assert(occurs_at(s, p, start + j));
}

/// No word of a file is a brace name, when its embedded list can be taken.
proof fn lemma_words_not_brace_names(file: Seq<char>)
    requires
        list_span_in_bounds(preprocess(file)),
    ensures
        forall|k: int|
            0 <= k < file_words(preprocess(file)).len() ==> #[trigger] file_words(
                preprocess(file),
            )[k] != intro_name() && file_words(preprocess(file))[k] != retro_name(),
{
    lemma_names();
    reveal_strlit("Introspection");
    reveal_strlit("Retrospection");
    let f = preprocess(file);
    let words = file_words(f);
    lemma_no_brace_names(file);
    match embedded_list_span(f) {
        None => {
            lemma_split_on_occurs(f, '\n');
            assert forall|k: int| 0 <= k < words.len() implies #[trigger] words[k] != intro_name()
                && words[k] != retro_name() by {
                assert(occurs(f, words[k]));
            }
        },
        Some((ms, me)) => {
            let head = split_on(f.take(ms), '\n');
            let tail = split_on(f.skip(me), '\n');
            let x = f.subrange(ms, me + 1);
            let lw = trim(x);
            assert(first_list_open(f) == Some(ms));
            lemma_first_list_open_found(f);
            assert(x[0] == '<');
            assert(!is_whitespace(x[0]));
            assert(trim_start(x) == x);
            lemma_trim_end_prefix(x);
            if lw.len() > 0 {
                assert(lw[0] == x[0]);
            }
            assert(intro_name()[0] == 'I');
            assert(retro_name()[0] == 'R');
            assert(lw != intro_name());
            assert(lw != retro_name());
            lemma_split_on_occurs(f.take(ms), '\n');
            lemma_split_on_occurs(f.skip(me), '\n');
            assert(f.take(ms) =~= f.subrange(0, ms));
            assert(f.skip(me) =~= f.subrange(me, f.len() as int));
            assert(words == head + seq![lw] + tail);
            assert forall|k: int| 0 <= k < words.len() implies #[trigger] words[k] != intro_name()
                && words[k] != retro_name() by {
                if k < head.len() {
                    assert(words[k] == head[k]);
                    assert(occurs(f.subrange(0, ms), head[k]));
                    lemma_occurs_in_part(f, 0, ms, head[k]);
                } else if k == head.len() {
                    assert(words[k] == lw);
                } else {
                    let t = words[k];
                    assert(t == tail[k - head.len() - 1]);
                    assert(occurs(f.subrange(me, f.len() as int), t));
                    lemma_occurs_in_part(f, me, f.len() as int, t);
                }
            }
        },
    }
}

/// The place that `first_list_open` gives opens a list.
proof fn lemma_first_list_open_found(s: Seq<char>)
    ensures
        first_list_open(s) matches Some(i) ==> is_list_open_at(s, i),
    decreases s.len(),
{
    if s.len() >= 2 {
        lemma_first_list_open_found(s.drop_last());
        match first_list_open(s.drop_last()) {
            Some(i) => {
                assert(s.drop_last()[i] == s[i]);
                assert(s.drop_last()[i + 1] == s[i + 1]);
            },
            None => {},
        }
    }
}

/// The balance of `done + rest` when `done` holds no closer too many.
proof fn lemma_tokenize_words_balanced(
    table: Seq<Seq<char>>,
    words: Seq<Seq<char>>,
    nested: nat,
    done: Seq<Seq<char>>,
)
    requires
        forall|k: int|
            0 <= k < words.len() ==> #[trigger] words[k] != intro_name() && words[k]
                != retro_name(),
        brace_balance(done) == nested,
        forall|k: int| 0 <= k <= done.len() ==> brace_balance(#[trigger] done.take(k)) >= 0,
    ensures
        tokenize_words(table, words, nested) matches Ok(rest) ==> balanced(done + rest),
    decreases words.len(),
{
    lemma_names();
    if words.len() == 0 {
        if nested == 0 {
            assert(done + Seq::<Seq<char>>::empty() =~= done);
            assert(done.take(done.len() as int) =~= done);
        }
    } else {
        let w = words[0];
        match word_step(table, w, nested) {
            Err(_) => {},
            Ok((emitted, n)) => {
                let done2 = done + emitted;
                lemma_step_balance(done, emitted, nested, n, w, table);
                assert forall|k: int| 0 <= k < words.drop_first().len() implies #[trigger] words.drop_first()[k]
                    != intro_name() && words.drop_first()[k] != retro_name() by {
                    assert(words.drop_first()[k] == words[k + 1]);
                }
                lemma_tokenize_words_balanced(table, words.drop_first(), n, done2);
                match tokenize_words(table, words.drop_first(), n) {
                    Ok(rest) => {
                        assert(done + (emitted + rest) =~= done2 + rest);
                    },
                    Err(_) => {},
                }
            },
        }
    }
}

/// One step keeps the running balance at the brace depth and never negative.
proof fn lemma_step_balance(
    done: Seq<Seq<char>>,
    emitted: Seq<Seq<char>>,
    nested: nat,
    n: nat,
    w: Seq<char>,
    table: Seq<Seq<char>>,
)
    requires
        w != intro_name(),
        w != retro_name(),
        word_step(table, w, nested) == Ok::<(Seq<Seq<char>>, nat), Fault>((emitted, n)),
        brace_balance(done) == nested,
        forall|k: int| 0 <= k <= done.len() ==> brace_balance(#[trigger] done.take(k)) >= 0,
    ensures
        brace_balance(done + emitted) == n,
        forall|k: int|
            0 <= k <= (done + emitted).len() ==> brace_balance(#[trigger] (done + emitted).take(k))
                >= 0,
{
    lemma_names();
    let d2 = done + emitted;
    assert(d2.take(done.len() as int) =~= done);
    if emitted.len() == 0 {
        assert(d2 =~= done);
    } else if emitted.len() == 1 {
        assert(d2.drop_last() =~= done);
        assert(d2.last() == emitted[0]);
        assert(brace_balance(d2) == n);
        assert(d2.take(d2.len() as int) =~= d2);
        assert forall|k: int| 0 <= k <= d2.len() implies brace_balance(#[trigger] d2.take(k)) >= 0 by {
            if k <= done.len() {
                assert(d2.take(k) =~= done.take(k));
                assert(brace_balance(done.take(k)) >= 0);
            } else {
                assert(d2.take(k) =~= d2);
            }
        }
    } else {
        assert(emitted == seq![intro_name(), retro_name()]);
        let d1 = done.push(intro_name());
        assert(d2.drop_last() =~= d1);
        assert(d1.drop_last() =~= done);
        assert(d2.take(d2.len() as int) =~= d2);
        assert(d2.take(d1.len() as int) =~= d1);
        assert(d1.last() == intro_name());
        assert(d2.last() == retro_name());
        assert(brace_balance(d1) == nested + 1);
        assert(brace_balance(d2) == nested);
        assert forall|k: int| 0 <= k <= d2.len() implies brace_balance(#[trigger] d2.take(k)) >= 0 by {
            if k <= done.len() {
                assert(d2.take(k) =~= done.take(k));
                assert(brace_balance(done.take(k)) >= 0);
            } else if k == done.len() + 1 {
                assert(d2.take(k) =~= d1);
            } else {
                assert(d2.take(k) =~= d2);
            }
        }
    }
}

/// A word that the tokenizer keeps as it is, as one token: a pattern of the
/// table, a Bookkeeper's Gambit or Numerical Reflection, or an embedded
/// iota.
pub open spec fn kept_word(table: Seq<Seq<char>>, w: Seq<char>) -> bool {
    table.contains(w) || is_special(w) || embedded_iota_shape(w)
}

/// Words that are kept pass into the tokens one for one, in order, with
/// nothing dropped or merged, whatever follows them.
pub proof fn lemma_kept_words(
    table: Seq<Seq<char>>,
    a: Seq<Seq<char>>,
    b: Seq<Seq<char>>,
    nested: nat,
)
    requires
        forall|k: int| 0 <= k < a.len() ==> kept_word(table, #[trigger] a[k]),
    ensures
        tokenize_words(table, a + b, nested) == prepend(a, tokenize_words(table, b, nested)),
    decreases a.len(),
{
    if a.len() == 0 {
        assert(a + b =~= b);
        match tokenize_words(table, b, nested) {
            Ok(v) => {
                assert(a + v =~= v);
            },
            Err(_) => {},
        }
    } else {
        let rest = a.drop_first();
        assert(kept_word(table, a[0]));
        assert forall|k: int| 0 <= k < rest.len() implies kept_word(table, #[trigger] rest[k]) by {
            assert(rest[k] == a[k + 1]);
        }
        assert((a + b)[0] == a[0]);
        assert((a + b).drop_first() =~= rest + b);
        lemma_kept_words(table, rest, b, nested);
        lemma_prepend_assoc(seq![a[0]], rest, tokenize_words(table, b, nested));
        assert(seq![a[0]] + rest =~= a);
    }
}

/// Words each kept or empty, with no empty pattern in the table, give as
/// tokens the non-empty words, in order.
proof fn lemma_plain_words(table: Seq<Seq<char>>, words: Seq<Seq<char>>)
    requires
        !table.contains(Seq::<char>::empty()),
        forall|k: int|
            0 <= k < words.len() ==> #[trigger] words[k].len() == 0 || kept_word(table, words[k]),
    ensures
        tokenize_words(table, words, 0) == Ok::<Seq<Seq<char>>, Fault>(
            words.filter(|w: Seq<char>| w.len() > 0),
        ),
    decreases words.len(),
{
    let ne = |w: Seq<char>| w.len() > 0;
    if words.len() == 0 {
        assert(words.filter(ne) =~= Seq::<Seq<char>>::empty());
    } else {
        let w = words[0];
        let rest = words.drop_first();
        assert forall|k: int|
            0 <= k < rest.len() implies #[trigger] rest[k].len() == 0 || kept_word(
            table,
            rest[k],
        ) by {
            assert(rest[k] == words[k + 1]);
        }
        lemma_plain_words(table, rest);
        assert(words =~= seq![w] + rest);
        Seq::filter_distributes_over_add(seq![w], rest, ne);
        reveal_with_fuel(Seq::filter, 2);
        assert(seq![w].drop_last() =~= Seq::<Seq<char>>::empty());
        if w.len() == 0 {
            lemma_prefix_lengths();
            assert(w =~= Seq::<char>::empty());
            assert(!is_special(w));
            assert(!embedded_iota_shape(w));
            assert(seq![w].filter(ne) =~= Seq::<Seq<char>>::empty());
            assert(Seq::<Seq<char>>::empty() + rest.filter(ne) =~= rest.filter(ne));
            assert(word_step(table, w, 0) == Ok::<(Seq<Seq<char>>, nat), Fault>((Seq::empty(), 0)));
            assert(words.filter(ne) == rest.filter(ne));
        } else {
            assert(seq![w].filter(ne) =~= seq![w]);
            assert(word_step(table, w, 0) == Ok::<(Seq<Seq<char>>, nat), Fault>((seq![w], 0)));
            assert(words.filter(ne) == seq![w] + rest.filter(ne));
        }
        assert(tokenize_words(table, words, 0) == Ok::<Seq<Seq<char>>, Fault>(words.filter(ne)));
    }
}

/// Replacing text that does not occur changes nothing.
proof fn lemma_replace_absent(s: Seq<char>, from: Seq<char>, to: Seq<char>)
    requires
        !occurs(s, from),
    ensures
        replace_all(s, from, to) == s,
    decreases s.len(),
{
    if s.len() > 0 {
        if from.len() > 0 && is_prefix(from, s) {
            assert(s.subrange(0, from.len() as int) =~= s.take(from.len() as int));
            assert(occurs_at(s, from, 0));
        } else {
            let t = s.drop_first();
            assert forall|i: int| !occurs_at(t, from, i) by {
                if occurs_at(t, from, i) {
                    assert(s.subrange(i + 1, i + 1 + from.len()) =~= t.subrange(
                        i,
                        i + from.len(),
                    ));
                    assert(occurs_at(s, from, i + 1));
                }
            }
            lemma_replace_absent(t, from, to);
            assert(s =~= seq![s[0]] + t);
        }
    }
}

/// A file without braces to write out, without `Consideration: ` and
/// without an embedded list, whose lines are each empty or kept, is
/// tokenized into its non-empty lines, in order: each line that is a
/// pattern gives exactly one token.
pub proof fn lemma_plain_file(table: Seq<Seq<char>>, file: Seq<char>)
    requires
        !occurs(file, "Consideration: "@),
        !occurs(file, intro_name()),
        !occurs(file, retro_name()),
        embedded_list_span(file) is None,
        !table.contains(Seq::<char>::empty()),
        forall|k: int|
            0 <= k < split_on(file, '\n').len() ==> #[trigger] split_on(file, '\n')[k].len() == 0
                || kept_word(table, split_on(file, '\n')[k]),
    ensures
        tokenize(table, file) == Ok::<Seq<Seq<char>>, Fault>(
            split_on(file, '\n').filter(|w: Seq<char>| w.len() > 0),
        ),
{
    lemma_replace_absent(file, "Consideration: "@, "Consideration\n"@);
    lemma_replace_absent(file, intro_name(), seq!['{']);
    lemma_replace_absent(file, retro_name(), seq!['}']);
    assert(preprocess(file) == file);
    lemma_plain_words(table, split_on(file, '\n'));
}

// ---------------------------------------------------------------------------
// Executable functions
// ---------------------------------------------------------------------------

/// Where the first `<[` of `s` starts.
fn first_list_open_exec(s: &Vec<char>) -> (r: Option<usize>)
    ensures
        match r {
            Some(i) => first_list_open(s@) == Some(i as int) && i + 1 < s.len(),
            None => first_list_open(s@) is None,
        },
{
    if s.len() < 2 {
        return None;
    }
    let mut i: usize = 0;
    assert(s@.take(1).len() < 2);
    while i < s.len() - 1
        invariant
            s.len() >= 2,
            i <= s.len() - 1,
            first_list_open(s@.take(i + 1)) is None,
        decreases s.len() - i,
    {
        let ghost t = s@.take(i + 2);
        assert(t.drop_last() =~= s@.take(i + 1));
        if s[i] == '<' && s[i + 1] == '[' {
            proof {
                assert(is_list_open_at(t, i as int));
                assert(first_list_open(t) == Some(i as int));
                lemma_first_list_open_extend(s@, i + 2);
            }
            return Some(i);
        }
        i = i + 1;
    }
    assert(s@.take(s.len() as int) =~= s@);
    None
}

/// Where the last `]>` of `s` starts.
fn last_list_close_exec(s: &Vec<char>) -> (r: Option<usize>)
    ensures
        match r {
            Some(j) => last_list_close(s@) == Some(j as int) && j + 1 < s.len(),
            None => last_list_close(s@) is None,
        },
{
    let mut j: usize = s.len();
    assert(s@.take(s.len() as int) =~= s@);
    while j >= 2
        invariant
            j <= s.len(),
            last_list_close(s@) == last_list_close(s@.take(j as int)),
        decreases j,
    {
        let ghost t = s@.take(j as int);
        assert(t.drop_last() =~= s@.take(j - 1));
        if s[j - 2] == ']' && s[j - 1] == '>' {
            assert(is_list_close_at(t, j - 2));
            return Some(j - 2);
        }
        j = j - 1;
    }
    None
}

/// Where the embedded list of `s` starts and ends.
fn embedded_list_span_exec(s: &Vec<char>) -> (r: Option<(usize, usize)>)
    ensures
        match r {
            Some((a, b)) => embedded_list_span(s@) == Some((a as int, b as int)) && a < b <= s.len(),
            None => embedded_list_span(s@) is None,
        },
{
    match first_list_open_exec(s) {
        None => None,
        Some(o) => match last_list_close_exec(s) {
            None => None,
            Some(c) => {
                if c >= o + 2 {
                    Some((o, c + 2))
                } else {
                    None
                }
            },
        },
    }
}

proof fn lemma_first_list_open_extend(s: Seq<char>, n: int)
    requires
        0 <= n <= s.len(),
        first_list_open(s.take(n)) is Some,
    ensures
        first_list_open(s) == first_list_open(s.take(n)),
    decreases s.len() - n,
{
    if n < s.len() {
        assert(s.take(n + 1).drop_last() =~= s.take(n));
        lemma_first_list_open_extend(s, n + 1);
    } else {
        assert(s.take(n) =~= s);
    }
}

/// The words of a preprocessed file.
fn file_words_exec(s: &Vec<char>) -> (r: Vec<Vec<char>>)
    requires
        list_span_in_bounds(s@),
    ensures
        chars_view(r@) == file_words(s@),
{
    match embedded_list_span_exec(s) {
        None => split_chars(s, '\n'),
        Some((ms, me)) => {
            assert(me < s.len());
            let head = sub_chars(s, 0, ms);
            let list = sub_chars(s, ms, me + 1);
            let tail = sub_chars(s, me, s.len());
            assert(head@ =~= s@.take(ms as int));
            assert(tail@ =~= s@.skip(me as int));
            let mut words = split_chars(&head, '\n');
            let ghost w0 = chars_view(words@);
            let t = trim_chars(&list);
            words.push(t);
            assert(chars_view(words@) =~= w0 + seq![trim(s@.subrange(ms as int, me + 1))]);
            let rest = split_chars(&tail, '\n');
            append_all(&mut words, &rest);
            words
        },
    }
}

/// The embedded list of `file` can be taken with the character after it,
/// as the tokenizer does; otherwise the tokenizer fails on an index out of
/// bounds.
pub fn embedded_list_in_bounds(file: &String) -> (r: bool)
    ensures
        r == list_span_in_bounds(preprocess(file@)),
{
    let s = preprocessed(file);
    match embedded_list_span_exec(&s) {
        Some((_, me)) => me < s.len() && s[me] < '\u{80}',
        None => true,
    }
}

/// The file with `Consideration: ` put on a line of its own and the brace
/// names shortened.
fn preprocessed(file: &String) -> (r: Vec<char>)
    ensures
        r@ == preprocess(file@),
{
    proof {
        lemma_names();
    }
    let f = chars_of(file.as_str());
    let c1 = chars_of("Consideration: ");
    let c2 = chars_of("Consideration\n");
    let r1 = replace_all_chars(&f, &c1, &c2);
    let i1 = chars_of("Introspection");
    let i2 = vec!['{'];
    let r2 = replace_all_chars(&r1, &i1, &i2);
    let o1 = chars_of("Retrospection");
    let o2 = vec!['}'];
    assert(i2@ == seq!['{']);
    assert(o2@ == seq!['}']);
    assert(r2@ == replace_all(
        replace_all(f@, "Consideration: "@, "Consideration\n"@),
        intro_name(),
        seq!['{'],
    ));
    replace_all_chars(&r2, &o1, &o2)
}

/// The tokens of a file: the lines of the file, with braces expanded to
/// Introspection and Retrospection and the embedded list kept whole.
/// Fails on a line that is none of these, and on unbalanced braces.
pub fn tokenize_file(file: String, patterns: &Vec<String>) -> (r: Result<
    Vec<String>,
    EncodingError,
>)
    requires
        list_span_in_bounds(preprocess(file@)),
    ensures
        string_result_is(r, tokenize(patterns.deep_view(), file@)),
{
    let table = chars_of_all(patterns);
    let ghost tv = chars_view(table@);
    let s = preprocessed(&file);
    let words = file_words_exec(&s);
    let ghost wv = chars_view(words@);
    let mut tokens: Vec<Vec<char>> = Vec::new();
    let mut nested: usize = 0;
    let mut i: usize = 0;
    let empty_braces = vec!['{', '}'];
    let open_brace = vec!['{'];
    let close_brace = vec!['}'];
    let list_open = vec!['<', '['];
    let list_close = vec![']', '>'];
    let intro = chars_of("Introspection");
    let retro = chars_of("Retrospection");
    assert(wv.skip(0) =~= wv);
    while i < words.len()
        invariant
            i <= words.len(),
            nested <= i,
            wv == chars_view(words@),
            tv == patterns.deep_view(),
            tv == chars_view(table@),
            wv == file_words(preprocess(file@)),
            empty_braces@ == seq!['{', '}'],
            open_brace@ == seq!['{'],
            close_brace@ == seq!['}'],
            list_open@ == seq!['<', '['],
            list_close@ == seq![']', '>'],
            intro@ == intro_name(),
            retro@ == retro_name(),
            tokenize_words(tv, wv, 0) == prepend(
                chars_view(tokens@),
                tokenize_words(tv, wv.skip(i as int), nested as nat),
            ),
        decreases words.len() - i,
    {
        let w = &words[i];
        let ghost wi = wv[i as int];
        assert(w@ == wi);
        assert(wv.skip(i as int)[0] == wi);
        assert(wv.skip(i as int).drop_first() =~= wv.skip(i + 1));
        let ghost tok0 = chars_view(tokens@);
        let ghost old_nested = nested;
        proof {
            lemma_pattern_index(tv, wi);
        }
        let w_string = string_of_ref(w);
        let ghost emitted: Seq<Seq<char>>;
        let ghost n2: nat;
        if get_pat_bin_optional(w, &table).is_some() || is_special_handler(&w_string)
            || is_embedded_iota(&w_string) {
            tokens.push(w.clone());
            proof {
                emitted = seq![wi];
                n2 = nested as nat;
            }
        } else if chars_eq(w, &empty_braces) {
            tokens.push(intro.clone());
            tokens.push(retro.clone());
            proof {
                emitted = seq![intro_name(), retro_name()];
                n2 = nested as nat;
            }
        } else if chars_eq(w, &open_brace) {
            tokens.push(intro.clone());
            proof {
                emitted = seq![intro_name()];
                n2 = (nested + 1) as nat;
            }
            nested = nested + 1;
        } else if chars_eq(w, &close_brace) {
            if nested == 0 {
                return Err(EncodingError::new(ErrorKind::UnbalancedRetrospection, Vec::new()));
            }
            tokens.push(retro.clone());
            proof {
                emitted = seq![retro_name()];
                n2 = (nested - 1) as nat;
            }
            nested = nested - 1;
        } else if chars_eq(w, &list_open) {
            return Err(EncodingError::new(ErrorKind::UnbalancedListOpener, Vec::new()));
        } else if chars_eq(w, &list_close) {
            return Err(EncodingError::new(ErrorKind::UnbalancedListCloser, Vec::new()));
        } else if w.len() == 0 {
            proof {
                emitted = Seq::empty();
                n2 = nested as nat;
            }
        } else if starts_with(w, &list_open) {
            tokens.push(w.clone());
            proof {
                emitted = seq![wi];
                n2 = nested as nat;
            }
        } else {
            return Err(EncodingError::new(ErrorKind::InvalidLine, w.clone()));
        }
        proof {
            assert(word_step(tv, wi, old_nested as nat) == Ok::<(Seq<Seq<char>>, nat), Fault>(
                (emitted, n2),
            ));
            assert(chars_view(tokens@) =~= tok0 + emitted);
            lemma_prepend_assoc(
                tok0,
                emitted,
                tokenize_words(tv, wv.skip(i + 1), n2),
            );
        }
        i = i + 1;
    }
    if nested > 0 {
        return Err(EncodingError::new(ErrorKind::UnbalancedIntrospection, Vec::new()));
    }
    assert(chars_view(tokens@) + Seq::<Seq<char>>::empty() =~= chars_view(tokens@));
    Ok(strings_of(&tokens))
}

/// `prefix` then `more` placed before the lines of `r`.
proof fn lemma_prepend_assoc(prefix: Seq<Seq<char>>, more: Seq<Seq<char>>, r: Lines)
    ensures
        prepend(prefix, prepend(more, r)) == prepend(prefix + more, r),
{
    match r {
        Ok(v) => {
            assert(prefix + (more + v) =~= (prefix + more) + v);
        },
        Err(_) => {},
    }
}

/// The string made of the characters of `v`.
fn string_of_ref(v: &Vec<char>) -> (s: String)
    ensures
        s@ == v@,
{
    crate::text::string_of(v)
}

} // verus!
