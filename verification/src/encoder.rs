//! From tokens to the binary program: the patterns in use, the local
//! mappings for patterns whose code does not fit the chunk size, and the
//! choice of the chunk size that gives the shortest program.
use vstd::prelude::*;

use crate::binary::{
    ceil_log2, ceil_log2_exec, floor_log2, floor_log2_exec, lemma_ceil_log2, lemma_pow2_monotone,
    is_bits, lemma_binary_digits, lemma_pad_binary, pad_0_upto, pad_binary, pow2, repeat_char,
};
use crate::error::{stops, EncodingError, ErrorKind, Fault};
use crate::grammar::{
    bookkeeper_prefix, bookkeeper_prefix_chars, is_digit, is_number, is_numref, lemma_prefix_lengths,
    numref_prefix, numref_prefix_chars, starts_with_iota,
};
use crate::iota::{
    bookkeeper_op, code_of, end_opcode, fault_of, iota_binary, iota_to_binary,
    lemma_bookkeeper_in_list, lemma_iota_faults, lemma_number_iota, lemma_number_shape, list_element,
    make_bk_op, make_numref, numref_op,
};
use crate::numbers::{lookup_number, NumberCode};
use crate::patterns::{get_pat_bin, get_pat_bin_optional, lemma_pattern_index, pattern_code, pattern_index};
use crate::text::{
    append_all, chars_eq, chars_of, chars_of_all, chars_view, ends_with, is_prefix, is_suffix,
    starts_with, strings_of,
};
use crate::tokenizer::{flock_name, intro_name, prepend, result_is, retro_name, Lines};

verus! {

// ---------------------------------------------------------------------------
// Specifications: the patterns in use
// ---------------------------------------------------------------------------

/// The table's patterns among `tokens`, each once, in order of first use.
pub open spec fn patterns_in(table: Seq<Seq<char>>, tokens: Seq<Seq<char>>) -> Seq<Seq<char>>
    decreases tokens.len(),
{
    if tokens.len() == 0 {
        Seq::empty()
    } else {
        let prev = patterns_in(table, tokens.drop_last());
        let t = tokens.last();
        if table.contains(t) && !prev.contains(t) {
            prev.push(t)
        } else {
            prev
        }
    }
}

/// Some token starts like a Numerical Reflection.
pub open spec fn has_numref_token(tokens: Seq<Seq<char>>) -> bool {
    exists|i: int| 0 <= i < tokens.len() && is_prefix(numref_prefix(), #[trigger] tokens[i])
}

/// `s` with `p` added at the end when it is not in it yet.
pub open spec fn with_pattern(s: Seq<Seq<char>>, p: Seq<char>) -> Seq<Seq<char>> {
    if s.contains(p) {
        s
    } else {
        s.push(p)
    }
}

/// The patterns that an encoding of `tokens` uses: the table's patterns
/// among them, and the three patterns that Numerical Reflections expand to
/// when there are any.
pub open spec fn unique_patterns(table: Seq<Seq<char>>, tokens: Seq<Seq<char>>) -> Seq<Seq<char>> {
    let base = patterns_in(table, tokens);
    if has_numref_token(tokens) {
        with_pattern(with_pattern(with_pattern(base, intro_name()), retro_name()), flock_name())
    } else {
        base
    }
}

/// The set of patterns that an encoding of `tokens` uses.
pub open spec fn unique_pattern_set(table: Seq<Seq<char>>, tokens: Seq<Seq<char>>) -> Set<
    Seq<char>,
> {
    let used = Set::new(|t: Seq<char>| tokens.contains(t) && table.contains(t));
    if has_numref_token(tokens) {
        used.insert(intro_name()).insert(retro_name()).insert(flock_name())
    } else {
        used
    }
}

// ---------------------------------------------------------------------------
// Specifications: the binary program
// ---------------------------------------------------------------------------

/// `a + b` as `usize` addition that wraps around.
pub open spec fn wrap_add(a: nat, b: nat) -> nat {
    if a + b <= usize::MAX {
        a + b
    } else {
        (a + b - (usize::MAX + 1)) as nat
    }
}

/// `a - b` as `usize` subtraction that wraps around.
pub open spec fn wrap_sub(a: nat, b: nat) -> nat {
    if a >= b {
        (a - b) as nat
    } else {
        (a + (usize::MAX + 1) - b) as nat
    }
}

/// `2^c` as an `isize` power that wraps around on overflow: exact while it
/// fits, `isize::MIN` at the sign bit, zero beyond.
pub open spec fn isize_pow2(c: nat) -> int {
    if pow2(c) <= isize::MAX {
        pow2(c) as int
    } else if pow2(c) == isize::MAX + 1 {
        isize::MIN as int
    } else {
        0
    }
}

/// The number of codes that `c` bits address directly: `2^c - 2` (the
/// all-zeros code escapes and one code is kept back), and none below one
/// bit; worked out in `isize` arithmetic that wraps around, kept at zero
/// at least.
pub open spec fn addresses(c: nat) -> nat {
    let d = isize_pow2(c) - 2;
    let w = if d < isize::MIN {
        d + 2 * (isize::MAX + 1)
    } else {
        d
    };
    if w > 0 {
        w as nat
    } else {
        0
    }
}

/// How many of `unique` have a code of at least `k`.
pub open spec fn count_codes_from(table: Seq<Seq<char>>, unique: Seq<Seq<char>>, k: nat) -> nat
    decreases unique.len(),
{
    if unique.len() == 0 {
        0
    } else {
        count_codes_from(table, unique.drop_last(), k) + if code_of(table, unique.last()) >= k {
            1nat
        } else {
            0nat
        }
    }
}

/// The least code that gets a local mapping: the addresses less the number
/// of patterns beyond them (wrapping around when these are more).
pub open spec fn mapping_threshold(table: Seq<Seq<char>>, unique: Seq<Seq<char>>, c: nat) -> nat {
    wrap_sub(addresses(c), count_codes_from(table, unique, addresses(c)))
}

/// The address of the first local mapping.
pub open spec fn mapping_start(table: Seq<Seq<char>>, unique: Seq<Seq<char>>, c: nat) -> nat {
    let t = mapping_threshold(table, unique, c);
    wrap_add(t, count_codes_from(table, unique, t))
}

/// The local mappings among codes `1..=k`, highest code first: each pattern
/// of `unique` once for each of `lo` and `hi` that its code reaches.
pub open spec fn mappings_upto(
    table: Seq<Seq<char>>,
    unique: Seq<Seq<char>>,
    lo: nat,
    hi: nat,
    k: nat,
) -> Seq<Seq<char>>
    decreases k,
{
    if k == 0 {
        Seq::empty()
    } else {
        let p = table[k - 1];
        let here = if pattern_index(table, p) == Some(k - 1) && unique.contains(p) {
            if k >= lo && k >= hi {
                seq![p, p]
            } else if k >= lo || k >= hi {
                seq![p]
            } else {
                Seq::empty()
            }
        } else {
            Seq::empty()
        };
        here + mappings_upto(table, unique, lo, hi, (k - 1) as nat)
    }
}

/// The local mappings for chunk size `c`, highest code first.
pub open spec fn local_mappings(table: Seq<Seq<char>>, unique: Seq<Seq<char>>, c: nat) -> Seq<
    Seq<char>,
> {
    mappings_upto(
        table,
        unique,
        mapping_threshold(table, unique, c),
        addresses(c),
        table.len(),
    )
}

/// The binary form of one token, before local mappings are applied.
pub open spec fn token_group(
    t: Seq<char>,
    c: nat,
    table: Seq<Seq<char>>,
    numbers: Seq<NumberCode>,
) -> Lines {
    match pattern_code(table, t) {
        Some(b) => Ok(seq![pad_binary(b, c)]),
        None => if is_prefix(seq!['<'], t) && is_suffix(seq!['>'], t) {
            iota_binary(t, c, table, numbers)
        } else if is_prefix(bookkeeper_prefix(), t) {
            bookkeeper_op(t, c)
        } else if is_prefix(numref_prefix(), t) {
            numref_op(t, c, table, numbers)
        } else {
            Err((ErrorKind::InvalidToken, t))
        },
    }
}

/// A one-line group equal to a local mapping becomes that mapping's
/// address; other groups stay as they are.
pub open spec fn finish_group(g: Seq<Seq<char>>, lm: Seq<Seq<char>>, start: nat, c: nat) -> Seq<
    Seq<char>,
> {
    if g.len() != 1 {
        g
    } else {
        match pattern_index(lm, g[0]) {
            Some(i) => seq![pad_binary(wrap_add(i as nat, start), c)],
            None => g,
        }
    }
}

/// The binary form of `tokens`, in order; the first token that cannot be
/// written fails the whole.
pub open spec fn encode_tokens(
    tokens: Seq<Seq<char>>,
    c: nat,
    table: Seq<Seq<char>>,
    numbers: Seq<NumberCode>,
    lm: Seq<Seq<char>>,
    start: nat,
) -> Lines
    decreases tokens.len(),
{
    if tokens.len() == 0 {
        Ok(Seq::empty())
    } else {
        match token_group(tokens[0], c, table, numbers) {
            Err(e) => Err(e),
            Ok(g) => prepend(
                finish_group(g, lm, start, c),
                encode_tokens(tokens.drop_first(), c, table, numbers, lm, start),
            ),
        }
    }
}

/// The encoding version.
pub open spec fn encoding_version() -> Seq<char> {
    repeat_char('0', 8)
}

/// The header: the version, the chunk size, the number of local mappings
/// and the code of each.
pub open spec fn program_header(c: nat, lm: Seq<Seq<char>>, table: Seq<Seq<char>>) -> Seq<
    Seq<char>,
> {
    seq![encoding_version(), pad_binary(c, 4), pad_binary(lm.len(), 8)] + lm.map_values(
        |p: Seq<char>| pad_binary(code_of(table, p), 8),
    )
}

/// The first pattern in use that the table does not hold.
pub open spec fn first_missing(table: Seq<Seq<char>>, unique: Seq<Seq<char>>) -> Option<Seq<char>>
    decreases unique.len(),
{
    if unique.len() == 0 {
        None
    } else {
        match first_missing(table, unique.drop_last()) {
            Some(p) => Some(p),
            None => if table.contains(unique.last()) {
                None
            } else {
                Some(unique.last())
            },
        }
    }
}

/// The binary program for `tokens` with chunk size `c`, and its local
/// mappings. The encoder stops at once when a pattern in use is not in the
/// table.
pub open spec fn tokens_binary(
    tokens: Seq<Seq<char>>,
    unique: Seq<Seq<char>>,
    c: nat,
    table: Seq<Seq<char>>,
    numbers: Seq<NumberCode>,
) -> Result<(Seq<Seq<char>>, Seq<Seq<char>>), Fault> {
    match first_missing(table, unique) {
        Some(p) => Err((ErrorKind::NotAPattern, p)),
        None => {
            let lm = local_mappings(table, unique, c);
            match encode_tokens(tokens, c, table, numbers, lm, mapping_start(table, unique, c)) {
                Err(e) => Err(e),
                Ok(body) => Ok(
                    (program_header(c, lm, table) + body + seq![pad_binary(0, c), end_opcode()], lm),
                ),
            }
        },
    }
}

/// The bytes that a character takes in UTF-8; spaces count for nothing.
pub open spec fn char_weight(ch: char) -> nat {
    if ch == ' ' {
        0
    } else if '\u{80}' > ch {
        1
    } else if '\u{800}' > ch {
        2
    } else if '\u{10000}' > ch {
        3
    } else {
        4
    }
}

/// The bytes of a line, spaces left out.
pub open spec fn text_weight(s: Seq<char>) -> nat
    decreases s.len(),
{
    if s.len() == 0 {
        0
    } else {
        text_weight(s.drop_last()) + char_weight(s.last())
    }
}

/// The bytes of all lines, spaces left out.
pub open spec fn lines_weight(v: Seq<Seq<char>>) -> nat
    decreases v.len(),
{
    if v.len() == 0 {
        0
    } else {
        lines_weight(v.drop_last()) + text_weight(v.last())
    }
}

/// `n`, or `usize::MAX` when it is larger.
pub open spec fn capped(n: nat) -> nat {
    if n > usize::MAX {
        usize::MAX as nat
    } else {
        n
    }
}

/// The size of a program: its bytes without spaces.
pub open spec fn program_size(v: Seq<Seq<char>>) -> nat {
    capped(lines_weight(v))
}

/// The shortest program over chunk sizes `c..hi`, the earliest among equals,
/// given the best so far.
pub open spec fn best_encoding(
    tokens: Seq<Seq<char>>,
    unique: Seq<Seq<char>>,
    table: Seq<Seq<char>>,
    numbers: Seq<NumberCode>,
    c: nat,
    hi: nat,
    best: Seq<Seq<char>>,
    best_size: nat,
) -> Lines
    decreases hi - c,
{
    if c >= hi {
        Ok(best)
    } else {
        match tokens_binary(tokens, unique, c, table, numbers) {
            Err(e) => Err(e),
            Ok((out, _)) => if program_size(out) < best_size {
                best_encoding(tokens, unique, table, numbers, c + 1, hi, out, program_size(out))
            } else {
                best_encoding(tokens, unique, table, numbers, c + 1, hi, best, best_size)
            },
        }
    }
}

/// The smallest chunk size tried: `floor(log2(n))` for `n` patterns in use.
pub open spec fn first_chunk_size(table: Seq<Seq<char>>, tokens: Seq<Seq<char>>) -> nat {
    floor_log2(unique_patterns(table, tokens).len())
}

/// The program for `tokens`: the shortest over the chunk sizes from
/// `floor(log2(patterns in use))` up to, not including, the bits of the
/// whole table.
pub open spec fn encoding(
    tokens: Seq<Seq<char>>,
    table: Seq<Seq<char>>,
    numbers: Seq<NumberCode>,
) -> Lines {
    best_encoding(
        tokens,
        unique_patterns(table, tokens),
        table,
        numbers,
        first_chunk_size(table, tokens),
        ceil_log2(table.len()),
        Seq::empty(),
        usize::MAX as nat,
    )
}

// ---------------------------------------------------------------------------
// Laws
// ---------------------------------------------------------------------------

/// The patterns in use hold each pattern once, and are exactly the table's
/// patterns among the tokens, with Introspection, Retrospection and Flock's
/// Disintegration when a Numerical Reflection is among them.
pub proof fn lemma_unique_patterns(table: Seq<Seq<char>>, tokens: Seq<Seq<char>>)
    ensures
        unique_patterns(table, tokens).no_duplicates(),
        unique_patterns(table, tokens).to_set() == unique_pattern_set(table, tokens),
{
    lemma_patterns_in(table, tokens);
    let base = patterns_in(table, tokens);
    if has_numref_token(tokens) {
        let s1 = with_pattern(base, intro_name());
        let s2 = with_pattern(s1, retro_name());
        let s3 = with_pattern(s2, flock_name());
        lemma_with_pattern(base, intro_name());
        lemma_with_pattern(s1, retro_name());
        lemma_with_pattern(s2, flock_name());
        assert(s3.to_set() =~= unique_pattern_set(table, tokens));
    } else {
        assert(base.to_set() =~= unique_pattern_set(table, tokens));
    }
}

proof fn lemma_with_pattern(s: Seq<Seq<char>>, p: Seq<char>)
    requires
        s.no_duplicates(),
    ensures
        with_pattern(s, p).no_duplicates(),
        with_pattern(s, p).to_set() == s.to_set().insert(p),
{
    if s.contains(p) {
        assert(s.to_set().insert(p) =~= s.to_set());
    } else {
        let t = s.push(p);
        assert forall|i: int, j: int| 0 <= i < t.len() && 0 <= j < t.len() && i != j implies t[i]
            != t[j] by {
            if i < s.len() && j < s.len() {
                assert(t[i] == s[i] && t[j] == s[j]);
            } else if i < s.len() {
                assert(t[i] == s[i]);
            } else if j < s.len() {
                assert(t[j] == s[j]);
            }
        }
        assert forall|x: Seq<char>| t.contains(x) <==> s.to_set().insert(p).contains(x) by {
            if t.contains(x) {
                let i = choose|i: int| 0 <= i < t.len() && t[i] == x;
                if i < s.len() {
                    assert(s[i] == x);
                }
            }
            if s.contains(x) {
                let i = choose|i: int| 0 <= i < s.len() && s[i] == x;
                assert(t[i] == x);
            }
            if x == p {
                assert(t[s.len() as int] == p);
            }
        }
        assert(t.to_set() =~= s.to_set().insert(p));
    }
}

proof fn lemma_patterns_in(table: Seq<Seq<char>>, tokens: Seq<Seq<char>>)
    ensures
        patterns_in(table, tokens).no_duplicates(),
        patterns_in(table, tokens).to_set() == Set::new(
            |t: Seq<char>| tokens.contains(t) && table.contains(t),
        ),
    decreases tokens.len(),
{
    let r = patterns_in(table, tokens);
    if tokens.len() == 0 {
        assert(r.to_set() =~= Set::new(|t: Seq<char>| tokens.contains(t) && table.contains(t)));
    } else {
        let init = tokens.drop_last();
        let t = tokens.last();
        lemma_patterns_in(table, init);
        let prev = patterns_in(table, init);
        let want = Set::new(|x: Seq<char>| tokens.contains(x) && table.contains(x));
        let was = Set::new(|x: Seq<char>| init.contains(x) && table.contains(x));
        assert forall|x: Seq<char>| tokens.contains(x) <==> (init.contains(x) || x == t) by {
            if tokens.contains(x) {
                let i = choose|i: int| 0 <= i < tokens.len() && tokens[i] == x;
                if i < init.len() {
                    assert(init[i] == x);
                }
            }
            if init.contains(x) {
                let i = choose|i: int| 0 <= i < init.len() && init[i] == x;
                assert(tokens[i] == x);
            }
            if x == t {
                assert(tokens[tokens.len() - 1] == t);
            }
        }
        if table.contains(t) && !prev.contains(t) {
            lemma_with_pattern(prev, t);
            assert(with_pattern(prev, t) == prev.push(t));
            assert(r.to_set() =~= want);
        } else {
            if table.contains(t) {
                assert(prev.to_set().contains(t));
            }
            assert(r.to_set() =~= want);
        }
    }
}

/// The program for chunk size `k`, when there is one.
pub open spec fn program_at(
    tokens: Seq<Seq<char>>,
    unique: Seq<Seq<char>>,
    table: Seq<Seq<char>>,
    numbers: Seq<NumberCode>,
    k: nat,
) -> Option<Seq<Seq<char>>> {
    match tokens_binary(tokens, unique, k, table, numbers) {
        Ok((out, _)) => Some(out),
        Err(_) => None,
    }
}

/// The program that `best_encoding` gives is no longer than the best given
/// and than the program for any chunk size tried, and is the best given or
/// one of those programs.
pub proof fn lemma_best_encoding_minimal(
    tokens: Seq<Seq<char>>,
    unique: Seq<Seq<char>>,
    table: Seq<Seq<char>>,
    numbers: Seq<NumberCode>,
    c: nat,
    hi: nat,
    best: Seq<Seq<char>>,
    best_size: nat,
)
    requires
        program_size(best) <= best_size,
    ensures
        best_encoding(tokens, unique, table, numbers, c, hi, best, best_size) matches Ok(r) ==> {
            &&& program_size(r) <= best_size
            &&& r == best || exists|k: nat|
                c <= k < hi && #[trigger] program_at(tokens, unique, table, numbers, k) == Some(r)
            &&& forall|k: nat|
                c <= k < hi ==> #[trigger] program_at(tokens, unique, table, numbers, k) is Some
            &&& forall|k: nat|
                c <= k < hi ==> program_size(r) <= program_size(
                    #[trigger] program_at(tokens, unique, table, numbers, k)->0,
                )
        },
    decreases hi - c,
{
    if c < hi {
        match tokens_binary(tokens, unique, c, table, numbers) {
            Err(_) => {},
            Ok((out, lm)) => {
                let s = program_size(out);
                assert(program_at(tokens, unique, table, numbers, c) == Some(out));
                if s < best_size {
                    lemma_best_encoding_minimal(tokens, unique, table, numbers, c + 1, hi, out, s);
                } else {
                    lemma_best_encoding_minimal(
                        tokens,
                        unique,
                        table,
                        numbers,
                        c + 1,
                        hi,
                        best,
                        best_size,
                    );
                }
            },
        }
    }
}

/// Encoding gives a program no longer than the program for any chunk size
/// tried; it is one of those programs, or empty.
pub proof fn lemma_encoding_is_shortest(
    tokens: Seq<Seq<char>>,
    table: Seq<Seq<char>>,
    numbers: Seq<NumberCode>,
)
    ensures
        encoding(tokens, table, numbers) matches Ok(r) ==> {
            let unique = unique_patterns(table, tokens);
            let lo = first_chunk_size(table, tokens);
            let hi = ceil_log2(table.len());
            &&& r.len() == 0 || exists|k: nat|
                lo <= k < hi && #[trigger] program_at(tokens, unique, table, numbers, k) == Some(r)
            &&& forall|k: nat|
                lo <= k < hi ==> #[trigger] program_at(tokens, unique, table, numbers, k) is Some
            &&& forall|k: nat|
                lo <= k < hi ==> program_size(r) <= program_size(
                    #[trigger] program_at(tokens, unique, table, numbers, k)->0,
                )
        },
{
    let unique = unique_patterns(table, tokens);
    let lo = first_chunk_size(table, tokens);
    let hi = ceil_log2(table.len());
    assert(lines_weight(Seq::<Seq<char>>::empty()) == 0);
    lemma_best_encoding_minimal(
        tokens,
        unique,
        table,
        numbers,
        lo,
        hi,
        Seq::empty(),
        usize::MAX as nat,
    );
}

/// Whether a token can be written, and why not, does not depend on the
/// chunk size.
proof fn lemma_token_group_faults(
    t: Seq<char>,
    c1: nat,
    c2: nat,
    table: Seq<Seq<char>>,
    numbers: Seq<NumberCode>,
)
    ensures
        fault_of(token_group(t, c1, table, numbers)) == fault_of(token_group(t, c2, table, numbers)),
{
    if pattern_code(table, t) is None && is_prefix(seq!['<'], t) && is_suffix(seq!['>'], t) {
        lemma_iota_faults(t, c1, c2, table, numbers);
    }
}

/// The same for a run of tokens, whatever the local mappings.
proof fn lemma_encode_tokens_faults(
    tokens: Seq<Seq<char>>,
    c1: nat,
    c2: nat,
    table: Seq<Seq<char>>,
    numbers: Seq<NumberCode>,
    lm1: Seq<Seq<char>>,
    s1: nat,
    lm2: Seq<Seq<char>>,
    s2: nat,
)
    ensures
        fault_of(encode_tokens(tokens, c1, table, numbers, lm1, s1)) == fault_of(
            encode_tokens(tokens, c2, table, numbers, lm2, s2),
        ),
    decreases tokens.len(),
{
    if tokens.len() > 0 {
        lemma_token_group_faults(tokens[0], c1, c2, table, numbers);
        lemma_encode_tokens_faults(tokens.drop_first(), c1, c2, table, numbers, lm1, s1, lm2, s2);
    }
}

/// Whether tokens can be encoded, and the first failure, do not depend on
/// the chunk size: trying another chunk size never turns a failure into a
/// program, nor a program into a failure.
pub proof fn lemma_faults_independent_of_chunk_size(
    tokens: Seq<Seq<char>>,
    unique: Seq<Seq<char>>,
    c1: nat,
    c2: nat,
    table: Seq<Seq<char>>,
    numbers: Seq<NumberCode>,
)
    ensures
        fault_of(tokens_binary(tokens, unique, c1, table, numbers)) == fault_of(
            tokens_binary(tokens, unique, c2, table, numbers),
        ),
{
    lemma_encode_tokens_faults(
        tokens,
        c1,
        c2,
        table,
        numbers,
        local_mappings(table, unique, c1),
        mapping_start(table, unique, c1),
        local_mappings(table, unique, c2),
        mapping_start(table, unique, c2),
    );
}

/// The patterns in use with a code of at least `k`, as a set.
pub open spec fn codes_from_set(table: Seq<Seq<char>>, unique: Seq<Seq<char>>, k: nat) -> Set<
    Seq<char>,
> {
    unique.to_set().filter(|p: Seq<char>| code_of(table, p) >= k)
}

/// Counting the patterns in use with a code of at least `k` counts a set:
/// the order of the patterns does not matter.
proof fn lemma_count_codes_set(table: Seq<Seq<char>>, unique: Seq<Seq<char>>, k: nat)
    requires
        unique.no_duplicates(),
    ensures
        codes_from_set(table, unique, k).finite(),
        codes_from_set(table, unique, k).len() == count_codes_from(table, unique, k),
    decreases unique.len(),
{
    broadcast use vstd::set::group_set_axioms;

    let f = |p: Seq<char>| code_of(table, p) >= k;
    if unique.len() == 0 {
        assert(codes_from_set(table, unique, k) =~= Set::<Seq<char>>::empty());
    } else {
        let init = unique.drop_last();
        let x = unique.last();
        assert(init.no_duplicates()) by {
            assert forall|i: int, j: int| 0 <= i < init.len() && 0 <= j < init.len() && i != j implies init[i]
                != init[j] by {
                assert(init[i] == unique[i] && init[j] == unique[j]);
            }
        }
        assert(!init.contains(x)) by {
            if init.contains(x) {
                let i = choose|i: int| 0 <= i < init.len() && init[i] == x;
                assert(unique[i] == unique[unique.len() - 1]);
            }
        }
        lemma_count_codes_set(table, init, k);
        assert(unique.to_set() =~= init.to_set().insert(x)) by {
            assert forall|y: Seq<char>| unique.contains(y) <==> (init.contains(y) || y == x) by {
                if unique.contains(y) {
                    let i = choose|i: int| 0 <= i < unique.len() && unique[i] == y;
                    if i < init.len() {
                        assert(init[i] == y);
                    }
                }
                if init.contains(y) {
                    let i = choose|i: int| 0 <= i < init.len() && init[i] == y;
                    assert(unique[i] == y);
                }
                if y == x {
                    assert(unique[unique.len() - 1] == x);
                }
            }
        }
        let before = codes_from_set(table, init, k);
        if f(x) {
            assert(codes_from_set(table, unique, k) =~= before.insert(x));
            assert(!before.contains(x));
        } else {
            assert(codes_from_set(table, unique, k) =~= before);
        }
    }
}

/// The local mappings read only which patterns are in use.
proof fn lemma_mappings_upto_set(
    table: Seq<Seq<char>>,
    u1: Seq<Seq<char>>,
    u2: Seq<Seq<char>>,
    lo: nat,
    hi: nat,
    k: nat,
)
    requires
        u1.to_set() == u2.to_set(),
    ensures
        mappings_upto(table, u1, lo, hi, k) == mappings_upto(table, u2, lo, hi, k),
    decreases k,
{
    broadcast use vstd::set::group_set_axioms;

    if k > 0 {
        lemma_mappings_upto_set(table, u1, u2, lo, hi, (k - 1) as nat);
        let p = table[k - 1];
        assert(u1.contains(p) == u1.to_set().contains(p));
        assert(u2.contains(p) == u2.to_set().contains(p));
    }
}

/// Whether a pattern in use is missing from the table does not depend on
/// their order.
proof fn lemma_first_missing_none(table: Seq<Seq<char>>, unique: Seq<Seq<char>>)
    ensures
        (first_missing(table, unique) is None) == (forall|p: Seq<char>|
            unique.contains(p) ==> #[trigger] table.contains(p)),
    decreases unique.len(),
{
    if unique.len() > 0 {
        let init = unique.drop_last();
        lemma_first_missing_none(table, init);
        if first_missing(table, unique) is None {
            assert forall|p: Seq<char>| unique.contains(p) implies #[trigger] table.contains(p) by {
                let i = choose|i: int| 0 <= i < unique.len() && unique[i] == p;
                if i < init.len() {
                    assert(init[i] == p);
                    assert(init.contains(p));
                }
            }
        } else {
            match first_missing(table, init) {
                Some(_) => {
                    let p = choose|p: Seq<char>| init.contains(p) && !table.contains(p);
                    let i = choose|i: int| 0 <= i < init.len() && init[i] == p;
                    assert(unique[i] == p);
                    assert(unique.contains(p));
                },
                None => {
                    assert(unique[unique.len() - 1] == unique.last());
                    assert(unique.contains(unique.last()));
                },
            }
        }
    }
}

/// The program for a chunk size does not depend on the order of the
/// patterns in use: two orders of the same patterns stop alike, and give
/// the same program, local mappings or failure when the encoder does not
/// stop.
pub proof fn lemma_order_of_patterns_in_use(
    tokens: Seq<Seq<char>>,
    u1: Seq<Seq<char>>,
    u2: Seq<Seq<char>>,
    c: nat,
    table: Seq<Seq<char>>,
    numbers: Seq<NumberCode>,
)
    requires
        u1.no_duplicates(),
        u2.no_duplicates(),
        u1.to_set() == u2.to_set(),
    ensures
        stops(tokens_binary(tokens, u1, c, table, numbers)) == stops(
            tokens_binary(tokens, u2, c, table, numbers),
        ),
        !stops(tokens_binary(tokens, u1, c, table, numbers)) ==> tokens_binary(
            tokens,
            u1,
            c,
            table,
            numbers,
        ) == tokens_binary(tokens, u2, c, table, numbers),
{
    broadcast use vstd::set::group_set_axioms;

    lemma_first_missing_none(table, u1);
    lemma_first_missing_none(table, u2);
    assert forall|p: Seq<char>| u1.contains(p) == u2.contains(p) by {
        assert(u1.to_set().contains(p) == u1.contains(p));
        assert(u2.to_set().contains(p) == u2.contains(p));
        assert(u1.to_set().contains(p) == u2.to_set().contains(p));
    }
    if first_missing(table, u1) is None {
        assert(first_missing(table, u2) is None);
        let a = addresses(c);
        lemma_count_codes_set(table, u1, a);
        lemma_count_codes_set(table, u2, a);
        assert(codes_from_set(table, u1, a) == codes_from_set(table, u2, a));
        let t = mapping_threshold(table, u1, c);
        assert(t == mapping_threshold(table, u2, c));
        lemma_count_codes_set(table, u1, t);
        lemma_count_codes_set(table, u2, t);
        assert(codes_from_set(table, u1, t) == codes_from_set(table, u2, t));
        assert(mapping_start(table, u1, c) == mapping_start(table, u2, c));
        lemma_mappings_upto_set(table, u1, u2, t, a, table.len());
        assert(local_mappings(table, u1, c) == local_mappings(table, u2, c));
    } else {
        assert(first_missing(table, u2) is Some);
    }
}

/// The best program over chunk sizes does not depend on the order of the
/// patterns in use, where the encoder does not stop.
proof fn lemma_best_encoding_order(
    tokens: Seq<Seq<char>>,
    u1: Seq<Seq<char>>,
    u2: Seq<Seq<char>>,
    table: Seq<Seq<char>>,
    numbers: Seq<NumberCode>,
    c: nat,
    hi: nat,
    best: Seq<Seq<char>>,
    best_size: nat,
)
    requires
        u1.no_duplicates(),
        u2.no_duplicates(),
        u1.to_set() == u2.to_set(),
    ensures
        !stops(best_encoding(tokens, u1, table, numbers, c, hi, best, best_size)) ==> best_encoding(
            tokens,
            u1,
            table,
            numbers,
            c,
            hi,
            best,
            best_size,
        ) == best_encoding(tokens, u2, table, numbers, c, hi, best, best_size),
    decreases hi - c,
{
    if c < hi {
        lemma_order_of_patterns_in_use(tokens, u1, u2, c, table, numbers);
        match tokens_binary(tokens, u1, c, table, numbers) {
            Err(_) => {},
            Ok((out, _)) => {
                if program_size(out) < best_size {
                    lemma_best_encoding_order(
                        tokens,
                        u1,
                        u2,
                        table,
                        numbers,
                        c + 1,
                        hi,
                        out,
                        program_size(out),
                    );
                } else {
                    lemma_best_encoding_order(
                        tokens,
                        u1,
                        u2,
                        table,
                        numbers,
                        c + 1,
                        hi,
                        best,
                        best_size,
                    );
                }
            },
        }
    }
}

/// Encoding does not depend on the order in which the patterns in use are
/// taken: any order of the same patterns gives the same program, where the
/// encoder does not stop.
pub proof fn lemma_encoding_order(
    tokens: Seq<Seq<char>>,
    u: Seq<Seq<char>>,
    table: Seq<Seq<char>>,
    numbers: Seq<NumberCode>,
)
    requires
        u.no_duplicates(),
        u.to_set() == unique_pattern_set(table, tokens),
    ensures
        !stops(encoding(tokens, table, numbers)) ==> encoding(tokens, table, numbers)
            == best_encoding(
            tokens,
            u,
            table,
            numbers,
            floor_log2(u.len()),
            ceil_log2(table.len()),
            Seq::empty(),
            usize::MAX as nat,
        ),
{
    let unique = unique_patterns(table, tokens);
    lemma_unique_patterns(table, tokens);
    unique.unique_seq_to_set();
    u.unique_seq_to_set();
    lemma_best_encoding_order(
        tokens,
        unique,
        u,
        table,
        numbers,
        floor_log2(unique.len()),
        ceil_log2(table.len()),
        Seq::empty(),
        usize::MAX as nat,
    );
}

/// The local mappings among codes `1..=k` have codes up to `k` that reach
/// `lo` or `hi`, highest first, and are patterns in use.
proof fn lemma_mappings_upto(
    table: Seq<Seq<char>>,
    unique: Seq<Seq<char>>,
    lo: nat,
    hi: nat,
    k: nat,
)
    requires
        k <= table.len(),
    ensures
        forall|i: int|
            0 <= i < mappings_upto(table, unique, lo, hi, k).len() ==> {
                let p = #[trigger] mappings_upto(table, unique, lo, hi, k)[i];
                &&& unique.contains(p)
                &&& pattern_code(table, p) is Some
                &&& (lo <= code_of(table, p) || hi <= code_of(table, p))
                &&& code_of(table, p) <= k
            },
        forall|i: int, j: int|
            0 <= i < j < mappings_upto(table, unique, lo, hi, k).len() ==> code_of(
                table,
                #[trigger] mappings_upto(table, unique, lo, hi, k)[i],
            ) >= code_of(table, #[trigger] mappings_upto(table, unique, lo, hi, k)[j]),
    decreases k,
{
    if k > 0 {
        let r = mappings_upto(table, unique, lo, hi, k);
        let rest = mappings_upto(table, unique, lo, hi, (k - 1) as nat);
        lemma_mappings_upto(table, unique, lo, hi, (k - 1) as nat);
        let p = table[k - 1];
        let here = if pattern_index(table, p) == Some(k - 1) && unique.contains(p) {
            if k >= lo && k >= hi {
                seq![p, p]
            } else if k >= lo || k >= hi {
                seq![p]
            } else {
                Seq::empty()
            }
        } else {
            Seq::empty()
        };
        assert(r == here + rest);
        assert forall|i: int| 0 <= i < here.len() implies code_of(table, #[trigger] here[i]) == k
            && unique.contains(here[i]) && pattern_code(table, here[i]) is Some && (lo <= k || hi
            <= k) by {
            assert(here[i] == p);
        }
        assert forall|i: int| 0 <= i < r.len() implies {
            let q = #[trigger] r[i];
            &&& unique.contains(q)
            &&& pattern_code(table, q) is Some
            &&& (lo <= code_of(table, q) || hi <= code_of(table, q))
            &&& code_of(table, q) <= k
        } by {
            if i < here.len() {
                assert(r[i] == here[i]);
            } else {
                assert(r[i] == rest[i - here.len()]);
            }
        }
        assert forall|i: int, j: int| 0 <= i < j < r.len() implies code_of(table, #[trigger] r[i])
            >= code_of(table, #[trigger] r[j]) by {
            if j < here.len() {
                assert(r[i] == here[i] && r[j] == here[j]);
            } else if i < here.len() {
                assert(r[i] == here[i]);
                assert(r[j] == rest[j - here.len()]);
            } else {
                assert(r[i] == rest[i - here.len()]);
                assert(r[j] == rest[j - here.len()]);
            }
        }
    }
}

/// The local mappings come highest code first, so that the decoder finds
/// each at an address it can work out; each is a pattern in use whose code
/// reaches the mapping threshold or the number of addresses.
pub proof fn lemma_local_mappings_descending(
    table: Seq<Seq<char>>,
    unique: Seq<Seq<char>>,
    c: nat,
)
    ensures
        forall|i: int, j: int|
            0 <= i < j < local_mappings(table, unique, c).len() ==> code_of(
                table,
                #[trigger] local_mappings(table, unique, c)[i],
            ) >= code_of(table, #[trigger] local_mappings(table, unique, c)[j]),
        forall|i: int|
            0 <= i < local_mappings(table, unique, c).len() ==> {
                let p = #[trigger] local_mappings(table, unique, c)[i];
                &&& unique.contains(p)
                &&& pattern_code(table, p) is Some
                &&& (code_of(table, p) >= mapping_threshold(table, unique, c) || code_of(table, p)
                    >= addresses(c))
            },
{
    lemma_mappings_upto(
        table,
        unique,
        mapping_threshold(table, unique, c),
        addresses(c),
        table.len(),
    );
}

/// Two results of writing lines, one after the other: the first failure,
/// or both runs of lines joined.
pub open spec fn join_lines(a: Lines, b: Lines) -> Lines {
    match a {
        Err(e) => Err(e),
        Ok(x) => prepend(x, b),
    }
}

/// Tokens are written one after another: the binary form of two runs of
/// tokens is that of the first followed by that of the second, and a
/// failure is the first one met.
pub proof fn lemma_encode_tokens_append(
    a: Seq<Seq<char>>,
    b: Seq<Seq<char>>,
    c: nat,
    table: Seq<Seq<char>>,
    numbers: Seq<NumberCode>,
    lm: Seq<Seq<char>>,
    start: nat,
)
    ensures
        encode_tokens(a + b, c, table, numbers, lm, start) == join_lines(
            encode_tokens(a, c, table, numbers, lm, start),
            encode_tokens(b, c, table, numbers, lm, start),
        ),
    decreases a.len(),
{
    if a.len() == 0 {
        assert(a + b =~= b);
        match encode_tokens(b, c, table, numbers, lm, start) {
            Ok(y) => {
                assert(Seq::<Seq<char>>::empty() + y =~= y);
            },
            Err(_) => {},
        }
    } else {
        assert((a + b)[0] == a[0]);
        assert((a + b).drop_first() =~= a.drop_first() + b);
        lemma_encode_tokens_append(a.drop_first(), b, c, table, numbers, lm, start);
        match token_group(a[0], c, table, numbers) {
            Err(_) => {},
            Ok(g) => {
                let f = finish_group(g, lm, start, c);
                match encode_tokens(a.drop_first(), c, table, numbers, lm, start) {
                    Err(_) => {},
                    Ok(x) => {
                        match encode_tokens(b, c, table, numbers, lm, start) {
                            Err(_) => {},
                            Ok(y) => {
                                assert(f + (x + y) =~= (f + x) + y);
                            },
                        }
                    },
                }
            },
        }
    }
}

/// A single token is written as its own group, a one-line group replaced
/// by the address of its local mapping where it has one.
pub proof fn lemma_encode_one_token(
    t: Seq<char>,
    c: nat,
    table: Seq<Seq<char>>,
    numbers: Seq<NumberCode>,
    lm: Seq<Seq<char>>,
    start: nat,
)
    ensures
        encode_tokens(seq![t], c, table, numbers, lm, start) == match token_group(
            t,
            c,
            table,
            numbers,
        ) {
            Err(e) => Err(e),
            Ok(g) => Ok::<Seq<Seq<char>>, Fault>(finish_group(g, lm, start, c)),
        },
{
    assert(seq![t].drop_first() =~= Seq::<Seq<char>>::empty());
    assert(seq![t][0] == t);
    assert(encode_tokens(seq![t].drop_first(), c, table, numbers, lm, start) == Ok::<
        Seq<Seq<char>>,
        Fault,
    >(Seq::empty()));
    match token_group(t, c, table, numbers) {
        Err(_) => {},
        Ok(g) => {
            assert(finish_group(g, lm, start, c) + Seq::<Seq<char>>::empty() =~= finish_group(
                g,
                lm,
                start,
                c,
            ));
        },
    }
}

/// No name in `names` is a non-empty run of binary digits, so that none is
/// taken for a written code.
pub open spec fn no_binary_names(names: Seq<Seq<char>>) -> bool {
    forall|k: int| 0 <= k < names.len() ==> !(#[trigger] names[k].len() > 0 && is_bits(names[k]))
}

/// Tokens that are all patterns of the table are written one line each, in
/// order: the code of each, padded to the chunk size.
proof fn lemma_encode_patterns(
    tokens: Seq<Seq<char>>,
    c: nat,
    table: Seq<Seq<char>>,
    numbers: Seq<NumberCode>,
    lm: Seq<Seq<char>>,
    start: nat,
)
    requires
        forall|k: int| 0 <= k < tokens.len() ==> table.contains(#[trigger] tokens[k]),
        no_binary_names(lm),
    ensures
        encode_tokens(tokens, c, table, numbers, lm, start) == Ok::<Seq<Seq<char>>, Fault>(
            Seq::new(tokens.len(), |k: int| pad_binary(code_of(table, tokens[k]), c)),
        ),
    decreases tokens.len(),
{
    let want = Seq::new(tokens.len(), |k: int| pad_binary(code_of(table, tokens[k]), c));
    if tokens.len() == 0 {
        assert(want =~= Seq::<Seq<char>>::empty());
    } else {
        let rest = tokens.drop_first();
        assert forall|k: int| 0 <= k < rest.len() implies table.contains(#[trigger] rest[k]) by {
            assert(rest[k] == tokens[k + 1]);
        }
        lemma_encode_patterns(rest, c, table, numbers, lm, start);
        let t = tokens[0];
        assert(table.contains(t));
        lemma_pattern_index(table, t);
        let line = pad_binary(code_of(table, t), c);
        lemma_binary_digits(code_of(table, t));
        lemma_pad_binary(code_of(table, t), c);
        assert(line.len() > 0);
        assert(is_bits(line));
        lemma_pattern_index(lm, line);
        match pattern_index(lm, line) {
            Some(i) => {
                assert(lm[i].len() > 0 && is_bits(lm[i]));
            },
            None => {},
        }
        assert(finish_group(seq![line], lm, start, c) == seq![line]);
        assert(want =~= seq![line] + Seq::new(
            rest.len(),
            |k: int| pad_binary(code_of(table, rest[k]), c),
        ));
    }
}

/// A program whose tokens are all patterns of the table (none of whose
/// names is a run of binary digits) holds, after its header, exactly one
/// line per token, in order, each the token's code padded to the chunk
/// size, and then the end.
pub proof fn lemma_pattern_tokens(
    tokens: Seq<Seq<char>>,
    unique: Seq<Seq<char>>,
    c: nat,
    table: Seq<Seq<char>>,
    numbers: Seq<NumberCode>,
)
    requires
        forall|k: int| 0 <= k < tokens.len() ==> table.contains(#[trigger] tokens[k]),
        first_missing(table, unique) is None,
        no_binary_names(table),
    ensures
        tokens_binary(tokens, unique, c, table, numbers) == Ok::<
            (Seq<Seq<char>>, Seq<Seq<char>>),
            Fault,
        >(
            (
                program_header(c, local_mappings(table, unique, c), table) + Seq::new(
                    tokens.len(),
                    |k: int| pad_binary(code_of(table, tokens[k]), c),
                ) + seq![pad_binary(0, c), end_opcode()],
                local_mappings(table, unique, c),
            ),
        ),
{
    let lm = local_mappings(table, unique, c);
    lemma_local_mappings_descending(table, unique, c);
    assert forall|i: int| 0 <= i < lm.len() implies !(#[trigger] lm[i].len() > 0 && is_bits(
        lm[i],
    )) by {
        lemma_pattern_index(table, lm[i]);
        let j = pattern_index(table, lm[i])->0;
        assert(table[j] == lm[i]);
    }
    lemma_encode_patterns(tokens, c, table, numbers, lm, mapping_start(table, unique, c));
}

/// The whole program for one token that the table does not hold: its
/// group between the header and the end.
pub proof fn lemma_one_token_program(
    t: Seq<char>,
    unique: Seq<Seq<char>>,
    c: nat,
    table: Seq<Seq<char>>,
    numbers: Seq<NumberCode>,
)
    requires
        first_missing(table, unique) is None,
        token_group(t, c, table, numbers) is Ok,
        token_group(t, c, table, numbers)->Ok_0.len() != 1,
    ensures
        tokens_binary(seq![t], unique, c, table, numbers) == Ok::<
            (Seq<Seq<char>>, Seq<Seq<char>>),
            Fault,
        >(
            (
                program_header(c, local_mappings(table, unique, c), table) + token_group(
                    t,
                    c,
                    table,
                    numbers,
                )->Ok_0 + seq![pad_binary(0, c), end_opcode()],
                local_mappings(table, unique, c),
            ),
        ),
{
    lemma_encode_one_token(
        t,
        c,
        table,
        numbers,
        local_mappings(table, unique, c),
        mapping_start(table, unique, c),
    );
}

/// An embedded number `<lit>` that is not a pattern is written as the
/// escape code, then the opcode and the bits of the number as an iota of
/// its own (not those of a vector component).
pub proof fn lemma_number_token(
    lit: Seq<char>,
    c: nat,
    table: Seq<Seq<char>>,
    numbers: Seq<NumberCode>,
)
    requires
        is_number(lit),
        lookup_number(numbers, lit) is Some,
        pattern_code(table, seq!['<'] + lit + seq!['>']) is None,
    ensures
        token_group(seq!['<'] + lit + seq!['>'], c, table, numbers) == Ok::<
            Seq<Seq<char>>,
            Fault,
        >(
            seq![
                pad_binary(0, c),
                lookup_number(numbers, lit)->0.scalar_opcode@,
                lookup_number(numbers, lit)->0.scalar_bits@,
            ],
        ),
{
    let t = seq!['<'] + lit + seq!['>'];
    lemma_number_iota(lit, c, table, numbers);
    assert(t.take(1) =~= seq!['<']);
    assert(t.skip(t.len() - 1) =~= seq!['>']);
}

/// A Numerical Reflection of `lit` that is not a pattern is written as the
/// code of Introspection, the number as an iota of its own (escape code,
/// scalar opcode, scalar bits), then the codes of Retrospection and of
/// Flock's Disintegration; the same inside a list.
pub proof fn lemma_numref_token(
    lit: Seq<char>,
    c: nat,
    table: Seq<Seq<char>>,
    numbers: Seq<NumberCode>,
)
    requires
        is_number(lit),
        lookup_number(numbers, lit) is Some,
        table.contains(intro_name()),
        table.contains(retro_name()),
        table.contains(flock_name()),
        pattern_code(table, numref_prefix() + lit) is None,
    ensures
        token_group(numref_prefix() + lit, c, table, numbers) == Ok::<Seq<Seq<char>>, Fault>(
            seq![
                pad_binary(code_of(table, intro_name()), c),
                pad_binary(0, c),
                lookup_number(numbers, lit)->0.scalar_opcode@,
                lookup_number(numbers, lit)->0.scalar_bits@,
                pad_binary(code_of(table, retro_name()), c),
                pad_binary(code_of(table, flock_name()), c),
            ],
        ),
        list_element(numref_prefix() + lit, c, table, numbers) == token_group(
            numref_prefix() + lit,
            c,
            table,
            numbers,
        ),
{
    let t = numref_prefix() + lit;
    lemma_prefix_lengths();
    reveal_strlit("Numerical Reflection: ");
    reveal_strlit("Bookkeeper's Gambit: ");
    lemma_number_shape(lit);
    assert(t[0] == 'N');
    assert(t.take(22) =~= numref_prefix());
    assert(t.skip(22) =~= lit);
    assert(is_numref(t));
    assert(t.take(1)[0] == 'N');
    assert(!is_prefix(seq!['<'], t));
    assert(t.take(21)[0] == 'N');
    assert(bookkeeper_prefix()[0] == 'B');
    assert(!is_prefix(bookkeeper_prefix(), t));
    assert(!is_digit('N'));
    assert(!starts_with_iota(t));
    lemma_pattern_index(table, intro_name());
    lemma_pattern_index(table, retro_name());
    lemma_pattern_index(table, flock_name());
    let g = numref_op(t, c, table, numbers)->Ok_0;
    assert(g =~= seq![
        pad_binary(code_of(table, intro_name()), c),
        pad_binary(0, c),
        lookup_number(numbers, lit)->0.scalar_opcode@,
        lookup_number(numbers, lit)->0.scalar_bits@,
        pad_binary(code_of(table, retro_name()), c),
        pad_binary(code_of(table, flock_name()), c),
    ]);
}

/// A Bookkeeper's Gambit that is not a pattern is written as a token
/// exactly as inside a list.
pub proof fn lemma_bookkeeper_token(
    t: Seq<char>,
    c: nat,
    table: Seq<Seq<char>>,
    numbers: Seq<NumberCode>,
)
    requires
        is_prefix(bookkeeper_prefix(), t),
        pattern_code(table, t) is None,
    ensures
        token_group(t, c, table, numbers) == bookkeeper_op(t, c),
        list_element(t, c, table, numbers) == bookkeeper_op(t, c),
{
    lemma_prefix_lengths();
    reveal_strlit("Bookkeeper's Gambit: ");
    lemma_bookkeeper_in_list(t, c, table, numbers);
    assert(t[0] == t.take(21)[0]);
    assert(t.take(1)[0] == t[0]);
    assert(!is_prefix(seq!['<'], t));
}

// ---------------------------------------------------------------------------
// Executable functions
// ---------------------------------------------------------------------------

/// `x` is one of the elements of `v`.
fn contains_chars(v: &Vec<Vec<char>>, x: &Vec<char>) -> (r: bool)
    ensures
        r == chars_view(v@).contains(x@),
{
    let mut i: usize = 0;
    while i < v.len()
        invariant
            i <= v.len(),
            forall|j: int| 0 <= j < i ==> chars_view(v@)[j] != x@,
        decreases v.len() - i,
    {
        if chars_eq(&v[i], x) {
            assert(chars_view(v@)[i as int] == x@);
            return true;
        }
        i = i + 1;
    }
    false
}

/// The patterns that an encoding of `tokens` uses: the table's patterns
/// among them, each once, and Introspection, Retrospection and Flock's
/// Disintegration when a Numerical Reflection is among them.
pub fn find_unique_patterns(tokens: &Vec<String>, patterns: &Vec<String>) -> (r: Vec<String>)
    ensures
        r.deep_view() == unique_patterns(patterns.deep_view(), tokens.deep_view()),
        r.deep_view().no_duplicates(),
        r.deep_view().to_set() == unique_pattern_set(patterns.deep_view(), tokens.deep_view()),
{
    let table = chars_of_all(patterns);
    let toks = chars_of_all(tokens);
    let ghost tv = chars_view(table@);
    let ghost kv = chars_view(toks@);
    let mut found: Vec<Vec<char>> = Vec::new();
    let mut any_numref = false;
    let nr = numref_prefix_chars();
    let mut i: usize = 0;
    while i < toks.len()
        invariant
            i <= toks.len(),
            tv == chars_view(table@),
            kv == chars_view(toks@),
            nr@ == numref_prefix(),
            chars_view(found@) == patterns_in(tv, kv.take(i as int)),
            any_numref == has_numref_token(kv.take(i as int)),
        decreases toks.len() - i,
    {
        let ghost before = kv.take(i as int);
        assert(kv.take(i + 1).drop_last() =~= before);
        assert(kv.take(i + 1).last() == kv[i as int]);
        let t = &toks[i];
        proof {
            lemma_pattern_index(tv, t@);
        }
        if get_pat_bin_optional(t, &table).is_some() && !contains_chars(&found, t) {
            let ghost f0 = chars_view(found@);
            found.push(t.clone());
            assert(chars_view(found@) =~= f0.push(t@));
        }
        let is_nr = starts_with(t, &nr);
        proof {
            let after = kv.take(i + 1);
            if any_numref {
                let j = choose|j: int| 0 <= j < before.len() && is_prefix(numref_prefix(), #[trigger] before[j]);
                assert(after[j] == before[j]);
            }
            if is_nr {
                assert(is_prefix(numref_prefix(), after[i as int]));
            }
            if has_numref_token(after) {
                let j = choose|j: int| 0 <= j < after.len() && is_prefix(numref_prefix(), #[trigger] after[j]);
                if j < i {
                    assert(before[j] == after[j]);
                }
            }
        }
        any_numref = any_numref || is_nr;
        i = i + 1;
    }
    assert(kv.take(toks.len() as int) =~= kv);
    if any_numref {
        let intro = chars_of("Introspection");
        let retro = chars_of("Retrospection");
        let flock = chars_of("Flock's Disintegration");
        if !contains_chars(&found, &intro) {
            let ghost f0 = chars_view(found@);
            found.push(intro);
            assert(chars_view(found@) =~= f0.push(intro_name()));
        }
        if !contains_chars(&found, &retro) {
            let ghost f0 = chars_view(found@);
            found.push(retro);
            assert(chars_view(found@) =~= f0.push(retro_name()));
        }
        if !contains_chars(&found, &flock) {
            let ghost f0 = chars_view(found@);
            found.push(flock);
            assert(chars_view(found@) =~= f0.push(flock_name()));
        }
    }
    proof {
        lemma_unique_patterns(tv, kv);
    }
    strings_of(&found)
}

/// The number of codes that `c` bits address directly.
fn addresses_exec(c: u32) -> (r: usize)
    ensures
        r == addresses(c as nat),
{
    let half: usize = (isize::MAX as usize) / 2;
    let mut p: usize = 1;
    let mut i: u32 = 0;
    while i < c && p <= half
        invariant
            i <= c,
            p == pow2(i as nat),
            p <= isize::MAX,
            half == isize::MAX / 2,
        decreases c - i,
    {
        p = p * 2;
        i = i + 1;
    }
    if i == c {
        if p >= 2 {
            p - 2
        } else {
            0
        }
    } else {
        proof {
            lemma_sign_bit_power(i as nat);
            if c > i + 1 {
                lemma_pow2_monotone((i + 2) as nat, c as nat);
                assert(pow2((i + 2) as nat) == 2 * pow2((i + 1) as nat));
            }
        }
        if c == i + 1 {
            (isize::MAX as usize) - 1
        } else {
            0
        }
    }
}

/// The powers of two around the sign bits of 32- and 64-bit integers.
proof fn lemma_sign_bit_powers()
    ensures
        pow2(29) == 0x2000_0000,
        pow2(30) == 0x4000_0000,
        pow2(31) == 0x8000_0000,
        pow2(61) == 0x2000_0000_0000_0000,
        pow2(62) == 0x4000_0000_0000_0000,
        pow2(63) == 0x8000_0000_0000_0000,
{
    reveal_with_fuel(pow2, 64);
}

/// A power of two beyond half of `isize::MAX` but within it doubles to
/// just past `isize::MAX`.
proof fn lemma_sign_bit_power(i: nat)
    requires
        pow2(i) <= isize::MAX,
        pow2(i) > isize::MAX / 2,
    ensures
        pow2(i + 1) == isize::MAX + 1,
{
    assert(pow2(i + 1) == 2 * pow2(i));
    lemma_sign_bit_powers();
    if isize::MAX == 0x7fff_ffff {
        if i < 30 {
            lemma_pow2_monotone(i, 29);
        } else if i > 30 {
            lemma_pow2_monotone(31, i);
        }
    } else {
        assert(isize::MAX == 0x7fff_ffff_ffff_ffff);
        if i < 62 {
            lemma_pow2_monotone(i, 61);
        } else if i > 62 {
            lemma_pow2_monotone(63, i);
        }
    }
}

/// How many of `unique` have a code of at least `k`.
fn count_codes_from_exec(table: &Vec<Vec<char>>, unique: &Vec<Vec<char>>, k: usize) -> (r: usize)
    requires
        forall|i: int|
            0 <= i < unique.len() ==> pattern_code(chars_view(table@), #[trigger] chars_view(
                unique@,
            )[i]) is Some,
    ensures
        r == count_codes_from(chars_view(table@), chars_view(unique@), k as nat),
        r <= unique.len(),
{
    let ghost tv = chars_view(table@);
    let ghost uv = chars_view(unique@);
    let mut n: usize = 0;
    let mut i: usize = 0;
    while i < unique.len()
        invariant
            i <= unique.len(),
            n <= i,
            tv == chars_view(table@),
            uv == chars_view(unique@),
            forall|j: int| 0 <= j < unique.len() ==> pattern_code(tv, #[trigger] uv[j]) is Some,
            n == count_codes_from(tv, uv.take(i as int), k as nat),
        decreases unique.len() - i,
    {
        assert(uv.take(i + 1).drop_last() =~= uv.take(i as int));
        assert(uv.take(i + 1).last() == uv[i as int]);
        assert(pattern_code(tv, uv[i as int]) is Some);
        let code = get_pat_bin(&unique[i], table);
        if code >= k {
            n = n + 1;
        }
        i = i + 1;
    }
    assert(uv.take(unique.len() as int) =~= uv);
    n
}

/// The binary form of one token, before local mappings are applied.
fn token_group_exec(
    t: &Vec<char>,
    chunk_size: u32,
    table: &Vec<Vec<char>>,
    numbers: &Vec<NumberCode>,
) -> (r: Result<Vec<Vec<char>>, EncodingError>)
    ensures
        result_is(r, token_group(t@, chunk_size as nat, chars_view(table@), numbers@)),
{
    match get_pat_bin_optional(t, table) {
        Some(b) => {
            let mut r: Vec<Vec<char>> = Vec::new();
            r.push(pad_0_upto(b, chunk_size));
            assert(chars_view(r@) =~= seq![pad_binary(b as nat, chunk_size as nat)]);
            Ok(r)
        },
        None => {
            let lt = vec!['<'];
            let gt = vec!['>'];
            assert(lt@ == seq!['<']);
            assert(gt@ == seq!['>']);
            if starts_with(t, &lt) && ends_with(t, &gt) {
                iota_to_binary(t, chunk_size, table, numbers)
            } else if starts_with(t, &bookkeeper_prefix_chars()) {
                make_bk_op(t, chunk_size)
            } else if starts_with(t, &numref_prefix_chars()) {
                make_numref(t, chunk_size, table, numbers)
            } else {
                Err(EncodingError::new(ErrorKind::InvalidToken, t.clone()))
            }
        },
    }
}

/// A one-line group equal to a local mapping becomes that mapping's
/// address.
fn finish_group_exec(g: Vec<Vec<char>>, lm: &Vec<Vec<char>>, start: usize, chunk_size: u32) -> (r:
    Vec<Vec<char>>)
    ensures
        chars_view(r@) == finish_group(chars_view(g@), chars_view(lm@), start as nat, chunk_size as nat),
{
    if g.len() != 1 {
        return g;
    }
    assert(chars_view(g@)[0] == g@[0]@);
    proof {
        lemma_pattern_index(chars_view(lm@), g@[0]@);
    }
    match get_pat_bin_optional(&g[0], lm) {
        Some(code) => {
            let mut r: Vec<Vec<char>> = Vec::new();
            r.push(pad_0_upto((code - 1).wrapping_add(start), chunk_size));
            assert(chars_view(r@) =~= seq![
                pad_binary(wrap_add((code - 1) as nat, start as nat), chunk_size as nat),
            ]);
            r
        },
        None => g,
    }
}

/// A pattern missing among the first patterns in use is the first missing
/// among all of them.
proof fn lemma_first_missing_prefix(table: Seq<Seq<char>>, unique: Seq<Seq<char>>, n: int)
    requires
        0 <= n <= unique.len(),
        first_missing(table, unique.take(n)) is Some,
    ensures
        first_missing(table, unique) == first_missing(table, unique.take(n)),
    decreases unique.len() - n,
{
    if n < unique.len() {
        assert(unique.take(n + 1).drop_last() =~= unique.take(n));
        lemma_first_missing_prefix(table, unique, n + 1);
    } else {
        assert(unique.take(n) =~= unique);
    }
}

/// The binary program for `tokens` with chunk size `chunk_size`, and its
/// local mappings, or where the encoder stops.
fn program_for_chunk_size(
    tokens: &Vec<String>,
    unique_patterns: &Vec<String>,
    chunk_size: u32,
    patterns: &Vec<String>,
    numbers: &Vec<NumberCode>,
) -> (r: Result<(Vec<String>, Vec<String>), EncodingError>)
    requires
        unique_patterns.deep_view().no_duplicates(),
    ensures
        match r {
            Ok((out, lm)) => tokens_binary(
                tokens.deep_view(),
                unique_patterns.deep_view(),
                chunk_size as nat,
                patterns.deep_view(),
                numbers@,
            ) == Ok::<(Seq<Seq<char>>, Seq<Seq<char>>), Fault>((out.deep_view(), lm.deep_view())),
            Err(e) => tokens_binary(
                tokens.deep_view(),
                unique_patterns.deep_view(),
                chunk_size as nat,
                patterns.deep_view(),
                numbers@,
            ) == Err::<(Seq<Seq<char>>, Seq<Seq<char>>), Fault>(e@),
        },
{
    let table = chars_of_all(patterns);
    let unique = chars_of_all(unique_patterns);
    let toks = chars_of_all(tokens);
    let ghost tv = chars_view(table@);
    let ghost uv = chars_view(unique@);
    let ghost kv = chars_view(toks@);
    let ghost c = chunk_size as nat;
    let mut m: usize = 0;
    while m < unique.len()
        invariant
            m <= unique.len(),
            tv == chars_view(table@),
            uv == chars_view(unique@),
            uv == unique_patterns.deep_view(),
            tv == patterns.deep_view(),
            unique.len() == unique_patterns.len(),
            first_missing(tv, uv.take(m as int)) is None,
            forall|i: int| 0 <= i < m ==> pattern_code(tv, #[trigger] uv[i]) is Some,
        decreases unique.len() - m,
    {
        assert(uv.take(m + 1).drop_last() =~= uv.take(m as int));
        assert(uv.take(m + 1).last() == uv[m as int]);
        proof {
            lemma_pattern_index(tv, uv[m as int]);
        }
        if get_pat_bin_optional(&unique[m], &table).is_none() {
            proof {
                assert(unique@[m as int]@ == uv[m as int]);
                assert(!tv.contains(uv[m as int]));
                assert(first_missing(tv, uv.take(m + 1)) == Some(uv[m as int]));
                lemma_first_missing_prefix(tv, uv, m + 1);
            }
            let name = chars_of(unique_patterns[m].as_str());
            assert(name@ == uv[m as int]);
            return Err(EncodingError::new(ErrorKind::NotAPattern, name));
        }
        m = m + 1;
    }
    assert(uv.take(unique.len() as int) =~= uv);
    let addr = addresses_exec(chunk_size);
    let beyond = count_codes_from_exec(&table, &unique, addr);
    let threshold = addr.wrapping_sub(beyond);
    let extras = count_codes_from_exec(&table, &unique, threshold);
    let start = threshold.wrapping_add(extras);
    assert(threshold == mapping_threshold(tv, uv, c));
    assert(start == mapping_start(tv, uv, c));
    // Local mappings, highest code first.
    let mut lm: Vec<Vec<char>> = Vec::new();
    let mut lm_codes: Vec<usize> = Vec::new();
    let mut k: usize = table.len();
    while k > 0
        invariant
            k <= table.len(),
            tv == chars_view(table@),
            uv == chars_view(unique@),
            lm_codes.len() == lm.len(),
            forall|j: int| 0 <= j < lm.len() ==> #[trigger] lm_codes@[j] == code_of(tv, chars_view(lm@)[j]),
            chars_view(lm@) + mappings_upto(tv, uv, threshold as nat, addr as nat, k as nat)
                == mappings_upto(tv, uv, threshold as nat, addr as nat, table.len() as nat),
        decreases k,
    {
        let p = &table[k - 1];
        let ghost pv = tv[k - 1];
        assert(p@ == pv);
        let first = match get_pat_bin_optional(p, &table) {
            Some(b) => b == k,
            None => false,
        };
        proof {
            lemma_pattern_index(tv, pv);
        }
        assert(first == (pattern_index(tv, pv) == Some((k - 1) as int)));
        let ghost l0 = chars_view(lm@);
        let ghost here: Seq<Seq<char>>;
        if first && contains_chars(&unique, p) && (k >= threshold || k >= addr) {
            assert(code_of(tv, pv) == k);
            lm.push(p.clone());
            lm_codes.push(k);
            if k >= threshold && k >= addr {
                lm.push(p.clone());
                lm_codes.push(k);
                proof {
                    here = seq![pv, pv];
                }
            } else {
                proof {
                    here = seq![pv];
                }
            }
        } else {
            proof {
                here = Seq::empty();
            }
        }
        proof {
            assert(mappings_upto(tv, uv, threshold as nat, addr as nat, k as nat) == here
                + mappings_upto(tv, uv, threshold as nat, addr as nat, (k - 1) as nat));
            assert(chars_view(lm@) =~= l0 + here);
            assert(l0 + (here + mappings_upto(tv, uv, threshold as nat, addr as nat, (k - 1) as nat))
                =~= (l0 + here) + mappings_upto(tv, uv, threshold as nat, addr as nat, (k - 1) as nat));
        }
        k = k - 1;
    }
    let ghost lmv = chars_view(lm@);
    assert(lmv + Seq::<Seq<char>>::empty() =~= lmv);
    assert(lmv == local_mappings(tv, uv, c));
    // The header.
    let mut out: Vec<Vec<char>> = Vec::new();
    out.push(vec!['0', '0', '0', '0', '0', '0', '0', '0']);
    out.push(pad_0_upto(chunk_size as usize, 4));
    out.push(pad_0_upto(lm.len(), 8));
    proof {
        assert(seq!['0', '0', '0', '0', '0', '0', '0', '0'] =~= encoding_version());
    }
    let ghost h0 = chars_view(out@);
    assert(h0 =~= seq![encoding_version(), pad_binary(c, 4), pad_binary(lmv.len(), 8)]);
    let mut j: usize = 0;
    while j < lm.len()
        invariant
            j <= lm.len(),
            lm_codes.len() == lm.len(),
            lmv == chars_view(lm@),
            forall|i: int| 0 <= i < lm.len() ==> #[trigger] lm_codes@[i] == code_of(tv, lmv[i]),
            chars_view(out@) == h0 + lmv.take(j as int).map_values(
                |p: Seq<char>| pad_binary(code_of(tv, p), 8),
            ),
        decreases lm.len() - j,
    {
        let ghost o0 = chars_view(out@);
        out.push(pad_0_upto(lm_codes[j], 8));
        assert(lm_codes@[j as int] == code_of(tv, lmv[j as int]));
        assert(lmv.take(j + 1).map_values(|p: Seq<char>| pad_binary(code_of(tv, p), 8)) =~= lmv.take(
            j as int,
        ).map_values(|p: Seq<char>| pad_binary(code_of(tv, p), 8)).push(
            pad_binary(code_of(tv, lmv[j as int]), 8),
        ));
        assert(chars_view(out@) =~= o0.push(pad_binary(code_of(tv, lmv[j as int]), 8)));
        j = j + 1;
    }
    assert(lmv.take(lm.len() as int) =~= lmv);
    let ghost header = chars_view(out@);
    assert(header == program_header(c, lmv, tv));
    // The tokens.
    let mut body: Vec<Vec<char>> = Vec::new();
    let mut i: usize = 0;
    assert(kv.skip(0) =~= kv);
    while i < toks.len()
        invariant
            i <= toks.len(),
            tv == chars_view(table@),
            kv == chars_view(toks@),
            lmv == chars_view(lm@),
            c == chunk_size as nat,
            first_missing(tv, uv) is None,
            tv == patterns.deep_view(),
            uv == unique_patterns.deep_view(),
            kv == tokens.deep_view(),
            lmv == local_mappings(tv, uv, c),
            start == mapping_start(tv, uv, c),
            encode_tokens(kv, c, tv, numbers@, lmv, start as nat) == prepend(
                chars_view(body@),
                encode_tokens(kv.skip(i as int), c, tv, numbers@, lmv, start as nat),
            ),
        decreases toks.len() - i,
    {
        assert(kv.skip(i as int)[0] == kv[i as int]);
        assert(kv.skip(i as int).drop_first() =~= kv.skip(i + 1));
        assert(encode_tokens(kv.skip(i as int), c, tv, numbers@, lmv, start as nat) == match token_group(
            kv[i as int],
            c,
            tv,
            numbers@,
        ) {
            Err(e) => Err(e),
            Ok(g) => prepend(
                finish_group(g, lmv, start as nat, c),
                encode_tokens(kv.skip(i + 1), c, tv, numbers@, lmv, start as nat),
            ),
        });
        let res = token_group_exec(&toks[i], chunk_size, &table, numbers);
        let g = match res {
            Err(e) => {
                return Err(e);
            },
            Ok(g) => g,
        };
        let ghost gv = chars_view(g@);
        let f = finish_group_exec(g, &lm, start, chunk_size);
        let ghost b0 = chars_view(body@);
        append_all(&mut body, &f);
        proof {
            match encode_tokens(kv.skip(i + 1), c, tv, numbers@, lmv, start as nat) {
                Ok(v) => {
                    assert(b0 + (chars_view(f@) + v) =~= chars_view(body@) + v);
                },
                Err(_) => {},
            }
        }
        i = i + 1;
    }
    assert(kv.skip(toks.len() as int) =~= Seq::<Seq<char>>::empty());
    assert(chars_view(body@) + Seq::<Seq<char>>::empty() =~= chars_view(body@));
    let ghost bodyv = chars_view(body@);
    append_all(&mut out, &body);
    let ghost o1 = chars_view(out@);
    out.push(pad_0_upto(0, chunk_size));
    out.push(vec!['0', '0', '0']);
    assert(chars_view(out@) =~= o1 + seq![pad_binary(0, c), end_opcode()]);
    Ok((strings_of(&out), strings_of(&lm)))
}

/// The size of a program: its bytes without spaces, `usize::MAX` at most.
pub fn program_size_exec(program: &Vec<String>) -> (r: usize)
    ensures
        r == program_size(program.deep_view()),
{
    let v = chars_of_all(program);
    let ghost vv = chars_view(v@);
    let mut total: usize = 0;
    let mut i: usize = 0;
    while i < v.len()
        invariant
            i <= v.len(),
            vv == chars_view(v@),
            total == capped(lines_weight(vv.take(i as int))),
        decreases v.len() - i,
    {
        assert(vv.take(i + 1).drop_last() =~= vv.take(i as int));
        assert(vv.take(i + 1).last() == v@[i as int]@);
        let line = &v[i];
        let ghost before = lines_weight(vv.take(i as int));
        let mut j: usize = 0;
        while j < line.len()
            invariant
                j <= line.len(),
                total == capped(before + text_weight(line@.take(j as int))),
            decreases line.len() - j,
        {
            assert(line@.take(j + 1).drop_last() =~= line@.take(j as int));
            let ch = line[j];
            let w: usize = if ch == ' ' {
                0
            } else if '\u{80}' > ch {
                1
            } else if '\u{800}' > ch {
                2
            } else if '\u{10000}' > ch {
                3
            } else {
                4
            };
            total = total.saturating_add(w);
            j = j + 1;
        }
        assert(line@.take(line.len() as int) =~= line@);
        i = i + 1;
    }
    assert(vv.take(v.len() as int) =~= vv);
    total
}

/// The program for `tokens`: the shortest over the chunk sizes from
/// `floor(log2(patterns in use))` up to, not including, the bits of the
/// whole table; the earliest of equally short ones. Where the encoder
/// stops for want of a pattern, the failure says which.
pub fn try_encode(tokens: &Vec<String>, patterns: &Vec<String>, numbers: &Vec<NumberCode>) -> (r:
    Result<Vec<String>, EncodingError>)
    ensures
        match r {
            Ok(v) => encoding(tokens.deep_view(), patterns.deep_view(), numbers@) == Ok::<
                Seq<Seq<char>>,
                Fault,
            >(v.deep_view()),
            Err(e) => encoding(tokens.deep_view(), patterns.deep_view(), numbers@) == Err::<
                Seq<Seq<char>>,
                Fault,
            >(e@),
        },
{
    let ghost tv = patterns.deep_view();
    let ghost kv = tokens.deep_view();
    let unique = find_unique_patterns(tokens, patterns);
    let ghost uv = unique.deep_view();
    proof {
        lemma_unique_patterns(tv, kv);
    }
    let lo = floor_log2_exec(unique.len());
    let hi = ceil_log2_exec(patterns.len());
    let mut best: Vec<String> = Vec::new();
    let mut best_size: usize = usize::MAX;
    let mut c = lo;
    assert(best.deep_view() =~= Seq::<Seq<char>>::empty());
    while c < hi
        invariant
            hi == ceil_log2(patterns.len() as nat),
            tv == patterns.deep_view(),
            kv == tokens.deep_view(),
            uv == unique.deep_view(),
            uv.no_duplicates(),
            encoding(kv, tv, numbers@) == best_encoding(
                kv,
                uv,
                tv,
                numbers@,
                c as nat,
                hi as nat,
                best.deep_view(),
                best_size as nat,
            ),
        decreases hi - c,
    {
        let res = program_for_chunk_size(tokens, &unique, c, patterns, numbers);
        match res {
            Err(e) => {
                return Err(e);
            },
            Ok((out, _)) => {
                let size = program_size_exec(&out);
                if size < best_size {
                    best = out;
                    best_size = size;
                }
            },
        }
        c = c + 1;
    }
    Ok(best)
}

/// The program for `tokens`: the shortest over the chunk sizes from
/// `floor(log2(patterns in use))` up to, not including, the bits of the
/// whole table; the earliest of equally short ones.
pub fn encode(tokens: &Vec<String>, patterns: &Vec<String>, numbers: &Vec<NumberCode>) -> (r:
    Result<Vec<String>, EncodingError>)
    requires
        !stops(encoding(tokens.deep_view(), patterns.deep_view(), numbers@)),
    ensures
        match r {
            Ok(v) => encoding(tokens.deep_view(), patterns.deep_view(), numbers@) == Ok::<
                Seq<Seq<char>>,
                Fault,
            >(v.deep_view()),
            Err(e) => encoding(tokens.deep_view(), patterns.deep_view(), numbers@) == Err::<
                Seq<Seq<char>>,
                Fault,
            >(e@),
        },
{
    try_encode(tokens, patterns, numbers)
}

/// The binary program for `tokens` with chunk size `chunk_size`, and its
/// local mappings: the header (version, chunk size, local mappings), each
/// token's binary form, then the end of the program. The patterns in use
/// are distinct, and the encoder must not stop for want of a pattern.
pub fn tokens_to_binary(
    tokens: &Vec<String>,
    unique_patterns: &Vec<String>,
    chunk_size: u32,
    patterns: &Vec<String>,
    numbers: &Vec<NumberCode>,
) -> (r: Result<(Vec<String>, Vec<String>), EncodingError>)
    requires
        unique_patterns.deep_view().no_duplicates(),
        !stops(
            tokens_binary(
                tokens.deep_view(),
                unique_patterns.deep_view(),
                chunk_size as nat,
                patterns.deep_view(),
                numbers@,
            ),
        ),
    ensures
        match r {
            Ok((out, lm)) => tokens_binary(
                tokens.deep_view(),
                unique_patterns.deep_view(),
                chunk_size as nat,
                patterns.deep_view(),
                numbers@,
            ) == Ok::<(Seq<Seq<char>>, Seq<Seq<char>>), Fault>((out.deep_view(), lm.deep_view())),
            Err(e) => tokens_binary(
                tokens.deep_view(),
                unique_patterns.deep_view(),
                chunk_size as nat,
                patterns.deep_view(),
                numbers@,
            ) == Err::<(Seq<Seq<char>>, Seq<Seq<char>>), Fault>(e@),
        },
{
    program_for_chunk_size(tokens, unique_patterns, chunk_size, patterns, numbers)
}

} // verus!
