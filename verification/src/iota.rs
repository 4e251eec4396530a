//! The binary form of the tokens that carry data: embedded iotas (lists,
//! vectors, numbers), Bookkeeper's Gambits and Numerical Reflections.
use vstd::prelude::*;

use crate::binary::{binary_digits, lemma_pad_binary, pad_0_upto, pad_binary, repeat_char};
use crate::error::{EncodingError, ErrorKind, Fault};
use crate::grammar::{
    bookkeeper_chars, bookkeeper_prefix, bookkeeper_prefix_chars, inner, inner_chars,
    is_bookkeeper, is_digit, is_list_iota, is_number, is_numref, is_vec_iota, lemma_prefix_lengths,
    list_iota_chars, number_chars, numref_chars, numref_prefix, numref_prefix_chars,
    starts_with_iota, starts_with_iota_chars, vec_components, vec_components_chars,
    vec_iota_chars,
};
use crate::numbers::{find_number, lookup_number, NumberCode};
use crate::patterns::{get_pat_bin, get_pat_bin_optional, pattern_code};
use crate::text::{
    append_all, chars_of, chars_view, first_index_of, is_prefix, is_suffix, lemma_first_index_of, lemma_trim_len, starts_with, strip_prefix,
    strip_prefix_chars, strip_suffix, strip_suffix_chars, sub_chars, trim, trim_chars,
};
use crate::tokenizer::{flock_name, intro_name, prepend, result_is, retro_name, Lines};

verus! {

// ---------------------------------------------------------------------------
// Specifications
// ---------------------------------------------------------------------------

/// The opcode that opens a list iota.
pub open spec fn list_opcode() -> Seq<char> {
    seq!['1', '1', '1']
}

/// The opcode that ends a list and the whole program.
pub open spec fn end_opcode() -> Seq<char> {
    seq!['0', '0', '0']
}

/// The opcode of a vector iota.
pub open spec fn vec_opcode() -> Seq<char> {
    seq!['1', '1', '0']
}

/// The opcode of a Bookkeeper's Gambit of fewer than 4 strokes.
pub open spec fn bookkeeper4_opcode() -> Seq<char> {
    seq!['1', '0', '0']
}

/// The opcode of a Bookkeeper's Gambit of 4 to 15 strokes.
pub open spec fn bookkeeper16_opcode() -> Seq<char> {
    seq!['1', '0', '1']
}

/// The code of a pattern that is in the table (0 for one that is not).
pub open spec fn code_of(table: Seq<Seq<char>>, p: Seq<char>) -> nat {
    match pattern_code(table, p) {
        Some(b) => b,
        None => 0,
    }
}


/// The bits of Bookkeeper's strokes: `v` keeps (1), `-` removes (0).
pub open spec fn stroke_bits(s: Seq<char>) -> Seq<char> {
    Seq::new(s.len(), |i: int| if s[i] == 'v' { '1' } else { '0' })
}

/// A Bookkeeper's Gambit: the escape code, an opcode for its width, and
/// its strokes padded in front with removals to 4 or 16.
pub open spec fn bookkeeper_op(t: Seq<char>, c: nat) -> Lines {
    if !is_bookkeeper(t) {
        Err((ErrorKind::InvalidBookkeeper, t))
    } else {
        let body = t.skip(bookkeeper_prefix().len() as int);
        if body.len() < 4 {
            Ok(
                seq![
                    pad_binary(0, c),
                    bookkeeper4_opcode(),
                    stroke_bits(repeat_char('-', (4 - body.len()) as nat) + body),
                ],
            )
        } else if body.len() < 16 {
            Ok(
                seq![
                    pad_binary(0, c),
                    bookkeeper16_opcode(),
                    stroke_bits(repeat_char('-', (16 - body.len()) as nat) + body),
                ],
            )
        } else {
            Err((ErrorKind::BookkeeperTooLong, body))
        }
    }
}

/// A number as an iota of its own: the escape code, its opcode and its bits.
pub open spec fn embed_num(lit: Seq<char>, c: nat, numbers: Seq<NumberCode>) -> Lines {
    match lookup_number(numbers, lit) {
        Some(code) => Ok(seq![pad_binary(0, c), code.scalar_opcode@, code.scalar_bits@]),
        None => Err((ErrorKind::MissingNumberCode, lit)),
    }
}

/// A vector: the escape code, the vector opcode, then the opcode and bits
/// of each component.
pub open spec fn embed_vec(xs: Seq<Seq<char>>, c: nat, numbers: Seq<NumberCode>) -> Lines {
    match lookup_number(numbers, xs[0]) {
        None => Err((ErrorKind::MissingNumberCode, xs[0])),
        Some(a) => match lookup_number(numbers, xs[1]) {
            None => Err((ErrorKind::MissingNumberCode, xs[1])),
            Some(b) => match lookup_number(numbers, xs[2]) {
                None => Err((ErrorKind::MissingNumberCode, xs[2])),
                Some(d) => Ok(
                    seq![
                        pad_binary(0, c),
                        vec_opcode(),
                        a.component_opcode@,
                        a.component_bits@,
                        b.component_opcode@,
                        b.component_bits@,
                        d.component_opcode@,
                        d.component_bits@,
                    ],
                ),
            },
        },
    }
}

/// A Numerical Reflection: the number embedded in a quoted block that is
/// unpacked onto the stack. The encoder stops where one of the three
/// patterns it needs is not in the table, at the first it looks up.
pub open spec fn numref_op(
    t: Seq<char>,
    c: nat,
    table: Seq<Seq<char>>,
    numbers: Seq<NumberCode>,
) -> Lines {
    if !is_numref(t) {
        Err((ErrorKind::InvalidNumericalReflection, t))
    } else if pattern_code(table, intro_name()) is None {
        Err((ErrorKind::NotAPattern, intro_name()))
    } else {
        match embed_num(t.skip(numref_prefix().len() as int), c, numbers) {
            Err(e) => Err(e),
            Ok(g) => if pattern_code(table, retro_name()) is None {
                Err((ErrorKind::NotAPattern, retro_name()))
            } else if pattern_code(table, flock_name()) is None {
                Err((ErrorKind::NotAPattern, flock_name()))
            } else {
                Ok(seq![pad_binary(code_of(table, intro_name()), c)] + g + seq![
                    pad_binary(code_of(table, retro_name()), c),
                    pad_binary(code_of(table, flock_name()), c),
                ])
            },
        }
    }
}

/// The pieces of a list's inside, scanned from `rest` with bracket depth
/// `nest` and the piece `part` begun: a piece ends at a comma outside any
/// nested list, or where a nested list closes (the closing bracket kept);
/// opening a nested list ends the piece before it; brackets opened inside a
/// nested list are dropped.
pub open spec fn split_list_from(nest: nat, part: Seq<char>, rest: Seq<char>) -> Seq<Seq<char>>
    decreases rest.len(),
{
    if rest.len() == 0 {
        Seq::empty()
    } else {
        let ch = rest[0];
        let tail = rest.drop_first();
        if ch == '[' {
            if nest + 1 > 1 {
                split_list_from(nest + 1, part, tail)
            } else {
                seq![part] + split_list_from(nest + 1, seq!['['], tail)
            }
        } else if ch == ']' {
            let n = if nest == 0 {
                0nat
            } else {
                (nest - 1) as nat
            };
            if n > 0 {
                split_list_from(n, part.push(']'), tail)
            } else {
                seq![part.push(']')] + split_list_from(n, Seq::empty(), tail)
            }
        } else if ch == ',' && nest == 0 {
            seq![part] + split_list_from(0, Seq::empty(), tail)
        } else {
            split_list_from(nest, part.push(ch), tail)
        }
    }
}

/// The text that is scanned for a list's elements: its inside without one
/// trailing comma, then a comma.
pub open spec fn list_scan_text(content: Seq<char>) -> Seq<char> {
    strip_suffix(content, seq![',']).push(',')
}

/// The pieces of a list's inside.
pub open spec fn list_parts(content: Seq<char>) -> Seq<Seq<char>> {
    split_list_from(0, Seq::empty(), list_scan_text(content))
}

/// Each piece, trimmed, is no longer than `bound`.
pub open spec fn parts_fit(parts: Seq<Seq<char>>, bound: nat) -> bool {
    forall|k: int| 0 <= k < parts.len() ==> #[trigger] trim(parts[k]).len() <= bound
}

/// An embedded iota `t`, without its `<` and `>`: a list, a vector or a
/// number.
pub open spec fn iota_binary(
    t: Seq<char>,
    c: nat,
    table: Seq<Seq<char>>,
    numbers: Seq<NumberCode>,
) -> Lines
    decreases 2 * t.len(), 0nat,
{
    let u = strip_suffix(strip_prefix(t, seq!['<']), seq!['>']);
    if is_list_iota(u) {
        list_binary(inner(u), c, table, numbers)
    } else if is_vec_iota(u) {
        embed_vec(vec_components(inner(u))->0, c, numbers)
    } else if is_number(u) {
        embed_num(u, c, numbers)
    } else {
        Err((ErrorKind::InvalidIota, u))
    }
}

/// A list iota from its inside: the escape code, the list opcode, its
/// elements, then the escape code and the end opcode.
pub open spec fn list_binary(
    content: Seq<char>,
    c: nat,
    table: Seq<Seq<char>>,
    numbers: Seq<NumberCode>,
) -> Lines
    decreases 2 * content.len() + 1, 0nat,
{
    match list_elems(list_parts(content), content.len(), c, table, numbers) {
        Err(e) => Err(e),
        Ok(body) => Ok(seq![pad_binary(0, c), list_opcode()] + body + seq![
            pad_binary(0, c),
            end_opcode(),
        ]),
    }
}

/// The elements of a list, each from its trimmed piece, in order.
pub open spec fn list_elems(
    parts: Seq<Seq<char>>,
    bound: nat,
    c: nat,
    table: Seq<Seq<char>>,
    numbers: Seq<NumberCode>,
) -> Lines
    decreases 2 * bound, parts.len() + 1,
    when parts_fit(parts, bound)
{
    if parts.len() == 0 {
        Ok(Seq::empty())
    } else {
        match list_element(trim(parts[0]), c, table, numbers) {
            Err(e) => Err(e),
            Ok(g) => prepend(g, list_elems(parts.drop_first(), bound, c, table, numbers)),
        }
    }
}

/// One element of a list: a pattern's code, an iota, a Bookkeeper's Gambit
/// or a Numerical Reflection.
pub open spec fn list_element(
    t: Seq<char>,
    c: nat,
    table: Seq<Seq<char>>,
    numbers: Seq<NumberCode>,
) -> Lines
    decreases 2 * t.len(), 1nat,
{
    if t.len() == 0 {
        Err((ErrorKind::TooManyCommas, Seq::empty()))
    } else {
        match pattern_code(table, t) {
            Some(b) => Ok(seq![pad_binary(b, c)]),
            None => if starts_with_iota(t) {
                iota_binary(t, c, table, numbers)
            } else if is_prefix(bookkeeper_prefix(), t) {
                bookkeeper_op(t, c)
            } else if is_prefix(numref_prefix(), t) {
                numref_op(t, c, table, numbers)
            } else {
                Err((ErrorKind::InvalidListElement, t))
            },
        }
    }
}

// ---------------------------------------------------------------------------
// Lemmas
// ---------------------------------------------------------------------------

/// A piece is no longer than the text it was scanned from, less the final
/// comma.
proof fn lemma_split_list_lengths(nest: nat, part: Seq<char>, rest: Seq<char>)
    requires
        rest.len() > 0,
        rest.last() == ',',
    ensures
        forall|k: int|
            0 <= k < split_list_from(nest, part, rest).len() ==> #[trigger] split_list_from(
                nest,
                part,
                rest,
            )[k].len() <= part.len() + rest.len() - 1,
    decreases rest.len(),
{
    let ch = rest[0];
    let tail = rest.drop_first();
    let r = split_list_from(nest, part, rest);
    let bound = part.len() + rest.len() - 1;
    if tail.len() == 0 {
        assert(ch == ',');
        if nest == 0 {
            assert(split_list_from(0, Seq::empty(), tail) == Seq::<Seq<char>>::empty());
            assert(r =~= seq![part]);
        } else {
            assert(split_list_from(nest, part.push(ch), tail) == Seq::<Seq<char>>::empty());
            assert(r =~= Seq::<Seq<char>>::empty());
        }
    } else {
        assert(tail.last() == ',');
        if ch == '[' {
            if nest + 1 > 1 {
                lemma_split_list_lengths(nest + 1, part, tail);
                assert(r == split_list_from(nest + 1, part, tail));
            } else {
                lemma_split_list_lengths(nest + 1, seq!['['], tail);
                let r2 = split_list_from(nest + 1, seq!['['], tail);
                assert(r == seq![part] + r2);
                assert forall|k: int| 0 <= k < r.len() implies #[trigger] r[k].len() <= bound by {
                    if k > 0 {
                        assert(r[k] == r2[k - 1]);
                    }
                }
            }
        } else if ch == ']' {
            let n = if nest == 0 {
                0nat
            } else {
                (nest - 1) as nat
            };
            if n > 0 {
                lemma_split_list_lengths(n, part.push(']'), tail);
                assert(r == split_list_from(n, part.push(']'), tail));
            } else {
                lemma_split_list_lengths(n, Seq::empty(), tail);
                let r2 = split_list_from(n, Seq::empty(), tail);
                assert(r == seq![part.push(']')] + r2);
                assert forall|k: int| 0 <= k < r.len() implies #[trigger] r[k].len() <= bound by {
                    if k > 0 {
                        assert(r[k] == r2[k - 1]);
                    }
                }
            }
        } else if ch == ',' && nest == 0 {
            lemma_split_list_lengths(0, Seq::empty(), tail);
            let r2 = split_list_from(0, Seq::empty(), tail);
            assert(r == seq![part] + r2);
            assert forall|k: int| 0 <= k < r.len() implies #[trigger] r[k].len() <= bound by {
                if k > 0 {
                    assert(r[k] == r2[k - 1]);
                }
            }
        } else {
            lemma_split_list_lengths(nest, part.push(ch), tail);
            assert(r == split_list_from(nest, part.push(ch), tail));
        }
    }
}

/// The trimmed pieces of a list are no longer than its inside.
pub proof fn lemma_list_parts_fit(content: Seq<char>)
    ensures
        parts_fit(list_parts(content), content.len()),
{
    let s = list_scan_text(content);
    assert(s.last() == ',');
    lemma_split_list_lengths(0, Seq::empty(), s);
    let parts = list_parts(content);
    assert forall|k: int| 0 <= k < parts.len() implies #[trigger] trim(parts[k]).len()
        <= content.len() by {
        lemma_trim_len(parts[k]);
    }
}

/// Dropping the first piece keeps the others fitting.
proof fn lemma_parts_fit_skip(parts: Seq<Seq<char>>, bound: nat, i: int)
    requires
        parts_fit(parts, bound),
        0 <= i <= parts.len(),
    ensures
        parts_fit(parts.skip(i), bound),
{
    assert forall|k: int| 0 <= k < parts.skip(i).len() implies #[trigger] trim(
        parts.skip(i)[k],
    ).len() <= bound by {
        assert(parts.skip(i)[k] == parts[i + k]);
    }
}

/// The failure of an outcome, if it is one.
pub open spec fn fault_of<T>(r: Result<T, Fault>) -> Option<Fault> {
    match r {
        Ok(_) => None,
        Err(e) => Some(e),
    }
}

/// Whether an embedded iota can be written, and why not, does not depend
/// on the chunk size.
pub proof fn lemma_iota_faults(
    t: Seq<char>,
    c1: nat,
    c2: nat,
    table: Seq<Seq<char>>,
    numbers: Seq<NumberCode>,
)
    ensures
        fault_of(iota_binary(t, c1, table, numbers)) == fault_of(iota_binary(t, c2, table, numbers)),
    decreases 2 * t.len(), 0nat,
{
    let u = strip_suffix(strip_prefix(t, seq!['<']), seq!['>']);
    if is_list_iota(u) {
        assert(strip_prefix(t, seq!['<']).len() <= t.len());
        assert(u.len() <= t.len());
        lemma_list_faults(inner(u), c1, c2, table, numbers);
    }
}

/// The same for a list iota.
proof fn lemma_list_faults(
    content: Seq<char>,
    c1: nat,
    c2: nat,
    table: Seq<Seq<char>>,
    numbers: Seq<NumberCode>,
)
    ensures
        fault_of(list_binary(content, c1, table, numbers)) == fault_of(
            list_binary(content, c2, table, numbers),
        ),
    decreases 2 * content.len() + 1, 0nat,
{
    lemma_list_parts_fit(content);
    lemma_elems_faults(list_parts(content), content.len(), c1, c2, table, numbers);
}

/// The same for the elements of a list.
proof fn lemma_elems_faults(
    parts: Seq<Seq<char>>,
    bound: nat,
    c1: nat,
    c2: nat,
    table: Seq<Seq<char>>,
    numbers: Seq<NumberCode>,
)
    requires
        parts_fit(parts, bound),
    ensures
        fault_of(list_elems(parts, bound, c1, table, numbers)) == fault_of(
            list_elems(parts, bound, c2, table, numbers),
        ),
    decreases 2 * bound, parts.len() + 1,
{
    if parts.len() > 0 {
        assert(trim(parts[0]).len() <= bound);
        lemma_element_faults(trim(parts[0]), c1, c2, table, numbers);
        lemma_parts_fit_skip(parts, bound, 1);
        assert(parts.skip(1) =~= parts.drop_first());
        lemma_elems_faults(parts.drop_first(), bound, c1, c2, table, numbers);
        match list_element(trim(parts[0]), c1, table, numbers) {
            Err(_) => {},
            Ok(g1) => {
                let g2 = list_element(trim(parts[0]), c2, table, numbers)->Ok_0;
                assert(fault_of(prepend(g1, list_elems(parts.drop_first(), bound, c1, table, numbers)))
                    == fault_of(list_elems(parts.drop_first(), bound, c1, table, numbers)));
                assert(fault_of(prepend(g2, list_elems(parts.drop_first(), bound, c2, table, numbers)))
                    == fault_of(list_elems(parts.drop_first(), bound, c2, table, numbers)));
            },
        }
    }
}

/// The same for one element of a list.
proof fn lemma_element_faults(
    t: Seq<char>,
    c1: nat,
    c2: nat,
    table: Seq<Seq<char>>,
    numbers: Seq<NumberCode>,
)
    ensures
        fault_of(list_element(t, c1, table, numbers)) == fault_of(
            list_element(t, c2, table, numbers),
        ),
    decreases 2 * t.len(), 1nat,
{
    if t.len() > 0 && pattern_code(table, t) is None && starts_with_iota(t) {
        lemma_iota_faults(t, c1, c2, table, numbers);
    }
}

/// A number is not empty, begins with `-` or a digit, and ends with a
/// digit.
pub proof fn lemma_number_shape(s: Seq<char>)
    requires
        is_number(s),
    ensures
        s.len() > 0,
        s[0] == '-' || is_digit(s[0]),
        s[0] == '-' ==> s.len() > 1 && is_digit(s[1]),
        is_digit(s.last()),
{
    let u = if s.len() > 0 && s[0] == '-' {
        s.drop_first()
    } else {
        s
    };
    lemma_first_index_of(u, '.');
    match first_index_of(u, '.') {
        None => {
            assert(is_digit(u[0]));
            assert(is_digit(u[u.len() - 1]));
        },
        Some(i) => {
            assert(is_digit(u.take(i)[0]));
            assert(u.take(i)[0] == u[0]);
            let v = u.skip(i + 1);
            assert(is_digit(v[v.len() - 1]));
            assert(v[v.len() - 1] == u[u.len() - 1]);
        },
    }
    if s.len() > 0 && s[0] == '-' {
        assert(u[0] == s[1]);
        assert(u[u.len() - 1] == s[s.len() - 1]);
    }
}

/// An embedded number `<lit>` is written as the escape code, then the
/// opcode and the bits of its form as an iota of its own (not those of a
/// vector component); a number element of a list is written the same way.
pub proof fn lemma_number_iota(
    lit: Seq<char>,
    c: nat,
    table: Seq<Seq<char>>,
    numbers: Seq<NumberCode>,
)
    requires
        is_number(lit),
        lookup_number(numbers, lit) is Some,
    ensures
        iota_binary(seq!['<'] + lit + seq!['>'], c, table, numbers) == Ok::<Seq<Seq<char>>, Fault>(
            seq![
                pad_binary(0, c),
                lookup_number(numbers, lit)->0.scalar_opcode@,
                lookup_number(numbers, lit)->0.scalar_bits@,
            ],
        ),
        pattern_code(table, lit) is None ==> list_element(lit, c, table, numbers) == Ok::<
            Seq<Seq<char>>,
            Fault,
        >(
            seq![
                pad_binary(0, c),
                lookup_number(numbers, lit)->0.scalar_opcode@,
                lookup_number(numbers, lit)->0.scalar_bits@,
            ],
        ),
{
    lemma_number_shape(lit);
    let t = seq!['<'] + lit + seq!['>'];
    assert(t.take(1) =~= seq!['<']);
    assert(is_prefix(seq!['<'], t));
    let t1 = t.skip(1);
    assert(t1 =~= lit + seq!['>']);
    assert(t1.skip(t1.len() - 1) =~= seq!['>']);
    assert(t1.take(t1.len() - 1) =~= lit);
    assert(strip_suffix(strip_prefix(t, seq!['<']), seq!['>']) == lit);
    assert(!is_list_iota(lit));
    assert(!is_vec_iota(lit));
    if pattern_code(table, lit) is None {
        assert(starts_with_iota(lit));
        if is_prefix(seq!['<'], lit) {
            assert(lit.take(1)[0] == lit[0]);
        }
        assert(strip_prefix(lit, seq!['<']) == lit);
        if is_suffix(seq!['>'], lit) {
            assert(lit.skip(lit.len() - 1)[0] == lit.last());
        }
        assert(strip_suffix(lit, seq!['>']) == lit);
    }
}

/// A valid Bookkeeper's Gambit of fewer than sixteen strokes is written as
/// the escape code (all zeros), the opcode of its width (4 bits for fewer
/// than four strokes, 16 otherwise), then that many bits: zeros, then one
/// bit per stroke in the strokes' order, `1` for a keep (`v`) and `0` for a
/// removal (`-`). One of sixteen strokes or more is refused as too long.
pub proof fn lemma_bookkeeper_bits(t: Seq<char>, c: nat)
    requires
        is_bookkeeper(t),
    ensures
        t.len() >= 21 + 16 ==> bookkeeper_op(t, c) == Err::<Seq<Seq<char>>, Fault>(
            (ErrorKind::BookkeeperTooLong, t.skip(21)),
        ),
        t.len() < 21 + 16 ==> bookkeeper_op(t, c) is Ok,
        t.len() < 21 + 16 ==> ({
            let g = bookkeeper_op(t, c)->Ok_0;
            let body = t.skip(21);
            let n = body.len();
            let w: int = if n < 4 {
                4
            } else {
                16
            };
            &&& g.len() == 3
            &&& g[0] == pad_binary(0, c)
            &&& forall|i: int| 0 <= i < g[0].len() ==> #[trigger] g[0][i] == '0'
            &&& g[1] == (if n < 4 {
                seq!['1', '0', '0']
            } else {
                seq!['1', '0', '1']
            })
            &&& g[2].len() == w
            &&& forall|i: int| 0 <= i < w - n ==> #[trigger] g[2][i] == '0'
            &&& forall|i: int|
                0 <= i < n ==> #[trigger] g[2][w - n + i] == (if body[i] == 'v' {
                    '1'
                } else {
                    '0'
                })
        }),
{
    lemma_prefix_lengths();
    if t.len() < 21 + 16 {
        lemma_pad_binary(0, c);
        lemma_zero_digits(c);
        let body = t.skip(21);
        let n = body.len();
        let w: int = if n < 4 {
            4
        } else {
            16
        };
        let padded = repeat_char('-', (w - n) as nat) + body;
        let g = bookkeeper_op(t, c)->Ok_0;
        assert(g[2] == stroke_bits(padded));
        assert forall|i: int| 0 <= i < w - n implies #[trigger] g[2][i] == '0' by {
            assert(padded[i] == '-');
        }
        assert forall|i: int| 0 <= i < n implies #[trigger] g[2][w - n + i] == (if body[i] == 'v' {
            '1'
        } else {
            '0'
        }) by {
            assert(padded[w - n + i] == body[i]);
        }
    }
}

/// Zero written in binary is all zeros, whatever the width.
proof fn lemma_zero_digits(c: nat)
    ensures
        forall|i: int| 0 <= i < pad_binary(0, c).len() ==> #[trigger] pad_binary(0, c)[i] == '0',
{
    let d = binary_digits(0);
    assert(d == seq!['0']);
    if d.len() > c {
    } else {
        let r = repeat_char('0', (c - d.len()) as nat) + d;
        assert forall|i: int| 0 <= i < r.len() implies #[trigger] r[i] == '0' by {
            if i < c - d.len() {
            } else {
                assert(r[i] == d[i - (c - d.len())]);
            }
        }
    }
}

/// A Bookkeeper's Gambit inside a list is written exactly as at top level,
/// escape code first.
pub proof fn lemma_bookkeeper_in_list(
    t: Seq<char>,
    c: nat,
    table: Seq<Seq<char>>,
    numbers: Seq<NumberCode>,
)
    requires
        is_prefix(bookkeeper_prefix(), t),
        pattern_code(table, t) is None,
    ensures
        list_element(t, c, table, numbers) == bookkeeper_op(t, c),
{
    lemma_prefix_lengths();
    reveal_strlit("Bookkeeper's Gambit: ");
    assert(t[0] == t.take(21)[0]);
    assert(t[0] == 'B');
    assert(!is_digit('B'));
    assert(!starts_with_iota(t));
}

// ---------------------------------------------------------------------------
// Executable functions
// ---------------------------------------------------------------------------

/// The characters of `<`.
fn angle_open() -> (r: Vec<char>)
    ensures
        r@ == seq!['<'],
{
    vec!['<']
}

/// The characters of `>`.
fn angle_close() -> (r: Vec<char>)
    ensures
        r@ == seq!['>'],
{
    vec!['>']
}

/// A Bookkeeper's Gambit: the escape code, an opcode for its width, and
/// its strokes, padded in front with removals to 4 or 16.
pub fn make_bk_op(token: &Vec<char>, chunk_size: u32) -> (r: Result<Vec<Vec<char>>, EncodingError>)
    ensures
        result_is(r, bookkeeper_op(token@, chunk_size as nat)),
{
    if !bookkeeper_chars(token) {
        return Err(EncodingError::new(ErrorKind::InvalidBookkeeper, token.clone()));
    }
    proof {
        lemma_prefix_lengths();
    }
    let body = sub_chars(token, 21, token.len());
    assert(body@ =~= token@.skip(bookkeeper_prefix().len() as int));
    let len = body.len();
    let width: usize;
    let opcode: Vec<char>;
    if len < 4 {
        width = 4;
        opcode = vec!['1', '0', '0'];
    } else if len < 16 {
        width = 16;
        opcode = vec!['1', '0', '1'];
    } else {
        return Err(EncodingError::new(ErrorKind::BookkeeperTooLong, body));
    }
    let fill = width - len;
    let ghost padded = repeat_char('-', fill as nat) + body@;
    let mut bits: Vec<char> = Vec::new();
    let mut i: usize = 0;
    while i < width
        invariant
            len == body.len(),
            fill + len == width,
            width <= 16,
            i <= width,
            padded == repeat_char('-', fill as nat) + body@,
            bits@ == stroke_bits(padded).take(i as int),
        decreases width - i,
    {
        let ch = if i < fill {
            '-'
        } else {
            body[i - fill]
        };
        assert(ch == padded[i as int]);
        bits.push(if ch == 'v' {
            '1'
        } else {
            '0'
        });
        i = i + 1;
        assert(bits@ =~= stroke_bits(padded).take(i as int));
    }
    assert(stroke_bits(padded).take(width as int) =~= stroke_bits(padded));
    let mut r: Vec<Vec<char>> = Vec::new();
    r.push(pad_0_upto(0, chunk_size));
    r.push(opcode);
    r.push(bits);
    assert(chars_view(r@) =~= bookkeeper_op(token@, chunk_size as nat)->Ok_0);
    Ok(r)
}

/// A number as an iota of its own.
fn embed_num_exec(lit: &Vec<char>, chunk_size: u32, numbers: &Vec<NumberCode>) -> (r: Result<
    Vec<Vec<char>>,
    EncodingError,
>)
    ensures
        result_is(r, embed_num(lit@, chunk_size as nat, numbers@)),
{
    match find_number(numbers, lit) {
        None => Err(EncodingError::new(ErrorKind::MissingNumberCode, lit.clone())),
        Some(i) => {
            let code = &numbers[i];
            let mut r: Vec<Vec<char>> = Vec::new();
            r.push(pad_0_upto(0, chunk_size));
            r.push(chars_of(code.scalar_opcode.as_str()));
            r.push(chars_of(code.scalar_bits.as_str()));
            assert(chars_view(r@) =~= embed_num(lit@, chunk_size as nat, numbers@)->Ok_0);
            Ok(r)
        },
    }
}

/// A vector of three numbers.
fn embed_vec_exec(xs: &Vec<Vec<char>>, chunk_size: u32, numbers: &Vec<NumberCode>) -> (r: Result<
    Vec<Vec<char>>,
    EncodingError,
>)
    requires
        xs.len() == 3,
    ensures
        result_is(r, embed_vec(chars_view(xs@), chunk_size as nat, numbers@)),
{
    let ghost xv = chars_view(xs@);
    assert(xv[0] == xs@[0]@ && xv[1] == xs@[1]@ && xv[2] == xs@[2]@);
    let ia = match find_number(numbers, &xs[0]) {
        None => return Err(EncodingError::new(ErrorKind::MissingNumberCode, xs[0].clone())),
        Some(i) => i,
    };
    let ib = match find_number(numbers, &xs[1]) {
        None => return Err(EncodingError::new(ErrorKind::MissingNumberCode, xs[1].clone())),
        Some(i) => i,
    };
    let id = match find_number(numbers, &xs[2]) {
        None => return Err(EncodingError::new(ErrorKind::MissingNumberCode, xs[2].clone())),
        Some(i) => i,
    };
    let mut r: Vec<Vec<char>> = Vec::new();
    r.push(pad_0_upto(0, chunk_size));
    r.push(vec!['1', '1', '0']);
    r.push(chars_of(numbers[ia].component_opcode.as_str()));
    r.push(chars_of(numbers[ia].component_bits.as_str()));
    r.push(chars_of(numbers[ib].component_opcode.as_str()));
    r.push(chars_of(numbers[ib].component_bits.as_str()));
    r.push(chars_of(numbers[id].component_opcode.as_str()));
    r.push(chars_of(numbers[id].component_bits.as_str()));
    assert(chars_view(r@) =~= embed_vec(xv, chunk_size as nat, numbers@)->Ok_0);
    Ok(r)
}

/// A Numerical Reflection: the number embedded in a quoted block that is
/// unpacked onto the stack.
pub fn make_numref(
    token: &Vec<char>,
    chunk_size: u32,
    table: &Vec<Vec<char>>,
    numbers: &Vec<NumberCode>,
) -> (r: Result<Vec<Vec<char>>, EncodingError>)
    ensures
        result_is(r, numref_op(token@, chunk_size as nat, chars_view(table@), numbers@)),
{
    if !numref_chars(token) {
        return Err(EncodingError::new(ErrorKind::InvalidNumericalReflection, token.clone()));
    }
    proof {
        lemma_prefix_lengths();
    }
    let intro = chars_of("Introspection");
    let retro = chars_of("Retrospection");
    let flock = chars_of("Flock's Disintegration");
    let ghost tv = chars_view(table@);
    let ghost c = chunk_size as nat;
    let bi = match get_pat_bin_optional(&intro, table) {
        Some(b) => b,
        None => {
            return Err(EncodingError::new(ErrorKind::NotAPattern, intro));
        },
    };
    let mut r: Vec<Vec<char>> = Vec::new();
    r.push(pad_0_upto(bi, chunk_size));
    assert(chars_view(r@) =~= seq![pad_binary(code_of(tv, intro_name()), c)]);
    let lit = sub_chars(token, 22, token.len());
    assert(lit@ =~= token@.skip(numref_prefix().len() as int));
    let g = match embed_num_exec(&lit, chunk_size, numbers) {
        Err(e) => return Err(e),
        Ok(g) => g,
    };
    let br = match get_pat_bin_optional(&retro, table) {
        Some(b) => b,
        None => {
            return Err(EncodingError::new(ErrorKind::NotAPattern, retro));
        },
    };
    let bf = match get_pat_bin_optional(&flock, table) {
        Some(b) => b,
        None => {
            return Err(EncodingError::new(ErrorKind::NotAPattern, flock));
        },
    };
    append_all(&mut r, &g);
    let ghost r1 = chars_view(r@);
    r.push(pad_0_upto(br, chunk_size));
    r.push(pad_0_upto(bf, chunk_size));
    assert(chars_view(r@) =~= r1 + seq![
        pad_binary(code_of(tv, retro_name()), c),
        pad_binary(code_of(tv, flock_name()), c),
    ]);
    Ok(r)
}

/// The pieces of a list's inside.
fn list_parts_exec(content: &Vec<char>) -> (r: Vec<Vec<char>>)
    ensures
        chars_view(r@) == list_parts(content@),
{
    let comma = vec![','];
    assert(comma@ == seq![',']);
    let mut s = strip_suffix_chars(content, &comma);
    s.push(',');
    assert(s@ == list_scan_text(content@));
    let mut out: Vec<Vec<char>> = Vec::new();
    let mut nest: usize = 0;
    let mut part: Vec<char> = Vec::new();
    let mut i: usize = 0;
    assert(s@.skip(0) =~= s@);
    while i < s.len()
        invariant
            i <= s.len(),
            nest <= i,
            s@ == list_scan_text(content@),
            chars_view(out@) + split_list_from(nest as nat, part@, s@.skip(i as int))
                == list_parts(content@),
        decreases s.len() - i,
    {
        let ghost rest = s@.skip(i as int);
        let ghost o0 = chars_view(out@);
        assert(rest[0] == s@[i as int]);
        assert(rest.drop_first() =~= s@.skip(i + 1));
        let ch = s[i];
        let ghost n0 = nest as nat;
        let ghost p0 = part@;
        let ghost tail = s@.skip(i + 1);
        assert(split_list_from(n0, p0, rest) == if ch == '[' {
            if n0 + 1 > 1 {
                split_list_from(n0 + 1, p0, tail)
            } else {
                seq![p0] + split_list_from(n0 + 1, seq!['['], tail)
            }
        } else if ch == ']' {
            let n = if n0 == 0 {
                0nat
            } else {
                (n0 - 1) as nat
            };
            if n > 0 {
                split_list_from(n, p0.push(']'), tail)
            } else {
                seq![p0.push(']')] + split_list_from(n, Seq::empty(), tail)
            }
        } else if ch == ',' && n0 == 0 {
            seq![p0] + split_list_from(0, Seq::empty(), tail)
        } else {
            split_list_from(n0, p0.push(ch), tail)
        });
        if ch == '[' {
            nest = nest + 1;
            if nest > 1 {
            } else {
                let done = part;
                out.push(done);
                part = vec!['['];
                assert(part@ == seq!['[']);
                assert(chars_view(out@) =~= o0 + seq![done@]);
                assert(o0 + (seq![done@] + split_list_from(nest as nat, part@, s@.skip(i + 1)))
                    =~= chars_view(out@) + split_list_from(nest as nat, part@, s@.skip(i + 1)));
            }
        } else if ch == ']' {
            if nest > 0 {
                nest = nest - 1;
            }
            part.push(']');
            if nest > 0 {
            } else {
                let done = part;
                out.push(done);
                part = Vec::new();
                assert(chars_view(out@) =~= o0 + seq![done@]);
                assert(o0 + (seq![done@] + split_list_from(nest as nat, part@, s@.skip(i + 1)))
                    =~= chars_view(out@) + split_list_from(nest as nat, part@, s@.skip(i + 1)));
            }
        } else if ch == ',' && nest == 0 {
            let done = part;
            out.push(done);
            part = Vec::new();
            assert(chars_view(out@) =~= o0 + seq![done@]);
            assert(o0 + (seq![done@] + split_list_from(nest as nat, part@, s@.skip(i + 1)))
                =~= chars_view(out@) + split_list_from(nest as nat, part@, s@.skip(i + 1)));
        } else {
            part.push(ch);
        }
        i = i + 1;
    }
    assert(chars_view(out@) + Seq::<Seq<char>>::empty() =~= chars_view(out@));
    out
}

/// An embedded iota `token`, without its `<` and `>`: a list, a vector or a
/// number.
pub fn iota_to_binary(
    token: &Vec<char>,
    chunk_size: u32,
    table: &Vec<Vec<char>>,
    numbers: &Vec<NumberCode>,
) -> (r: Result<Vec<Vec<char>>, EncodingError>)
    ensures
        result_is(r, iota_binary(token@, chunk_size as nat, chars_view(table@), numbers@)),
    decreases 2 * token.len(), 0nat,
{
    let lt = angle_open();
    let gt = angle_close();
    let t1 = strip_prefix_chars(token, &lt);
    let t = strip_suffix_chars(&t1, &gt);
    if list_iota_chars(&t) {
        let content = inner_chars(&t);
        list_to_binary(&content, chunk_size, table, numbers)
    } else if vec_iota_chars(&t) {
        let i = inner_chars(&t);
        match vec_components_chars(&i) {
            Some(xs) => {
                assert(chars_view(xs@).len() == 3);
                embed_vec_exec(&xs, chunk_size, numbers)
            },
            None => {
                assert(false);
                Err(EncodingError::new(ErrorKind::InvalidIota, t))
            },
        }
    } else if number_chars(&t) {
        embed_num_exec(&t, chunk_size, numbers)
    } else {
        Err(EncodingError::new(ErrorKind::InvalidIota, t))
    }
}

/// A list iota from its inside: the escape code, the list opcode, its
/// elements, then the escape code and the end opcode.
pub fn list_to_binary(
    content: &Vec<char>,
    chunk_size: u32,
    table: &Vec<Vec<char>>,
    numbers: &Vec<NumberCode>,
) -> (r: Result<Vec<Vec<char>>, EncodingError>)
    ensures
        result_is(r, list_binary(content@, chunk_size as nat, chars_view(table@), numbers@)),
    decreases 2 * content.len() + 1, 0nat,
{
    let ghost c = chunk_size as nat;
    let ghost tv = chars_view(table@);
    let ghost bound = content.len() as nat;
    let parts = list_parts_exec(content);
    let ghost pv = chars_view(parts@);
    proof {
        lemma_list_parts_fit(content@);
        assert(pv.skip(0) =~= pv);
    }
    let mut body: Vec<Vec<char>> = Vec::new();
    let mut i: usize = 0;
    while i < parts.len()
        invariant
            i <= parts.len(),
            pv == chars_view(parts@),
            pv == list_parts(content@),
            tv == chars_view(table@),
            bound == content.len(),
            c == chunk_size as nat,
            parts_fit(pv, bound),
            list_elems(pv, bound, c, tv, numbers@) == prepend(
                chars_view(body@),
                list_elems(pv.skip(i as int), bound, c, tv, numbers@),
            ),
        decreases parts.len() - i,
    {
        proof {
            lemma_parts_fit_skip(pv, bound, i as int);
            lemma_parts_fit_skip(pv, bound, i + 1);
            assert(pv.skip(i as int)[0] == pv[i as int]);
            assert(pv.skip(i as int).drop_first() =~= pv.skip(i + 1));
        }
        let t = trim_chars(&parts[i]);
        assert(t@ == trim(pv[i as int]));
        assert(t.len() <= content.len());
        assert(list_elems(pv.skip(i as int), bound, c, tv, numbers@) == match list_element(
            t@,
            c,
            tv,
            numbers@,
        ) {
            Err(e) => Err(e),
            Ok(g) => prepend(g, list_elems(pv.skip(i + 1), bound, c, tv, numbers@)),
        });
        let res = list_element_to_binary(&t, chunk_size, table, numbers);
        let g = match res {
            Err(e) => {
                assert(list_elems(pv.skip(i as int), bound, c, tv, numbers@) == Err::<
                    Seq<Seq<char>>,
                    Fault,
                >(e@));
                assert(list_elems(pv, bound, c, tv, numbers@) == Err::<Seq<Seq<char>>, Fault>(
                    e@,
                ));
                assert(list_binary(content@, c, tv, numbers@) == Err::<Seq<Seq<char>>, Fault>(
                    e@,
                ));
                return Err(e);
            },
            Ok(g) => g,
        };
        let ghost b0 = chars_view(body@);
        append_all(&mut body, &g);
        proof {
            let rest = list_elems(pv.skip(i + 1), bound, c, tv, numbers@);
            match rest {
                Ok(v) => {
                    assert(b0 + (chars_view(g@) + v) =~= chars_view(body@) + v);
                },
                Err(_) => {},
            }
        }
        i = i + 1;
    }
    proof {
        assert(pv.skip(parts.len() as int) =~= Seq::<Seq<char>>::empty());
    }
    let mut r: Vec<Vec<char>> = Vec::new();
    r.push(pad_0_upto(0, chunk_size));
    r.push(vec!['1', '1', '1']);
    assert(chars_view(r@) =~= seq![pad_binary(0, c), list_opcode()]);
    append_all(&mut r, &body);
    let ghost r1 = chars_view(r@);
    r.push(pad_0_upto(0, chunk_size));
    r.push(vec!['0', '0', '0']);
    assert(chars_view(r@) =~= r1 + seq![pad_binary(0, c), end_opcode()]);
    assert(chars_view(body@) + Seq::<Seq<char>>::empty() =~= chars_view(body@));
    assert(chars_view(r@) =~= seq![pad_binary(0, c), list_opcode()] + chars_view(body@) + seq![
        pad_binary(0, c),
        end_opcode(),
    ]);
    Ok(r)
}

/// One element of a list: a pattern's code, an iota, a Bookkeeper's Gambit
/// or a Numerical Reflection.
fn list_element_to_binary(
    t: &Vec<char>,
    chunk_size: u32,
    table: &Vec<Vec<char>>,
    numbers: &Vec<NumberCode>,
) -> (r: Result<Vec<Vec<char>>, EncodingError>)
    ensures
        result_is(r, list_element(t@, chunk_size as nat, chars_view(table@), numbers@)),
    decreases 2 * t.len(), 1nat,
{
    if t.len() == 0 {
        return Err(EncodingError::new(ErrorKind::TooManyCommas, Vec::new()));
    }
    match get_pat_bin_optional(t, table) {
        Some(b) => {
            let mut r: Vec<Vec<char>> = Vec::new();
            r.push(pad_0_upto(b, chunk_size));
            assert(chars_view(r@) =~= seq![pad_binary(b as nat, chunk_size as nat)]);
            Ok(r)
        },
        None => {
            if starts_with_iota_chars(t) {
                iota_to_binary(t, chunk_size, table, numbers)
            } else if starts_with(t, &bookkeeper_prefix_chars()) {
                make_bk_op(t, chunk_size)
            } else if starts_with(t, &numref_prefix_chars()) {
                make_numref(t, chunk_size, table, numbers)
            } else {
                Err(EncodingError::new(ErrorKind::InvalidListElement, t.clone()))
            }
        },
    }
}

} // verus!
