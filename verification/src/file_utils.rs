//! The two other forms of a binary program: octal digits for the pasting
//! macro, and dance moves for the dance decoder.
use vstd::prelude::*;

use crate::binary::{binary_value, is_bits, lemma_binary_round_trip, pad_binary, pow2, repeat_char};
use crate::text::{chars_eq, chars_of, chars_of_all, chars_view, concat_chars, remove_char, remove_char_chars, string_of, sub_chars};
use crate::used_types::chunks;
use vstd::arithmetic::div_mod::{lemma_add_mod_noop, lemma_mod_twice};

verus! {

// ---------------------------------------------------------------------------
// Specifications: octal
// ---------------------------------------------------------------------------

/// Binary digits and the spaces that make a program readable.
pub open spec fn is_code_text(s: Seq<char>) -> bool {
    forall|i: int| 0 <= i < s.len() ==> (#[trigger] s[i] == '0' || s[i] == '1' || s[i] == ' ')
}


/// The bytes that a character takes in UTF-8.
pub open spec fn utf8_width(c: char) -> nat {
    if '\u{80}' > c {
        1
    } else if '\u{800}' > c {
        2
    } else if '\u{10000}' > c {
        3
    } else {
        4
    }
}

/// The bytes of a text in UTF-8.
pub open spec fn byte_len(s: Seq<char>) -> nat
    decreases s.len(),
{
    if s.len() == 0 {
        0
    } else {
        byte_len(s.drop_last()) + utf8_width(s.last())
    }
}

/// The characters that make up the last `k` bytes of `s`; `None` when the
/// cut falls inside a character.
pub open spec fn bytes_suffix(s: Seq<char>, k: nat) -> Option<Seq<char>>
    decreases s.len(),
{
    if k == 0 {
        Some(Seq::empty())
    } else if s.len() == 0 || utf8_width(s.last()) > k {
        None
    } else {
        match bytes_suffix(s.drop_last(), (k - utf8_width(s.last())) as nat) {
            Some(r) => Some(r.push(s.last())),
            None => None,
        }
    }
}

/// The number that `p` writes in base 2 as `u8::from_str_radix` reads it:
/// an optional `+`, then one or more binary digits, for a value that fits
/// in a byte.
pub open spec fn parse_binary(p: Seq<char>) -> Option<nat> {
    let d = if p.len() > 0 && p[0] == '+' {
        p.drop_first()
    } else {
        p
    };
    if d.len() > 0 && is_bits(d) && binary_value(d) < 256 {
        Some(binary_value(d))
    } else {
        None
    }
}

/// The groups of a line that become octal digits: its characters, spaces
/// left out (they only make the binary readable), by three; then the
/// characters of the last `bytes % 3` bytes of those characters, when there
/// are any. `None` when that cut falls inside a character.
pub open spec fn octal_pieces(s: Seq<char>) -> Option<Seq<Seq<char>>> {
    let t = remove_char(s, ' ');
    let groups = chunks(t, 3);
    let k = byte_len(t) % 3;
    if k == 0 {
        Some(groups)
    } else {
        match bytes_suffix(t, k) {
            Some(r) => Some(groups.push(r)),
            None => None,
        }
    }
}

/// Every group reads as a binary number.
pub open spec fn all_parse(pieces: Seq<Seq<char>>) -> bool {
    forall|i: int| 0 <= i < pieces.len() ==> #[trigger] parse_binary(pieces[i]) is Some
}

/// The value of each group.
pub open spec fn piece_values(pieces: Seq<Seq<char>>) -> Seq<u8> {
    pieces.map_values(|p: Seq<char>| parse_binary(p)->0 as u8)
}

/// The octal digits of a line; `None` when a group is no binary number.
pub open spec fn line_octal(s: Seq<char>) -> Option<Seq<u8>> {
    match octal_pieces(s) {
        Some(pieces) => if all_parse(pieces) {
            Some(piece_values(pieces))
        } else {
            None
        },
        None => None,
    }
}

/// The octal digits of all lines, in order; `None` when a line has none.
pub open spec fn octal_of(contents: Seq<Seq<char>>) -> Option<Seq<u8>>
    decreases contents.len(),
{
    if contents.len() == 0 {
        Some(Seq::empty())
    } else {
        match octal_of(contents.drop_last()) {
            None => None,
            Some(a) => match line_octal(contents.last()) {
                None => None,
                Some(b) => Some(a + b),
            },
        }
    }
}

// ---------------------------------------------------------------------------
// Specifications: dance
// ---------------------------------------------------------------------------

/// The direction that three bits name.
pub open spec fn horizontal_dir(b: Seq<char>) -> Option<Seq<char>> {
    if b == seq!['0', '0', '0'] {
        Some("North"@)
    } else if b == seq!['0', '0', '1'] {
        Some("West"@)
    } else if b == seq!['0', '1', '0'] {
        Some("South"@)
    } else if b == seq!['0', '1', '1'] {
        Some("East"@)
    } else if b == seq!['1', '0', '0'] {
        Some("Northwest"@)
    } else if b == seq!['1', '0', '1'] {
        Some("Northeast"@)
    } else if b == seq!['1', '1', '0'] {
        Some("Southwest"@)
    } else if b == seq!['1', '1', '1'] {
        Some("Southeast"@)
    } else {
        None
    }
}

/// The first `n` characters of `s` are there and take one byte each, so
/// that the text can be cut after any of them.
pub open spec fn first_ascii(s: Seq<char>, n: int) -> bool {
    &&& n <= s.len()
    &&& forall|i: int| 0 <= i < n ==> '\u{80}' > #[trigger] s[i]
}

/// Where to look: `0000` up, `0001` down, else the direction of the first
/// three bits; with the number of bits used. `None` when the first four
/// characters cannot be cut as bytes or the first three name no direction.
pub open spec fn lookvec_dir(bits: Seq<char>) -> Option<(nat, Seq<char>)> {
    if !first_ascii(bits, 4) {
        None
    } else if bits.take(4) == seq!['0', '0', '0', '0'] {
        Some((4, "Up"@))
    } else if bits.take(4) == seq!['0', '0', '0', '1'] {
        Some((4, "Down"@))
    } else {
        match horizontal_dir(bits.take(3)) {
            Some(d) => Some((3, d)),
            None => None,
        }
    }
}

/// Where to move: `0000` nowhere, else the direction of the first three
/// bits; with the number of bits used. `None` as for `lookvec_dir`.
pub open spec fn movement_dir(bits: Seq<char>) -> Option<(nat, Seq<char>)> {
    if !first_ascii(bits, 4) {
        None
    } else if bits.take(4) == seq!['0', '0', '0', '0'] {
        Some((4, Seq::empty()))
    } else {
        match horizontal_dir(bits.take(3)) {
            Some(d) => Some((3, d)),
            None => None,
        }
    }
}

/// `s` filled on the right with `c` up to `n` characters.
pub open spec fn pad_right(s: Seq<char>, c: char, n: nat) -> Seq<char> {
    if s.len() < n {
        s + repeat_char(c, (n - s.len()) as nat)
    } else {
        s
    }
}

/// `s` with spaces added alternately after and before it until it has `n`
/// characters, starting after when `front` is false.
pub open spec fn center_from(s: Seq<char>, n: nat, front: bool) -> Seq<char>
    decreases n - s.len(),
{
    if s.len() >= n {
        s
    } else if front {
        center_from(seq![' '] + s, n, false)
    } else {
        center_from(s.push(' '), n, true)
    }
}

/// `s` centred in `n` characters, a space added after it first.
pub open spec fn center_text(s: Seq<char>, n: nat) -> Seq<char> {
    center_from(s, n, false)
}

/// One line of the dance table.
pub open spec fn move_line(look: Seq<char>, mv: Seq<char>, jump: bool, sneak: bool) -> Seq<char> {
    "| "@ + center_text(look, 9) + " | "@ + center_text(mv, 9) + " | "@ + center_text(
        if jump {
            "JUMP"@
        } else {
            Seq::empty()
        },
        5,
    ) + " | "@ + center_text(
        if sneak {
            "SNEAK"@
        } else {
            Seq::empty()
        },
        5,
    ) + " |"@
}

/// The smaller of two numbers.
pub open spec fn min_nat(a: nat, b: nat) -> nat {
    if a < b {
        a
    } else {
        b
    }
}

/// The moves that spell `binary`, of which `len` bits are still to go:
/// each move takes the first ten bits (zeros filling in), reads a look
/// direction, a movement, a jump bit and a sneak bit (`1` for yes, anything
/// else for no), and drops the bits it used. `None` when a move cannot be
/// read.
pub open spec fn dance_moves(binary: Seq<char>, len: nat) -> Option<Seq<Seq<char>>>
    decreases len,
{
    if len == 0 {
        Some(Seq::empty())
    } else {
        let w = pad_right(binary.take(min_nat(10, len) as int), '0', 10);
        match lookvec_dir(w) {
            None => None,
            Some((l1, look)) => {
                let w2 = w.skip(l1 as int);
                match movement_dir(w2) {
                    None => None,
                    Some((l2, mv)) => {
                        let w3 = w2.skip(l2 as int);
                        if !first_ascii(w3, 2) {
                            None
                        } else {
                            let used = l1 + l2 + 2;
                            let cut = min_nat(used, len);
                            let left = (len - cut) as nat;
                            match dance_moves(binary.skip(cut as int), left) {
                                None => None,
                                Some(rest) => Some(
                                    seq![move_line(look, mv, w3[0] == '1', w3[1] == '1')] + rest,
                                ),
                            }
                        }
                    },
                }
            },
        }
    }
}

/// One move: where to look, where to move, jump, sneak.
pub type DanceStep = (Seq<char>, Seq<char>, bool, bool);

/// The moves that spell `binary`, as `dance_moves` reads them, before they
/// are written as lines.
pub open spec fn dance_steps(binary: Seq<char>, len: nat) -> Option<Seq<DanceStep>>
    decreases len,
{
    if len == 0 {
        Some(Seq::empty())
    } else {
        let w = pad_right(binary.take(min_nat(10, len) as int), '0', 10);
        match lookvec_dir(w) {
            None => None,
            Some((l1, look)) => {
                let w2 = w.skip(l1 as int);
                match movement_dir(w2) {
                    None => None,
                    Some((l2, mv)) => {
                        let w3 = w2.skip(l2 as int);
                        if !first_ascii(w3, 2) {
                            None
                        } else {
                            let used = l1 + l2 + 2;
                            let cut = min_nat(used, len);
                            match dance_steps(binary.skip(cut as int), (len - cut) as nat) {
                                None => None,
                                Some(rest) => Some(
                                    seq![(look, mv, w3[0] == '1', w3[1] == '1')] + rest,
                                ),
                            }
                        }
                    },
                }
            },
        }
    }
}

/// The line of the dance table for a move.
pub open spec fn step_line(st: DanceStep) -> Seq<char> {
    move_line(st.0, st.1, st.2, st.3)
}

/// The three bits that a direction name stands for.
pub open spec fn dir_code(d: Seq<char>) -> Seq<char> {
    if d == "North"@ {
        seq!['0', '0', '0']
    } else if d == "West"@ {
        seq!['0', '0', '1']
    } else if d == "South"@ {
        seq!['0', '1', '0']
    } else if d == "East"@ {
        seq!['0', '1', '1']
    } else if d == "Northwest"@ {
        seq!['1', '0', '0']
    } else if d == "Northeast"@ {
        seq!['1', '0', '1']
    } else if d == "Southwest"@ {
        seq!['1', '1', '0']
    } else if d == "Southeast"@ {
        seq!['1', '1', '1']
    } else {
        Seq::empty()
    }
}

/// The bits that a move stands for, as the dance decoder reads it back:
/// `Up` is `0000`, `Down` `0001`, no movement `0000`, a direction its three
/// bits, and a jump or a sneak `1` when done, `0` when not.
pub open spec fn step_bits(st: DanceStep) -> Seq<char> {
    let look = if st.0 == "Up"@ {
        seq!['0', '0', '0', '0']
    } else if st.0 == "Down"@ {
        seq!['0', '0', '0', '1']
    } else {
        dir_code(st.0)
    };
    let mv = if st.1.len() == 0 {
        seq!['0', '0', '0', '0']
    } else {
        dir_code(st.1)
    };
    look + mv + seq![if st.2 { '1' } else { '0' }, if st.3 { '1' } else { '0' }]
}

/// The bits of all moves, in order.
pub open spec fn steps_bits(steps: Seq<DanceStep>) -> Seq<char>
    decreases steps.len(),
{
    if steps.len() == 0 {
        Seq::empty()
    } else {
        step_bits(steps[0]) + steps_bits(steps.drop_first())
    }
}

/// The digits of all lines, spaces left out.
pub open spec fn all_bits(contents: Seq<Seq<char>>) -> Seq<char>
    decreases contents.len(),
{
    if contents.len() == 0 {
        Seq::empty()
    } else {
        all_bits(contents.drop_last()) + remove_char(contents.last(), ' ')
    }
}

/// The lines one after another.
pub open spec fn all_text(contents: Seq<Seq<char>>) -> Seq<char>
    decreases contents.len(),
{
    if contents.len() == 0 {
        Seq::empty()
    } else {
        all_text(contents.drop_last()) + contents.last()
    }
}

/// The heading of the dance table, underlined.
pub open spec fn dance_header() -> Seq<char> {
    "\x1b[4m| LOOK DIR  | MOVE DIR  |  ACT  |  ACT  |\x1b[0m"@
}

/// The dance table for a program, when every move can be read.
pub open spec fn dance_of(contents: Seq<Seq<char>>) -> Option<Seq<Seq<char>>> {
    match dance_moves(all_bits(contents), all_bits(contents).len()) {
        Some(moves) => Some(seq![dance_header()] + moves),
        None => None,
    }
}

// ---------------------------------------------------------------------------
// Laws
// ---------------------------------------------------------------------------

/// Binary digits of at most three characters have a value below 8.
proof fn lemma_small_value(p: Seq<char>)
    requires
        p.len() <= 3,
    ensures
        binary_value(p) < pow2(p.len()),
        binary_value(p) < 8,
    decreases p.len(),
{
    if p.len() > 0 {
        lemma_small_value(p.drop_last());
        assert(pow2(p.len()) == 2 * pow2((p.len() - 1) as nat));
    }
    reveal_with_fuel(pow2, 4);
}

/// The characters of the last `k` bytes are at most `k`.
proof fn lemma_bytes_suffix_len(s: Seq<char>, k: nat)
    ensures
        bytes_suffix(s, k) matches Some(r) ==> r.len() <= k,
    decreases s.len(),
{
    if k > 0 && s.len() > 0 && utf8_width(s.last()) <= k {
        lemma_bytes_suffix_len(s.drop_last(), (k - utf8_width(s.last())) as nat);
    }
}

/// A group of at most three characters reads as a number below 8.
proof fn lemma_parse_small(p: Seq<char>)
    requires
        p.len() <= 3,
    ensures
        parse_binary(p) matches Some(v) ==> v < 8,
{
    let d = if p.len() > 0 && p[0] == '+' {
        p.drop_first()
    } else {
        p
    };
    lemma_small_value(d);
}

/// Every octal digit is below 8.
pub proof fn lemma_octal_digits(contents: Seq<Seq<char>>)
    ensures
        octal_of(contents) matches Some(v) ==> forall|i: int| 0 <= i < v.len() ==> #[trigger] v[i] < 8,
    decreases contents.len(),
{
    if contents.len() > 0 {
        lemma_octal_digits(contents.drop_last());
        let s = contents.last();
        let groups = chunks(remove_char(s, ' '), 3);
        lemma_chunk_lengths(remove_char(s, ' '), 3);
        lemma_bytes_suffix_len(remove_char(s, ' '), byte_len(remove_char(s, ' ')) % 3);
        match octal_pieces(s) {
            None => {},
            Some(pieces) => {
                assert forall|k: int| 0 <= k < pieces.len() implies #[trigger] pieces[k].len() <= 3 by {
                    if k < groups.len() {
                        assert(pieces[k] == groups[k]);
                    }
                }
                match octal_of(contents.drop_last()) {
                    None => {},
                    Some(prev) => {
                        if all_parse(pieces) {
                            let vals = piece_values(pieces);
                            let all = prev + vals;
                            assert forall|i: int| 0 <= i < all.len() implies #[trigger] all[i] < 8 by {
                                if i >= prev.len() {
                                    let k = i - prev.len();
                                    lemma_parse_small(pieces[k]);
                                    assert(all[i] == vals[k]);
                                } else {
                                    assert(all[i] == prev[i]);
                                }
                            }
                        }
                    },
                }
            },
        }
    }
}

/// A text of one-byte characters has as many bytes as characters.
proof fn lemma_ascii_byte_len(s: Seq<char>)
    requires
        forall|i: int| 0 <= i < s.len() ==> '\u{80}' > #[trigger] s[i],
    ensures
        byte_len(s) == s.len(),
    decreases s.len(),
{
    if s.len() > 0 {
        assert(s.last() == s[s.len() - 1]);
        assert forall|i: int| 0 <= i < s.drop_last().len() implies '\u{80}' > #[trigger] s.drop_last()[i] by {
            assert(s.drop_last()[i] == s[i]);
        }
        lemma_ascii_byte_len(s.drop_last());
    }
}

/// The last `k` bytes of a text of one-byte characters are its last `k`
/// characters.
proof fn lemma_ascii_suffix(s: Seq<char>, k: nat)
    requires
        forall|i: int| 0 <= i < s.len() ==> '\u{80}' > #[trigger] s[i],
        k <= s.len(),
    ensures
        bytes_suffix(s, k) == Some(s.skip(s.len() - k)),
    decreases s.len(),
{
    if k == 0 {
        assert(s.skip(s.len() as int) =~= Seq::<char>::empty());
    } else {
        assert(s.last() == s[s.len() - 1]);
        assert forall|i: int| 0 <= i < s.drop_last().len() implies '\u{80}' > #[trigger] s.drop_last()[i] by {
            assert(s.drop_last()[i] == s[i]);
        }
        lemma_ascii_suffix(s.drop_last(), (k - 1) as nat);
        assert(s.drop_last().skip(s.len() - k).push(s.last()) =~= s.skip(s.len() - k));
    }
}

/// One to three binary digits read as their value.
proof fn lemma_parse_bits(p: Seq<char>)
    requires
        1 <= p.len() <= 3,
        is_bits(p),
    ensures
        parse_binary(p) == Some(binary_value(p)),
{
    assert(p[0] == '0' || p[0] == '1');
    lemma_small_value(p);
}

/// The chunks of binary digits are binary digits.
proof fn lemma_chunks_bits(s: Seq<char>, n: nat)
    requires
        is_bits(s),
    ensures
        forall|k: int| 0 <= k < chunks(s, n).len() ==> is_bits(#[trigger] chunks(s, n)[k]),
    decreases s.len(),
{
    if n > 0 && s.len() >= n {
        let rest = s.skip(n as int);
        assert(is_bits(rest)) by {
            assert forall|i: int| 0 <= i < rest.len() implies (#[trigger] rest[i] == '0' || rest[i]
                == '1') by {
                assert(rest[i] == s[i + n]);
            }
        }
        lemma_chunks_bits(rest, n);
        let head = s.take(n as int);
        assert(is_bits(head)) by {
            assert forall|i: int| 0 <= i < head.len() implies (#[trigger] head[i] == '0' || head[i]
                == '1') by {
                assert(head[i] == s[i]);
            }
        }
        let r = chunks(s, n);
        assert forall|k: int| 0 <= k < r.len() implies is_bits(#[trigger] r[k]) by {
            if k > 0 {
                assert(r[k] == chunks(rest, n)[k - 1]);
            }
        }
    }
}

/// Lines of binary digits and spaces always give octal digits.
pub proof fn lemma_code_lines_read(contents: Seq<Seq<char>>)
    requires
        forall|k: int| 0 <= k < contents.len() ==> is_code_text(#[trigger] contents[k]),
    ensures
        octal_of(contents) is Some,
    decreases contents.len(),
{
    if contents.len() > 0 {
        let init = contents.drop_last();
        assert forall|k: int| 0 <= k < init.len() implies is_code_text(#[trigger] init[k]) by {
            assert(init[k] == contents[k]);
        }
        lemma_code_lines_read(init);
        let s = contents.last();
        assert(s == contents[contents.len() - 1]);
        lemma_remove_spaces_binary(s);
        let t = remove_char(s, ' ');
        assert(is_bits(t));
        assert forall|i: int| 0 <= i < t.len() implies '\u{80}' > #[trigger] t[i] by {
            assert(t[i] == '0' || t[i] == '1');
        }
        lemma_ascii_byte_len(t);
        let k = (t.len() % 3) as nat;
        lemma_ascii_suffix(t, k);
        let groups = chunks(t, 3);
        lemma_chunks_bits(t, 3);
        lemma_chunk_lengths(t, 3);
        assert forall|g: int| 0 <= g < groups.len() implies #[trigger] parse_binary(groups[g]) is Some by {
            lemma_parse_bits(groups[g]);
        }
        let pieces = octal_pieces(s)->0;
        if k == 0 {
            assert(pieces == groups);
        } else {
            let r = t.skip(t.len() - k);
            assert(pieces == groups.push(r));
            assert(is_bits(r)) by {
                assert forall|i: int| 0 <= i < r.len() implies (#[trigger] r[i] == '0' || r[i] == '1') by {
                    assert(r[i] == t[t.len() - k + i]);
                }
            }
            lemma_parse_bits(r);
            assert forall|g: int| 0 <= g < pieces.len() implies #[trigger] parse_binary(pieces[g]) is Some by {
                if g < groups.len() {
                    assert(pieces[g] == groups[g]);
                }
            }
        }
    }
}

/// Leaving the spaces out twice leaves them out once.
proof fn lemma_remove_twice(s: Seq<char>, c: char)
    ensures
        remove_char(remove_char(s, c), c) == remove_char(s, c),
    decreases s.len(),
{
    if s.len() > 0 {
        lemma_remove_twice(s.drop_last(), c);
        let r = remove_char(s.drop_last(), c);
        if s.last() != c {
            assert(r.push(s.last()).drop_last() =~= r);
        }
    }
}

/// The spaces of a program change nothing in its octal digits: they only
/// make the binary readable.
pub proof fn lemma_octal_ignores_spaces(contents: Seq<Seq<char>>)
    ensures
        octal_of(contents) == octal_of(contents.map_values(|s: Seq<char>| remove_char(s, ' '))),
    decreases contents.len(),
{
    let stripped = contents.map_values(|s: Seq<char>| remove_char(s, ' '));
    if contents.len() > 0 {
        let init = contents.drop_last();
        lemma_octal_ignores_spaces(init);
        assert(stripped.drop_last() =~= init.map_values(|s: Seq<char>| remove_char(s, ' ')));
        let s = contents.last();
        assert(stripped.last() == remove_char(s, ' '));
        lemma_remove_twice(s, ' ');
        assert(octal_pieces(remove_char(s, ' ')) == octal_pieces(s));
    }
}

/// Leaving the spaces out of two texts one after the other leaves them out
/// of each.
proof fn lemma_remove_append(a: Seq<char>, b: Seq<char>, c: char)
    ensures
        remove_char(a + b, c) == remove_char(a, c) + remove_char(b, c),
    decreases b.len(),
{
    if b.len() == 0 {
        assert(a + b =~= a);
        assert(remove_char(a, c) + remove_char(b, c) =~= remove_char(a, c));
    } else {
        lemma_remove_append(a, b.drop_last(), c);
        assert((a + b).drop_last() =~= a + b.drop_last());
        assert((a + b).last() == b.last());
        if b.last() != c {
            assert(remove_char(a, c) + remove_char(b.drop_last(), c).push(b.last()) =~= (remove_char(
                a,
                c,
            ) + remove_char(b.drop_last(), c)).push(b.last()));
        }
    }
}

/// The digits of all lines are the digits of the lines one after another.
proof fn lemma_all_bits_text(contents: Seq<Seq<char>>)
    ensures
        all_bits(contents) == remove_char(all_text(contents), ' '),
    decreases contents.len(),
{
    if contents.len() > 0 {
        lemma_all_bits_text(contents.drop_last());
        lemma_remove_append(all_text(contents.drop_last()), contents.last(), ' ');
    }
}

/// The dance of a program depends only on its digits, spaces left out:
/// it is the dance of one line holding all of them.
pub proof fn lemma_dance_ignores_layout(contents: Seq<Seq<char>>)
    ensures
        dance_of(contents) == dance_of(seq![remove_char(all_text(contents), ' ')]),
{
    lemma_all_bits_text(contents);
    lemma_remove_twice(all_text(contents), ' ');
    let one = seq![remove_char(all_text(contents), ' ')];
    let x = remove_char(all_text(contents), ' ');
    assert(one.drop_last() =~= Seq::<Seq<char>>::empty());
    assert(one.last() == x);
    assert(all_bits(one.drop_last()) == Seq::<char>::empty());
    assert(Seq::<char>::empty() + remove_char(x, ' ') =~= remove_char(x, ' '));
    assert(all_bits(one) == remove_char(x, ' '));
}

/// Octal digits written back in three bits each.
pub open spec fn octal_bits(digits: Seq<u8>) -> Seq<char>
    decreases digits.len(),
{
    if digits.len() == 0 {
        Seq::empty()
    } else {
        pad_binary(digits[0] as nat, 3) + octal_bits(digits.drop_first())
    }
}

/// Writing back the digits of two runs gives the bits of each in turn.
proof fn lemma_octal_bits_append(a: Seq<u8>, b: Seq<u8>)
    ensures
        octal_bits(a + b) == octal_bits(a) + octal_bits(b),
    decreases a.len(),
{
    if a.len() == 0 {
        assert(a + b =~= b);
    } else {
        lemma_octal_bits_append(a.drop_first(), b);
        assert((a + b).drop_first() =~= a.drop_first() + b);
        assert((a + b)[0] == a[0]);
    }
}


/// The groups of three of a line of bits, as octal digits written back in
/// three bits each, give the line.
proof fn lemma_groups_round_trip(s: Seq<char>)
    requires
        is_bits(s),
        s.len() % 3 == 0,
    ensures
        all_parse(chunks(s, 3)),
        octal_bits(piece_values(chunks(s, 3))) == s,
    decreases s.len(),
{
    if s.len() == 0 {
        assert(chunks(s, 3) =~= Seq::<Seq<char>>::empty());
        assert(piece_values(chunks(s, 3)) =~= Seq::<u8>::empty());
        assert(s =~= Seq::<char>::empty());
    } else {
        let head = s.take(3);
        let rest = s.skip(3);
        assert(is_bits(head)) by {
            assert forall|i: int| 0 <= i < head.len() implies (#[trigger] head[i] == '0' || head[i]
                == '1') by {
                assert(head[i] == s[i]);
            }
        }
        assert(is_bits(rest)) by {
            assert forall|i: int| 0 <= i < rest.len() implies (#[trigger] rest[i] == '0' || rest[i]
                == '1') by {
                assert(rest[i] == s[i + 3]);
            }
        }
        lemma_groups_round_trip(rest);
        lemma_binary_round_trip(head);
        lemma_parse_bits(head);
        let c = chunks(s, 3);
        let v = piece_values(c);
        assert(c == seq![head] + chunks(rest, 3));
        assert forall|i: int| 0 <= i < c.len() implies #[trigger] parse_binary(c[i]) is Some by {
            if i > 0 {
                assert(c[i] == chunks(rest, 3)[i - 1]);
            }
        }
        assert(v[0] == binary_value(head) as u8);
        assert(v.drop_first() =~= piece_values(chunks(rest, 3)));
        assert(head + rest =~= s);
    }
}

/// The octal digits of lines of bits whose lengths are multiples of three,
/// written back in three bits each, give the bits of all the lines: the
/// pasting macro hands the decoder the program unchanged.
pub proof fn lemma_octal_round_trip(contents: Seq<Seq<char>>)
    requires
        forall|k: int|
            0 <= k < contents.len() ==> is_code_text(#[trigger] contents[k]) && remove_char(
                contents[k],
                ' ',
            ).len() % 3 == 0,
    ensures
        octal_of(contents) matches Some(v) && octal_bits(v) == all_bits(contents),
    decreases contents.len(),
{
    if contents.len() > 0 {
        let init = contents.drop_last();
        let line = contents.last();
        assert(contents[contents.len() - 1] == line);
        assert forall|k: int| 0 <= k < init.len() implies is_code_text(#[trigger] init[k])
            && remove_char(init[k], ' ').len() % 3 == 0 by {
            assert(init[k] == contents[k]);
        }
        lemma_octal_round_trip(init);
        lemma_remove_spaces_binary(line);
        let t = remove_char(line, ' ');
        assert(is_bits(t));
        lemma_groups_round_trip(t);
        assert forall|i: int| 0 <= i < t.len() implies '\u{80}' > #[trigger] t[i] by {
            assert(t[i] == '0' || t[i] == '1');
        }
        lemma_ascii_byte_len(t);
        assert(octal_pieces(line) == Some(chunks(t, 3)));
        lemma_octal_bits_append(octal_of(init)->0, piece_values(chunks(t, 3)));
    }
}

/// The chunks of a sequence have the requested length.
pub proof fn lemma_chunk_lengths<A>(s: Seq<A>, n: nat)
    ensures
        forall|k: int| 0 <= k < chunks(s, n).len() ==> #[trigger] chunks(s, n)[k].len() == n,
    decreases s.len(),
{
    if n > 0 && s.len() >= n {
        lemma_chunk_lengths(s.skip(n as int), n);
        let r = chunks(s, n);
        let r2 = chunks(s.skip(n as int), n);
        assert forall|k: int| 0 <= k < r.len() implies #[trigger] r[k].len() == n by {
            if k > 0 {
                assert(r[k] == r2[k - 1]);
            }
        }
    }
}

/// `center_from` gives at least `n` characters: exactly `n` when `s` is no
/// longer.
pub proof fn lemma_center_len(s: Seq<char>, n: nat, front: bool)
    ensures
        center_from(s, n, front).len() == if s.len() >= n {
            s.len()
        } else {
            n
        },
    decreases n - s.len(),
{
    if s.len() < n {
        if front {
            lemma_center_len(seq![' '] + s, n, false);
        } else {
            lemma_center_len(s.push(' '), n, true);
        }
    }
}

/// Every direction name fits in nine characters.
proof fn lemma_direction_names()
    ensures
        "North"@.len() <= 9,
        "West"@.len() <= 9,
        "South"@.len() <= 9,
        "East"@.len() <= 9,
        "Northwest"@.len() <= 9,
        "Northeast"@.len() <= 9,
        "Southwest"@.len() <= 9,
        "Southeast"@.len() <= 9,
        "Up"@.len() <= 9,
        "Down"@.len() <= 9,
        "JUMP"@.len() <= 5,
        "SNEAK"@.len() <= 5,
        "| "@.len() == 2,
        " | "@.len() == 3,
        " |"@.len() == 2,
{
    reveal_strlit("North");
    reveal_strlit("West");
    reveal_strlit("South");
    reveal_strlit("East");
    reveal_strlit("Northwest");
    reveal_strlit("Northeast");
    reveal_strlit("Southwest");
    reveal_strlit("Southeast");
    reveal_strlit("Up");
    reveal_strlit("Down");
    reveal_strlit("JUMP");
    reveal_strlit("SNEAK");
    reveal_strlit("| ");
    reveal_strlit(" | ");
    reveal_strlit(" |");
}

/// A line of the dance table has 41 characters, as wide as its separator.
pub proof fn lemma_move_line_width(look: Seq<char>, mv: Seq<char>, jump: bool, sneak: bool)
    requires
        look.len() <= 9,
        mv.len() <= 9,
    ensures
        move_line(look, mv, jump, sneak).len() == 41,
{
    lemma_direction_names();
    lemma_center_len(look, 9, false);
    lemma_center_len(mv, 9, false);
    let j = if jump {
        "JUMP"@
    } else {
        Seq::<char>::empty()
    };
    let k = if sneak {
        "SNEAK"@
    } else {
        Seq::<char>::empty()
    };
    lemma_center_len(j, 5, false);
    lemma_center_len(k, 5, false);
}

/// The directions read have names of at most nine characters.
proof fn lemma_dirs_short(w: Seq<char>)
    ensures
        lookvec_dir(w) matches Some((_, d)) ==> d.len() <= 9,
        movement_dir(w) matches Some((_, d)) ==> d.len() <= 9,
{
    lemma_direction_names();
}

/// Every line of a dance table but its heading has 41 characters.
proof fn lemma_dance_width(binary: Seq<char>, len: nat)
    ensures
        dance_moves(binary, len) matches Some(m) ==> forall|k: int|
            0 <= k < m.len() ==> #[trigger] m[k].len() == 41,
    decreases len,
{
    if len > 0 {
        let w = pad_right(binary.take(min_nat(10, len) as int), '0', 10);
        lemma_dirs_short(w);
        match lookvec_dir(w) {
            None => {},
            Some((l1, look)) => {
                let w2 = w.skip(l1 as int);
                lemma_dirs_short(w2);
                match movement_dir(w2) {
                    None => {},
                    Some((l2, mv)) => {
                        let w3 = w2.skip(l2 as int);
                        if first_ascii(w3, 2) {
                            let used = l1 + l2 + 2;
                            let cut = min_nat(used, len);
                            let left = (len - cut) as nat;
                            lemma_dance_width(binary.skip(cut as int), left);
                            let line = move_line(look, mv, w3[0] == '1', w3[1] == '1');
                            lemma_move_line_width(look, mv, w3[0] == '1', w3[1] == '1');
                            match dance_moves(binary.skip(cut as int), left) {
                                None => {},
                                Some(rest) => {
                                    let m = seq![line] + rest;
                                    assert forall|k: int| 0 <= k < m.len() implies #[trigger] m[k].len()
                                        == 41 by {
                                        if k > 0 {
                                            assert(m[k] == rest[k - 1]);
                                        }
                                    }
                                },
                            }
                        }
                    },
                }
            },
        }
    }
}

// ---------------------------------------------------------------------------
// Executable functions: octal
// ---------------------------------------------------------------------------

/// The bytes that `c` takes in UTF-8.
fn utf8_width_exec(c: char) -> (r: usize)
    ensures
        r == utf8_width(c),
{
    if '\u{80}' > c {
        1
    } else if '\u{800}' > c {
        2
    } else if '\u{10000}' > c {
        3
    } else {
        4
    }
}

/// The number that at most three characters write in base 2, as
/// `u8::from_str_radix` reads it.
fn parse_binary_exec(p: &Vec<char>) -> (r: Option<u8>)
    requires
        p.len() <= 3,
    ensures
        match r {
            Some(v) => parse_binary(p@) == Some(v as nat),
            None => parse_binary(p@) is None,
        },
{
    let start: usize = if p.len() > 0 && p[0] == '+' {
        1
    } else {
        0
    };
    let d = sub_chars(p, start, p.len());
    let ghost dv = if p@.len() > 0 && p@[0] == '+' {
        p@.drop_first()
    } else {
        p@
    };
    assert(d@ =~= dv);
    if d.len() == 0 {
        return None;
    }
    let mut acc: u8 = 0;
    let mut j: usize = 0;
    while j < d.len()
        invariant
            j <= d.len() <= 3,
            d@ == dv,
            dv == (if p@.len() > 0 && p@[0] == '+' {
                p@.drop_first()
            } else {
                p@
            }),
            acc == binary_value(d@.take(j as int)),
            acc < pow2(j as nat),
            forall|k: int| 0 <= k < j ==> (#[trigger] d@[k] == '0' || d@[k] == '1'),
        decreases d.len() - j,
    {
        if d[j] != '0' && d[j] != '1' {
            assert(!is_bits(d@));
            return None;
        }
        assert(d@.take(j + 1).drop_last() =~= d@.take(j as int));
        proof {
            reveal_with_fuel(pow2, 4);
        }
        let bit: u8 = if d[j] == '1' {
            1
        } else {
            0
        };
        acc = 2 * acc + bit;
        j = j + 1;
    }
    assert(d@.take(d.len() as int) =~= d@);
    proof {
        lemma_small_value(d@);
    }
    Some(acc)
}

/// The characters of the last `k` bytes of `s`, for `k` at most two.
fn bytes_suffix_exec(s: &Vec<char>, k: usize) -> (r: Option<Vec<char>>)
    requires
        k <= 2,
    ensures
        match r {
            Some(v) => bytes_suffix(s@, k as nat) == Some(v@),
            None => bytes_suffix(s@, k as nat) is None,
        },
{
    if k == 0 {
        return Some(Vec::new());
    }
    if s.len() == 0 {
        return None;
    }
    let last = s[s.len() - 1];
    assert(s@.last() == last);
    let w = utf8_width_exec(last);
    if w > k {
        None
    } else if w == k {
        let mut v: Vec<char> = Vec::new();
        v.push(last);
        assert(bytes_suffix(s@.drop_last(), 0) == Some(Seq::<char>::empty()));
        assert(v@ =~= Seq::<char>::empty().push(last));
        Some(v)
    } else {
        let ghost t = s@.drop_last();
        if s.len() < 2 {
            assert(t.len() == 0);
            return None;
        }
        let prev = s[s.len() - 2];
        assert(t.last() == prev);
        if utf8_width_exec(prev) == 1 {
            assert(bytes_suffix(t.drop_last(), 0) == Some(Seq::<char>::empty()));
            assert(bytes_suffix(t, 1) == Some(seq![prev]));
            let mut v: Vec<char> = Vec::new();
            v.push(prev);
            v.push(last);
            assert(v@ =~= seq![prev].push(last));
            Some(v)
        } else {
            None
        }
    }
}

/// The bytes of `s` in UTF-8, modulo three.
fn byte_len_mod3(s: &Vec<char>) -> (r: usize)
    ensures
        r == byte_len(s@) % 3,
{
    let mut m: usize = 0;
    let mut i: usize = 0;
    while i < s.len()
        invariant
            i <= s.len(),
            m == byte_len(s@.take(i as int)) % 3,
        decreases s.len() - i,
    {
        assert(s@.take(i + 1).drop_last() =~= s@.take(i as int));
        assert(s@.take(i + 1).last() == s@[i as int]);
        let w = utf8_width_exec(s[i]);
        proof {
            let x = byte_len(s@.take(i as int));
            lemma_add_mod_noop(x as int, w as int, 3);
            lemma_add_mod_noop((x % 3) as int, w as int, 3);
            lemma_mod_twice(x as int, 3);
        }
        m = (m + w) % 3;
        i = i + 1;
    }
    assert(s@.take(s.len() as int) =~= s@);
    m
}

/// The octal digits of one line, or `None` when a group is no binary
/// number.
fn line_octal_exec(s: &Vec<char>) -> (r: Option<Vec<u8>>)
    ensures
        match r {
            Some(v) => line_octal(s@) == Some(v@),
            None => line_octal(s@) is None,
        },
{
    let stripped = remove_char_chars(s, ' ');
    let ghost ch = chunks(stripped@, 3);
    let ghost done: Seq<Seq<char>> = Seq::empty();
    let mut r: Vec<u8> = Vec::new();
    let mut j: usize = 0;
    assert(stripped@.skip(0) =~= stripped@);
    assert(ch =~= done + chunks(stripped@.skip(0), 3));
    while stripped.len() - j >= 3
        invariant
            j <= stripped.len(),
            stripped@ == remove_char(s@, ' '),
            ch == chunks(stripped@, 3),
            ch == done + chunks(stripped@.skip(j as int), 3),
            all_parse(done),
            r@ == piece_values(done),
        decreases stripped.len() - j,
    {
        let piece = sub_chars(&stripped, j, j + 3);
        let ghost rest = stripped@.skip(j as int);
        assert(rest.take(3) =~= piece@);
        assert(rest.skip(3) =~= stripped@.skip(j + 3));
        assert(chunks(rest, 3) == seq![piece@] + chunks(stripped@.skip(j + 3), 3));
        assert(ch[done.len() as int] == piece@);
        match parse_binary_exec(&piece) {
            None => {
                proof {
                    let i = done.len() as int;
                    assert(i < ch.len());
                    assert(parse_binary(ch[i]) is None);
                    assert(chunks(remove_char(s@, ' '), 3) == ch);
                    let k = byte_len(stripped@) % 3;
                    if k == 0 {
                        assert(octal_pieces(s@) == Some(ch));
                        assert(!all_parse(ch));
                    } else {
                        match bytes_suffix(stripped@, k) {
                            Some(rs) => {
                                let pieces = ch.push(rs);
                                assert(octal_pieces(s@) == Some(pieces));
                                assert(pieces[i] == ch[i]);
                                assert(!all_parse(pieces));
                            },
                            None => {},
                        }
                    }
                }
                return None;
            },
            Some(v) => {
                let ghost d0 = done;
                r.push(v);
                proof {
                    done = d0.push(piece@);
                    assert forall|i: int| 0 <= i < done.len() implies #[trigger] parse_binary(done[i]) is Some by {
                        if i < d0.len() {
                            assert(done[i] == d0[i]);
                        }
                    }
                    assert(r@ =~= piece_values(done));
                    assert(ch =~= done + chunks(stripped@.skip(j + 3), 3));
                }
            },
        }
        j = j + 3;
    }
    assert(chunks(stripped@.skip(j as int), 3) =~= Seq::<Seq<char>>::empty());
    assert(ch =~= done);
    let k = byte_len_mod3(&stripped);
    if k == 0 {
        return Some(r);
    }
    match bytes_suffix_exec(&stripped, k) {
        None => None,
        Some(rest) => {
            proof {
                lemma_bytes_suffix_len(stripped@, k as nat);
            }
            let pieces = Ghost(ch.push(rest@));
            match parse_binary_exec(&rest) {
                None => {
                    assert(pieces@[ch.len() as int] == rest@);
                    None
                },
                Some(v) => {
                    r.push(v);
                    proof {
                        assert forall|i: int| 0 <= i < pieces@.len() implies #[trigger] parse_binary(
                            pieces@[i],
                        ) is Some by {
                            if i < ch.len() {
                                assert(pieces@[i] == ch[i]);
                            }
                        }
                        assert(r@ =~= piece_values(pieces@));
                    }
                    Some(r)
                },
            }
        },
    }
}

/// Once a beginning of the lines has no octal digits, the lines have none.
proof fn lemma_octal_of_prefix(contents: Seq<Seq<char>>, n: int)
    requires
        0 <= n <= contents.len(),
        octal_of(contents.take(n)) is None,
    ensures
        octal_of(contents) is None,
    decreases contents.len() - n,
{
    if n < contents.len() {
        assert(contents.take(n + 1).drop_last() =~= contents.take(n));
        lemma_octal_of_prefix(contents, n + 1);
    } else {
        assert(contents.take(n) =~= contents);
    }
}

/// The octal digits of a program: each line's characters, spaces left out,
/// by three, then the digits left over after the last whole group; `None` when
/// a group is no binary number.
pub fn octal_digits(contents: &Vec<String>) -> (r: Option<Vec<u8>>)
    ensures
        match r {
            Some(v) => octal_of(contents.deep_view()) == Some(v@),
            None => octal_of(contents.deep_view()) is None,
        },
{
    let lines = chars_of_all(contents);
    let ghost lv = chars_view(lines@);
    assert(lv =~= contents.deep_view());
    assert(lv.take(0) =~= Seq::<Seq<char>>::empty());
    let mut r: Vec<u8> = Vec::new();
    let mut i: usize = 0;
    while i < lines.len()
        invariant
            i <= lines.len(),
            lv == chars_view(lines@),
            lv == contents.deep_view(),
            octal_of(lv.take(i as int)) == Some(r@),
        decreases lines.len() - i,
    {
        assert(lv.take(i + 1).drop_last() =~= lv.take(i as int));
        assert(lv.take(i + 1).last() == lines@[i as int]@);
        match line_octal_exec(&lines[i]) {
            None => {
                proof {
                    assert(line_octal(lv.take(i + 1).last()) is None);
                    assert(octal_of(lv.take(i + 1)) is None);
                    lemma_octal_of_prefix(lv, i + 1);
                }
                return None;
            },
            Some(v) => {
                let ghost r0 = r@;
                let mut k: usize = 0;
                while k < v.len()
                    invariant
                        k <= v.len(),
                        r@ == r0 + v@.take(k as int),
                    decreases v.len() - k,
                {
                    r.push(v[k]);
                    k = k + 1;
                    assert(r@ =~= r0 + v@.take(k as int));
                }
                assert(v@.take(v.len() as int) =~= v@);
            },
        }
        i = i + 1;
    }
    assert(lv.take(lines.len() as int) =~= lv);
    Some(r)
}

/// The octal digits of a program: each line's characters, spaces left out,
/// by three, then the digits left over after the last whole group.
pub fn translate_to_octal(contents: &Vec<String>) -> (r: Vec<u8>)
    requires
        octal_of(contents.deep_view()) is Some,
    ensures
        octal_of(contents.deep_view()) == Some(r@),
        forall|i: int| 0 <= i < r.len() ==> r@[i] < 8,
{
    match octal_digits(contents) {
        Some(v) => {
            proof {
                lemma_octal_digits(contents.deep_view());
                assert(octal_of(contents.deep_view()) == Some(v@));
                assert forall|i: int| 0 <= i < v.len() implies v@[i] < 8 by {
                    assert(octal_of(contents.deep_view())->0[i] == v@[i]);
                }
            }
            v
        },
        None => {
            assert(false);
            Vec::new()
        },
    }
}

// ---------------------------------------------------------------------------
// Executable functions: dance
// ---------------------------------------------------------------------------

/// `to_pad` filled on the right with `with` up to `up_to` characters.
pub fn pad(to_pad: &Vec<char>, with: char, up_to: usize) -> (r: Vec<char>)
    ensures
        r@ == pad_right(to_pad@, with, up_to as nat),
{
    let mut padded = to_pad.clone();
    if padded.len() >= up_to {
        return padded;
    }
    while padded.len() < up_to
        invariant
            to_pad.len() < up_to,
            padded.len() <= up_to,
            padded.len() >= to_pad.len(),
            padded@ == to_pad@ + repeat_char(with, (padded.len() - to_pad.len()) as nat),
        decreases up_to - padded.len(),
    {
        padded.push(with);
        assert(padded@ =~= to_pad@ + repeat_char(with, (padded.len() - to_pad.len()) as nat));
    }
    padded
}

/// The direction that three bits name.
pub fn encode_to_horizontal_dir(three_bits: &Vec<char>) -> (r: Option<Vec<char>>)
    ensures
        match r {
            Some(d) => horizontal_dir(three_bits@) == Some(d@),
            None => horizontal_dir(three_bits@) is None,
        },
{
    if chars_eq(three_bits, &vec!['0', '0', '0']) {
        Some(chars_of("North"))
    } else if chars_eq(three_bits, &vec!['0', '0', '1']) {
        Some(chars_of("West"))
    } else if chars_eq(three_bits, &vec!['0', '1', '0']) {
        Some(chars_of("South"))
    } else if chars_eq(three_bits, &vec!['0', '1', '1']) {
        Some(chars_of("East"))
    } else if chars_eq(three_bits, &vec!['1', '0', '0']) {
        Some(chars_of("Northwest"))
    } else if chars_eq(three_bits, &vec!['1', '0', '1']) {
        Some(chars_of("Northeast"))
    } else if chars_eq(three_bits, &vec!['1', '1', '0']) {
        Some(chars_of("Southwest"))
    } else if chars_eq(three_bits, &vec!['1', '1', '1']) {
        Some(chars_of("Southeast"))
    } else {
        None
    }
}

/// The first `n` characters of `s` are there and take one byte each.
fn first_ascii_exec(s: &Vec<char>, n: usize) -> (r: bool)
    ensures
        r == first_ascii(s@, n as int),
{
    if n > s.len() {
        return false;
    }
    let mut i: usize = 0;
    while i < n
        invariant
            i <= n <= s.len(),
            forall|k: int| 0 <= k < i ==> '\u{80}' > #[trigger] s@[k],
        decreases n - i,
    {
        if !('\u{80}' > s[i]) {
            return false;
        }
        i = i + 1;
    }
    true
}

/// Where to look, and the number of bits used; `None` where the bits name
/// no direction.
fn read_lookvec(bits: &Vec<char>) -> (r: Option<(usize, Vec<char>)>)
    ensures
        match r {
            Some((n, d)) => lookvec_dir(bits@) == Some((n as nat, d@)),
            None => lookvec_dir(bits@) is None,
        },
{
    if !first_ascii_exec(bits, 4) {
        return None;
    }
    let four = sub_chars(bits, 0, 4);
    assert(four@ =~= bits@.take(4));
    if chars_eq(&four, &vec!['0', '0', '0', '0']) {
        Some((4, chars_of("Up")))
    } else if chars_eq(&four, &vec!['0', '0', '0', '1']) {
        Some((4, chars_of("Down")))
    } else {
        let three = sub_chars(bits, 0, 3);
        assert(three@ =~= bits@.take(3));
        match encode_to_horizontal_dir(&three) {
            Some(d) => Some((3, d)),
            None => None,
        }
    }
}

/// Where to move, and the number of bits used; `None` where the bits name
/// no direction.
fn read_movement(bits: &Vec<char>) -> (r: Option<(usize, Vec<char>)>)
    ensures
        match r {
            Some((n, d)) => movement_dir(bits@) == Some((n as nat, d@)),
            None => movement_dir(bits@) is None,
        },
{
    if !first_ascii_exec(bits, 4) {
        return None;
    }
    let four = sub_chars(bits, 0, 4);
    assert(four@ =~= bits@.take(4));
    if chars_eq(&four, &vec!['0', '0', '0', '0']) {
        Some((4, Vec::new()))
    } else {
        let three = sub_chars(bits, 0, 3);
        assert(three@ =~= bits@.take(3));
        match encode_to_horizontal_dir(&three) {
            Some(d) => Some((3, d)),
            None => None,
        }
    }
}

/// Where to look, and the number of bits used.
pub fn encode_lookvec_to_dir(bits: &Vec<char>) -> (r: (usize, Vec<char>))
    requires
        lookvec_dir(bits@) is Some,
    ensures
        lookvec_dir(bits@) == Some((r.0 as nat, r.1@)),
{
    match read_lookvec(bits) {
        Some(x) => x,
        None => {
            assert(false);
            (0, Vec::new())
        },
    }
}

/// Where to move, and the number of bits used.
pub fn encode_movement_to_dir(bits: &Vec<char>) -> (r: (usize, Vec<char>))
    requires
        movement_dir(bits@) is Some,
    ensures
        movement_dir(bits@) == Some((r.0 as nat, r.1@)),
{
    match read_movement(bits) {
        Some(x) => x,
        None => {
            assert(false);
            (0, Vec::new())
        },
    }
}

/// `what` centred in `in_size` characters: spaces added alternately after
/// and before it, after first.
pub fn center(what: &Vec<char>, in_size: usize) -> (r: Vec<char>)
    ensures
        r@ == center_text(what@, in_size as nat),
{
    let mut centered = what.clone();
    let mut other = false;
    while centered.len() < in_size
        invariant
            center_from(centered@, in_size as nat, other) == center_text(what@, in_size as nat),
        decreases in_size - centered.len(),
    {
        if other {
            let ghost c0 = centered@;
            centered.insert(0, ' ');
            assert(centered@ =~= seq![' '] + c0);
        } else {
            centered.push(' ');
        }
        other = !other;
    }
    centered
}

/// One line of the dance table.
pub fn format_move(look: &Vec<char>, mv: &Vec<char>, jump: bool, sneak: bool) -> (r: Vec<char>)
    ensures
        r@ == move_line(look@, mv@, jump, sneak),
        look.len() <= 9 && mv.len() <= 9 ==> r.len() == 41,
{
    let j = if jump {
        chars_of("JUMP")
    } else {
        Vec::new()
    };
    let s = if sneak {
        chars_of("SNEAK")
    } else {
        Vec::new()
    };
    let mut r = chars_of("| ");
    r = concat_chars(&r, &center(look, 9));
    r = concat_chars(&r, &chars_of(" | "));
    r = concat_chars(&r, &center(mv, 9));
    r = concat_chars(&r, &chars_of(" | "));
    r = concat_chars(&r, &center(&j, 5));
    r = concat_chars(&r, &chars_of(" | "));
    r = concat_chars(&r, &center(&s, 5));
    r = concat_chars(&r, &chars_of(" |"));
    proof {
        if look.len() <= 9 && mv.len() <= 9 {
            lemma_move_line_width(look@, mv@, jump, sneak);
        }
    }
    r
}

/// `done` placed before the moves of `r`, when there are any.
pub open spec fn prepend_moves(done: Seq<Seq<char>>, r: Option<Seq<Seq<char>>>) -> Option<
    Seq<Seq<char>>,
> {
    match r {
        Some(m) => Some(done + m),
        None => None,
    }
}

/// The dance table for a program: a heading, then one line per move;
/// `None` when a move cannot be read.
#[verifier::spinoff_prover]
#[verifier::rlimit(40)]
pub fn dance_lines(contents: &Vec<String>) -> (r: Option<Vec<String>>)
    ensures
        match r {
            Some(v) => dance_of(contents.deep_view()) == Some(v.deep_view()),
            None => dance_of(contents.deep_view()) is None,
        },
{
    let lines = chars_of_all(contents);
    let ghost lv = chars_view(lines@);
    assert(lv =~= contents.deep_view());
    assert(lv.take(0) =~= Seq::<Seq<char>>::empty());
    let mut binary: Vec<char> = Vec::new();
    let mut i: usize = 0;
    while i < lines.len()
        invariant
            i <= lines.len(),
            lv == chars_view(lines@),
            binary@ == all_bits(lv.take(i as int)),
        decreases lines.len() - i,
    {
        assert(lv.take(i + 1).drop_last() =~= lv.take(i as int));
        assert(lv.take(i + 1).last() == lines@[i as int]@);
        let part = remove_char_chars(&lines[i], ' ');
        binary = concat_chars(&binary, &part);
        i = i + 1;
    }
    assert(lv.take(lines.len() as int) =~= lv);
    let ghost bits = binary@;
    let mut encoded: Vec<Vec<char>> = Vec::new();
    encoded.push(chars_of("\x1b[4m| LOOK DIR  | MOVE DIR  |  ACT  |  ACT  |\x1b[0m"));
    let mut len: usize = binary.len();
    assert(chars_view(encoded@) =~= seq![dance_header()]);
    while len > 0
        invariant
            len <= binary.len(),
            bits == all_bits(lv),
            lv == contents.deep_view(),
            prepend_moves(chars_view(encoded@), dance_moves(binary@, len as nat)) == prepend_moves(
                seq![dance_header()],
                dance_moves(bits, bits.len()),
            ),
        decreases len,
    {
        let take = if len < 10 {
            len
        } else {
            10
        };
        let head = sub_chars(&binary, 0, take);
        let withdrawn = pad(&head, '0', 10);
        let ghost w = withdrawn@;
        assert(w =~= pad_right(binary@.take(min_nat(10, len as nat) as int), '0', 10));
        let look = match read_lookvec(&withdrawn) {
            Some(x) => x,
            None => {
                return None;
            },
        };
        let w2 = sub_chars(&withdrawn, look.0, withdrawn.len());
        assert(w2@ =~= w.skip(look.0 as int));
        let mv = match read_movement(&w2) {
            Some(x) => x,
            None => {
                return None;
            },
        };
        let w3 = sub_chars(&w2, mv.0, w2.len());
        assert(w3@ =~= w2@.skip(mv.0 as int));
        if !first_ascii_exec(&w3, 2) {
            return None;
        }
        let jump = w3[0] == '1';
        let sneak = w3[1] == '1';
        let line = format_move(&look.1, &mv.1, jump, sneak);
        let ghost e0 = chars_view(encoded@);
        encoded.push(line);
        let used = look.0 + mv.0 + 2;
        let cut = if used < len {
            used
        } else {
            len
        };
        let left = len - cut;
        let ghost old_binary = binary@;
        binary = sub_chars(&binary, cut, binary.len());
        assert(binary@ =~= old_binary.skip(cut as int));
        assert(dance_moves(old_binary, len as nat) == prepend_moves(
            seq![line@],
            dance_moves(binary@, left as nat),
        ));
        assert(chars_view(encoded@) =~= e0.push(line@));
        proof {
            match dance_moves(binary@, left as nat) {
                Some(m) => {
                    assert(e0 + (seq![line@] + m) =~= chars_view(encoded@) + m);
                },
                None => {},
            }
        }
        len = left;
    }
    assert(chars_view(encoded@) + Seq::<Seq<char>>::empty() =~= chars_view(encoded@));
    let r = crate::text::strings_of(&encoded);
    Some(r)
}

/// The dance table for a program: a heading, then one line per move.
pub fn translate_to_dance(contents: &Vec<String>) -> (r: Vec<String>)
    requires
        dance_of(contents.deep_view()) is Some,
    ensures
        dance_of(contents.deep_view()) == Some(r.deep_view()),
        forall|i: int| 1 <= i < r.len() ==> #[trigger] r.deep_view()[i].len() == 41,
{
    match dance_lines(contents) {
        Some(v) => {
            proof {
                let bits = all_bits(contents.deep_view());
                lemma_dance_width(bits, bits.len());
                let m = dance_moves(bits, bits.len())->0;
                assert(dance_of(contents.deep_view()) == Some(v.deep_view()));
                assert(v.deep_view() == seq![dance_header()] + m);
                assert forall|i: int| 1 <= i < v.len() implies #[trigger] v.deep_view()[i].len()
                    == 41 by {
                    assert(v.deep_view()[i] == m[i - 1]);
                }
            }
            v
        },
        None => {
            assert(false);
            Vec::new()
        },
    }
}

/// A binary program can always be danced: lines of binary digits and
/// spaces have a dance table.
pub proof fn lemma_programs_dance(contents: Seq<Seq<char>>)
    requires
        forall|k: int| 0 <= k < contents.len() ==> is_code_text(#[trigger] contents[k]),
    ensures
        dance_of(contents) is Some,
{
    lemma_all_bits_binary(contents);
    lemma_bits_dance(all_bits(contents), all_bits(contents).len());
}

/// The digits of binary lines are binary digits.
proof fn lemma_all_bits_binary(contents: Seq<Seq<char>>)
    requires
        forall|k: int| 0 <= k < contents.len() ==> is_code_text(#[trigger] contents[k]),
    ensures
        is_bits(all_bits(contents)),
    decreases contents.len(),
{
    if contents.len() > 0 {
        let init = contents.drop_last();
        assert forall|k: int| 0 <= k < init.len() implies is_code_text(#[trigger] init[k]) by {
            assert(init[k] == contents[k]);
        }
        lemma_all_bits_binary(init);
        assert(contents.last() == contents[contents.len() - 1]);
        lemma_remove_spaces_binary(contents.last());
        let a = all_bits(init);
        let b = remove_char(contents.last(), ' ');
        assert forall|i: int| 0 <= i < (a + b).len() implies (#[trigger] (a + b)[i] == '0' || (a
            + b)[i] == '1') by {
            if i < a.len() {
                assert((a + b)[i] == a[i]);
            } else {
                assert((a + b)[i] == b[i - a.len()]);
            }
        }
    }
}

/// Three binary digits name a direction.
proof fn lemma_bits_name_direction(b: Seq<char>)
    requires
        b.len() == 3,
        is_bits(b),
    ensures
        horizontal_dir(b) is Some,
{
    if b[0] == '0' && b[1] == '0' && b[2] == '0' {
        assert(b =~= seq!['0', '0', '0']);
    } else if b[0] == '0' && b[1] == '0' && b[2] == '1' {
        assert(b =~= seq!['0', '0', '1']);
    } else if b[0] == '0' && b[1] == '1' && b[2] == '0' {
        assert(b =~= seq!['0', '1', '0']);
    } else if b[0] == '0' && b[1] == '1' && b[2] == '1' {
        assert(b =~= seq!['0', '1', '1']);
    } else if b[0] == '1' && b[1] == '0' && b[2] == '0' {
        assert(b =~= seq!['1', '0', '0']);
    } else if b[0] == '1' && b[1] == '0' && b[2] == '1' {
        assert(b =~= seq!['1', '0', '1']);
    } else if b[0] == '1' && b[1] == '1' && b[2] == '0' {
        assert(b =~= seq!['1', '1', '0']);
    } else {
        assert(b =~= seq!['1', '1', '1']);
    }
}

/// Binary digits read as directions: both reads succeed on at least four
/// binary digits.
proof fn lemma_bits_read(w: Seq<char>)
    requires
        w.len() >= 4,
        is_bits(w),
    ensures
        lookvec_dir(w) is Some,
        movement_dir(w) is Some,
{
    let b = w.take(3);
    assert(is_bits(b)) by {
        assert forall|i: int| 0 <= i < b.len() implies (#[trigger] b[i] == '0' || b[i] == '1') by {
            assert(b[i] == w[i]);
        }
    }
    lemma_bits_name_direction(b);
    assert forall|i: int| 0 <= i < 4 implies '\u{80}' > #[trigger] w[i] by {
        assert(w[i] == '0' || w[i] == '1');
    }
}

/// Texts that differ at a place are different.
proof fn lemma_differ(a: Seq<char>, b: Seq<char>, i: int)
    requires
        0 <= i < a.len(),
        i < b.len(),
        a[i] != b[i],
    ensures
        a != b,
{
}

/// Three binary digits name a direction whose code they are; it is neither
/// `Up` nor `Down`, and not empty.
proof fn lemma_dir_code(b: Seq<char>)
    requires
        b.len() == 3,
        is_bits(b),
    ensures
        horizontal_dir(b) matches Some(d) && dir_code(d) == b && d != "Up"@ && d != "Down"@ && d.len()
            > 0,
{
    reveal_strlit("North");
    reveal_strlit("West");
    reveal_strlit("South");
    reveal_strlit("East");
    reveal_strlit("Northwest");
    reveal_strlit("Northeast");
    reveal_strlit("Southwest");
    reveal_strlit("Southeast");
    reveal_strlit("Up");
    reveal_strlit("Down");
    lemma_differ("North"@, "South"@, 0);
    lemma_differ("West"@, "East"@, 0);
    lemma_differ("West"@, "Down"@, 0);
    lemma_differ("East"@, "Down"@, 0);
    lemma_differ("Northwest"@, "Northeast"@, 5);
    lemma_differ("Northwest"@, "Southwest"@, 0);
    lemma_differ("Northwest"@, "Southeast"@, 0);
    lemma_differ("Northeast"@, "Southwest"@, 0);
    lemma_differ("Northeast"@, "Southeast"@, 0);
    lemma_differ("Southwest"@, "Southeast"@, 5);
    assert("Up"@.len() == 2 && "Down"@.len() == 4 && "North"@.len() == 5 && "South"@.len() == 5);
    assert("West"@.len() == 4 && "East"@.len() == 4 && "Northwest"@.len() == 9);
    assert("Northeast"@.len() == 9 && "Southwest"@.len() == 9 && "Southeast"@.len() == 9);
    if b[0] == '0' && b[1] == '0' && b[2] == '0' {
        assert(b =~= seq!['0', '0', '0']);
    } else if b[0] == '0' && b[1] == '0' && b[2] == '1' {
        assert(b =~= seq!['0', '0', '1']);
    } else if b[0] == '0' && b[1] == '1' && b[2] == '0' {
        assert(b =~= seq!['0', '1', '0']);
    } else if b[0] == '0' && b[1] == '1' && b[2] == '1' {
        assert(b =~= seq!['0', '1', '1']);
    } else if b[0] == '1' && b[1] == '0' && b[2] == '0' {
        assert(b =~= seq!['1', '0', '0']);
    } else if b[0] == '1' && b[1] == '0' && b[2] == '1' {
        assert(b =~= seq!['1', '0', '1']);
    } else if b[0] == '1' && b[1] == '1' && b[2] == '0' {
        assert(b =~= seq!['1', '1', '0']);
    } else {
        assert(b =~= seq!['1', '1', '1']);
    }
}

/// A move read from binary digits stands for the bits it used.
proof fn lemma_step_bits(w: Seq<char>)
    requires
        w.len() == 10,
        is_bits(w),
    ensures
        lookvec_dir(w) is Some,
        ({
            let (l1, look) = lookvec_dir(w)->0;
            let w2 = w.skip(l1 as int);
            &&& (l1 == 3 || l1 == 4)
            &&& movement_dir(w2) is Some
            &&& ({
                let (l2, mv) = movement_dir(w2)->0;
                let w3 = w2.skip(l2 as int);
                &&& (l2 == 3 || l2 == 4)
                &&& step_bits((look, mv, w3[0] == '1', w3[1] == '1')) == w.take((l1 + l2 + 2) as int)
            })
        }),
{
    reveal_strlit("Up");
    reveal_strlit("Down");
    lemma_bits_read(w);
    let b = w.take(3);
    assert(is_bits(b)) by {
        assert forall|i: int| 0 <= i < b.len() implies (#[trigger] b[i] == '0' || b[i] == '1') by {
            assert(b[i] == w[i]);
        }
    }
    lemma_dir_code(b);
    let (l1, look) = lookvec_dir(w)->0;
    let look_bits = if look == "Up"@ {
        seq!['0', '0', '0', '0']
    } else if look == "Down"@ {
        seq!['0', '0', '0', '1']
    } else {
        dir_code(look)
    };
    assert("Up"@.len() == 2 && "Down"@.len() == 4);
    if w.take(4) == seq!['0', '0', '0', '0'] {
        assert(look == "Up"@);
    } else if w.take(4) == seq!['0', '0', '0', '1'] {
        assert(look == "Down"@);
        assert(look != "Up"@);
    } else {
        assert(look == horizontal_dir(b)->0);
    }
    assert(look_bits == w.take(l1 as int));
    let w2 = w.skip(l1 as int);
    assert(is_bits(w2)) by {
        assert forall|i: int| 0 <= i < w2.len() implies (#[trigger] w2[i] == '0' || w2[i] == '1') by {
            assert(w2[i] == w[i + l1]);
        }
    }
    lemma_bits_read(w2);
    let b2 = w2.take(3);
    assert(is_bits(b2)) by {
        assert forall|i: int| 0 <= i < b2.len() implies (#[trigger] b2[i] == '0' || b2[i] == '1') by {
            assert(b2[i] == w2[i]);
        }
    }
    lemma_dir_code(b2);
    let (l2, mv) = movement_dir(w2)->0;
    let mv_bits = if mv.len() == 0 {
        seq!['0', '0', '0', '0']
    } else {
        dir_code(mv)
    };
    assert(mv_bits == w2.take(l2 as int));
    let w3 = w2.skip(l2 as int);
    assert(w3[0] == w[(l1 + l2) as int] && w3[1] == w[(l1 + l2 + 1) as int]);
    let f = seq![if w3[0] == '1' { '1' } else { '0' }, if w3[1] == '1' { '1' } else { '0' }];
    assert(f =~= seq![w[(l1 + l2) as int], w[(l1 + l2 + 1) as int]]);
    assert(look_bits + mv_bits + f =~= w.take((l1 + l2 + 2) as int));
}

/// The moves of binary digits are read as their lines say, and the bits
/// they stand for are the digits, then fewer than ten zeros.
#[verifier::spinoff_prover]
#[verifier::rlimit(60)]
proof fn lemma_steps_spell(binary: Seq<char>, len: nat)
    requires
        is_bits(binary),
        len <= binary.len(),
    ensures
        dance_steps(binary, len) is Some,
        ({
            let st = dance_steps(binary, len)->0;
            &&& dance_moves(binary, len) == Some(st.map_values(|x: DanceStep| step_line(x)))
            &&& len <= steps_bits(st).len() < len + 10
            &&& steps_bits(st).take(len as int) == binary.take(len as int)
            &&& forall|i: int| len <= i < steps_bits(st).len() ==> #[trigger] steps_bits(st)[i] == '0'
        }),
    decreases len,
{
    if len == 0 {
        assert(Seq::<DanceStep>::empty().map_values(|x: DanceStep| step_line(x)) =~= Seq::<
            Seq<char>,
        >::empty());
        assert(binary.take(0) =~= Seq::<char>::empty());
    } else {
        let t = binary.take(min_nat(10, len) as int);
        let w = pad_right(t, '0', 10);
        assert(is_bits(w)) by {
            assert forall|i: int| 0 <= i < w.len() implies (#[trigger] w[i] == '0' || w[i] == '1') by {
                if i < t.len() {
                    assert(w[i] == binary[i]);
                }
            }
        }
        lemma_step_bits(w);
        lemma_bits_dance(binary, len);
        let (l1, look) = lookvec_dir(w)->0;
        let w2 = w.skip(l1 as int);
        let (l2, mv) = movement_dir(w2)->0;
        let w3 = w2.skip(l2 as int);
        assert forall|i: int| 0 <= i < 2 implies '\u{80}' > #[trigger] w3[i] by {
            assert(w3[i] == w[l1 + l2 + i]);
        }
        let used = l1 + l2 + 2;
        let cut = min_nat(used, len);
        let left = (len - cut) as nat;
        let rest = binary.skip(cut as int);
        assert(is_bits(rest)) by {
            assert forall|i: int| 0 <= i < rest.len() implies (#[trigger] rest[i] == '0' || rest[i]
                == '1') by {
                assert(rest[i] == binary[i + cut]);
            }
        }
        lemma_steps_spell(rest, left);
        let st0: DanceStep = (look, mv, w3[0] == '1', w3[1] == '1');
        let rs = dance_steps(rest, left)->0;
        let st = seq![st0] + rs;
        assert(dance_steps(binary, len) == Some(st));
        assert(st.map_values(|x: DanceStep| step_line(x)) =~= seq![step_line(st0)] + rs.map_values(
            |x: DanceStep| step_line(x),
        ));
        let head = step_bits(st0);
        let rb = steps_bits(rs);
        assert(st.drop_first() =~= rs);
        assert(steps_bits(st) == head + rb);
        assert(head == w.take(used as int));
        let all = head + rb;
        if used <= len {
            assert(head =~= binary.take(used as int)) by {
                assert forall|i: int| 0 <= i < used implies head[i] == binary[i] by {
                    assert(w[i] == t[i]);
                }
            }
            assert(all.take(len as int) =~= binary.take(len as int)) by {
                assert forall|i: int| 0 <= i < len implies all.take(len as int)[i] == binary[i] by {
                    if i >= used {
                        assert(all[i] == rb[i - used]);
                        assert(rb.take(left as int)[i - used] == rb[i - used]);
                        assert(rest.take(left as int)[i - used] == rest[i - used]);
                        assert(rest[i - used] == binary[i]);
                    }
                }
            }
            assert forall|i: int| len <= i < all.len() implies #[trigger] all[i] == '0' by {
                assert(all[i] == rb[i - used]);
            }
        } else {
            assert(left == 0);
            assert(rb =~= Seq::<char>::empty());
            assert(min_nat(10, len) == len);
            assert(all.take(len as int) =~= binary.take(len as int)) by {
                assert forall|i: int| 0 <= i < len implies all.take(len as int)[i] == binary[i] by {
                    assert(all[i] == w[i]);
                    assert(w[i] == t[i]);
                }
            }
            assert forall|i: int| len <= i < all.len() implies #[trigger] all[i] == '0' by {
                assert(all[i] == w[i]);
            }
        }
    }
}

/// Decoding the dance table gives the program back: its lines are the
/// lines of moves that stand for the program's digits, spaces left out,
/// followed by fewer than ten zeros.
pub proof fn lemma_dance_decodes(contents: Seq<Seq<char>>)
    requires
        forall|k: int| 0 <= k < contents.len() ==> is_code_text(#[trigger] contents[k]),
    ensures
        dance_steps(all_bits(contents), all_bits(contents).len()) is Some,
        ({
            let bits = all_bits(contents);
            let n = bits.len();
            let st = dance_steps(bits, n)->0;
            &&& dance_of(contents) == Some(
                seq![dance_header()] + st.map_values(|x: DanceStep| step_line(x)),
            )
            &&& n <= steps_bits(st).len() < n + 10
            &&& steps_bits(st).take(n as int) == bits
            &&& forall|i: int| n <= i < steps_bits(st).len() ==> #[trigger] steps_bits(st)[i] == '0'
        }),
{
    lemma_all_bits_binary(contents);
    let bits = all_bits(contents);
    lemma_steps_spell(bits, bits.len());
    assert(bits.take(bits.len() as int) =~= bits);
}

/// Binary digits always spell moves.
proof fn lemma_bits_dance(binary: Seq<char>, len: nat)
    requires
        is_bits(binary),
        len <= binary.len(),
    ensures
        dance_moves(binary, len) is Some,
    decreases len,
{
    if len > 0 {
        let t = binary.take(min_nat(10, len) as int);
        let w = pad_right(t, '0', 10);
        assert(is_bits(w)) by {
            assert forall|i: int| 0 <= i < w.len() implies (#[trigger] w[i] == '0' || w[i] == '1') by {
                if i < t.len() {
                    assert(w[i] == binary[i]);
                }
            }
        }
        assert(w.len() == 10);
        lemma_bits_read(w);
        let (l1, look) = lookvec_dir(w)->0;
        let w2 = w.skip(l1 as int);
        assert(is_bits(w2)) by {
            assert forall|i: int| 0 <= i < w2.len() implies (#[trigger] w2[i] == '0' || w2[i] == '1') by {
                assert(w2[i] == w[i + l1]);
            }
        }
        lemma_bits_read(w2);
        let (l2, mv) = movement_dir(w2)->0;
        let w3 = w2.skip(l2 as int);
        assert forall|i: int| 0 <= i < 2 implies '\u{80}' > #[trigger] w3[i] by {
            assert(w3[i] == w2[i + l2]);
        }
        let used = l1 + l2 + 2;
        let cut = min_nat(used, len);
        let left = (len - cut) as nat;
        let rest = binary.skip(cut as int);
        assert(is_bits(rest)) by {
            assert forall|i: int| 0 <= i < rest.len() implies (#[trigger] rest[i] == '0' || rest[i]
                == '1') by {
                assert(rest[i] == binary[i + cut]);
            }
        }
        lemma_bits_dance(rest, left);
    }
}

/// Removing the spaces from binary text leaves binary digits.
proof fn lemma_remove_spaces_binary(s: Seq<char>)
    requires
        is_code_text(s),
    ensures
        forall|k: int| 0 <= k < remove_char(s, ' ').len() ==> (#[trigger] remove_char(s, ' ')[k] == '0'
            || remove_char(s, ' ')[k] == '1'),
    decreases s.len(),
{
    if s.len() > 0 {
        assert forall|k: int| 0 <= k < s.drop_last().len() implies (#[trigger] s.drop_last()[k] == '0'
            || s.drop_last()[k] == '1' || s.drop_last()[k] == ' ') by {
            assert(s.drop_last()[k] == s[k]);
        }
        lemma_remove_spaces_binary(s.drop_last());
        let prev = remove_char(s.drop_last(), ' ');
        assert(s.last() == s[s.len() - 1]);
        assert forall|k: int| 0 <= k < remove_char(s, ' ').len() implies (#[trigger] remove_char(s, ' ')[k] == '0'
            || remove_char(s, ' ')[k] == '1') by {
            if k < prev.len() {
                assert(remove_char(s, ' ')[k] == prev[k]);
            }
        }
    }
}

} // verus!
