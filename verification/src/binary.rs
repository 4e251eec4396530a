//! Numbers written in binary and in decimal, powers of two and logarithms.
use vstd::prelude::*;

verus! {

// ---------------------------------------------------------------------------
// Specifications
// ---------------------------------------------------------------------------

/// Two to the power `n`.
pub open spec fn pow2(n: nat) -> nat
    decreases n,
{
    if n == 0 {
        1
    } else {
        2 * pow2((n - 1) as nat)
    }
}

/// The smallest `b` with `2^b >= n` (0 for `n <= 1`).
pub open spec fn ceil_log2(n: nat) -> nat
    decreases n,
{
    if n <= 1 {
        0
    } else {
        1 + ceil_log2(((n + 1) / 2) as nat)
    }
}

/// The largest `b` with `2^b <= n` (0 for `n <= 1`).
pub open spec fn floor_log2(n: nat) -> nat
    decreases n,
{
    if n <= 1 {
        0
    } else {
        1 + floor_log2(n / 2)
    }
}

/// The character of a decimal digit `d < 10`.
pub open spec fn digit_char(d: nat) -> char {
    if d == 0 {
        '0'
    } else if d == 1 {
        '1'
    } else if d == 2 {
        '2'
    } else if d == 3 {
        '3'
    } else if d == 4 {
        '4'
    } else if d == 5 {
        '5'
    } else if d == 6 {
        '6'
    } else if d == 7 {
        '7'
    } else if d == 8 {
        '8'
    } else {
        '9'
    }
}

/// `n` in binary, without leading zeros (`0` is written `0`).
pub open spec fn binary_digits(n: nat) -> Seq<char>
    decreases n,
{
    if n < 2 {
        seq![digit_char(n)]
    } else {
        binary_digits(n / 2).push(digit_char(n % 2))
    }
}

/// `n` in decimal, without leading zeros.
pub open spec fn decimal_digits(n: nat) -> Seq<char>
    decreases n,
{
    if n < 10 {
        seq![digit_char(n)]
    } else {
        decimal_digits(n / 10).push(digit_char(n % 10))
    }
}

/// `n` characters `c`.
pub open spec fn repeat_char(c: char, n: nat) -> Seq<char> {
    Seq::new(n, |i: int| c)
}

/// `n` in binary, padded with leading zeros to `width` characters; left as
/// it is when it needs more than `width` digits.
pub open spec fn pad_binary(n: nat, width: nat) -> Seq<char> {
    let d = binary_digits(n);
    if d.len() > width {
        d
    } else {
        repeat_char('0', (width - d.len()) as nat) + d
    }
}

/// The value of a sequence of binary digits.
pub open spec fn binary_value(s: Seq<char>) -> nat
    decreases s.len(),
{
    if s.len() == 0 {
        0
    } else {
        2 * binary_value(s.drop_last()) + (if s.last() == '1' {
            1nat
        } else {
            0nat
        })
    }
}

// ---------------------------------------------------------------------------
// Laws
// ---------------------------------------------------------------------------

/// `ceil_log2(n)` is the least `b` with `n <= 2^b`.
pub proof fn lemma_ceil_log2(n: nat, b: nat)
    ensures
        (pow2(b) >= n && (b == 0 || pow2((b - 1) as nat) < n)) <==> b == ceil_log2(n),
    decreases n,
{
    if n <= 1 {
        if b > 0 {
            lemma_pow2_positive((b - 1) as nat);
        }
        lemma_pow2_positive(b);
    } else {
        let m = ((n + 1) / 2) as nat;
        if b > 0 {
            lemma_ceil_log2(m, (b - 1) as nat);
            if b > 1 {
                assert(pow2((b - 1) as nat) == 2 * pow2((b - 2) as nat));
            }
        } else {
            assert(pow2(0) == 1);
        }
    }
}

/// `floor_log2(n)` is the greatest `b` with `2^b <= n`, for `n >= 1`.
pub proof fn lemma_floor_log2(n: nat, b: nat)
    requires
        n >= 1,
    ensures
        (pow2(b) <= n < pow2(b + 1)) <==> b == floor_log2(n),
    decreases n,
{
    if n == 1 {
        if b > 0 {
            lemma_pow2_positive((b - 1) as nat);
        }
    } else {
        if b > 0 {
            lemma_floor_log2(n / 2, (b - 1) as nat);
            assert(pow2(b) == 2 * pow2((b - 1) as nat));
        }
    }
}

/// Powers of two are positive.
pub proof fn lemma_pow2_positive(n: nat)
    ensures
        pow2(n) >= 1,
    decreases n,
{
    if n > 0 {
        lemma_pow2_positive((n - 1) as nat);
    }
}

/// Powers of two grow with the exponent.
pub proof fn lemma_pow2_monotone(a: nat, b: nat)
    requires
        a <= b,
    ensures
        pow2(a) <= pow2(b),
    decreases b,
{
    if a < b {
        lemma_pow2_monotone(a, (b - 1) as nat);
        lemma_pow2_positive((b - 1) as nat);
    }
}

/// `2^64` exceeds every `u64`.
pub proof fn lemma_pow2_64()
    ensures
        pow2(64) == 0x1_0000_0000_0000_0000,
{
    reveal_with_fuel(pow2, 65);
}

/// Writing a number in binary never gives more than 64 digits for a `u64`,
/// and the digits are all `0` or `1`.
pub proof fn lemma_binary_digits(n: nat)
    ensures
        binary_digits(n).len() >= 1,
        forall|i: int|
            0 <= i < binary_digits(n).len() ==> (#[trigger] binary_digits(n)[i] == '0'
                || binary_digits(n)[i] == '1'),
        binary_value(binary_digits(n)) == n,
        n < pow2(binary_digits(n).len()),
    decreases n,
{
    let d = binary_digits(n);
    if n >= 2 {
        lemma_binary_digits(n / 2);
        let h = binary_digits(n / 2);
        assert(d == h.push(digit_char(n % 2)));
        assert(d.drop_last() =~= h);
        assert(d.last() == digit_char(n % 2));
        assert(n % 2 == 1 ==> d.last() == '1');
        assert(n % 2 == 0 ==> d.last() == '0');
        assert(binary_value(d) == 2 * binary_value(h) + (if n % 2 == 1 {
            1nat
        } else {
            0nat
        }));
        assert(pow2(d.len()) == 2 * pow2(h.len()));
        assert forall|i: int| 0 <= i < d.len() implies (#[trigger] d[i] == '0' || d[i] == '1') by {
            if i < h.len() {
                assert(d[i] == h[i]);
            }
        }
    } else {
        assert(d == seq![digit_char(n)]);
        assert(d.drop_last() =~= Seq::<char>::empty());
        assert(binary_value(d.drop_last()) == 0);
        assert(d.last() == digit_char(n));
        assert(pow2(1) == 2 * pow2(0));
    }
}

/// `pad_binary` writes `n` with the requested width or more, in binary.
pub proof fn lemma_pad_binary(n: nat, width: nat)
    ensures
        pad_binary(n, width).len() >= width,
        n < pow2(width) && width > 0 ==> pad_binary(n, width).len() == width,
        n >= pow2(width) ==> pad_binary(n, width).len() > width,
        forall|i: int|
            0 <= i < pad_binary(n, width).len() ==> (#[trigger] pad_binary(n, width)[i] == '0'
                || pad_binary(n, width)[i] == '1'),
        binary_value(pad_binary(n, width)) == n,
{
    lemma_binary_digits(n);
    let d = binary_digits(n);
    if d.len() <= width {
        lemma_pow2_monotone(d.len(), width);
        lemma_binary_value_zeros(d, (width - d.len()) as nat);
    } else {
        lemma_binary_digits_lower(n);
        lemma_pow2_monotone(width, (d.len() - 1) as nat);
    }
}

/// A number needing `k` binary digits is at least `2^(k-1)`.
proof fn lemma_binary_digits_lower(n: nat)
    ensures
        pow2((binary_digits(n).len() - 1) as nat) <= n || n == 0,
    decreases n,
{
    if n >= 2 {
        lemma_binary_digits_lower(n / 2);
        lemma_binary_digits(n / 2);
        assert(binary_digits(n).len() == binary_digits(n / 2).len() + 1);
        assert(pow2((binary_digits(n).len() - 1) as nat) == 2 * pow2(
            (binary_digits(n / 2).len() - 1) as nat,
        ));
    }
}

/// Leading zeros do not change the value of a binary number.
proof fn lemma_binary_value_zeros(d: Seq<char>, k: nat)
    ensures
        binary_value(repeat_char('0', k) + d) == binary_value(d),
    decreases d.len(),
{
    if d.len() == 0 {
        lemma_binary_value_all_zeros(k);
        assert(repeat_char('0', k) + d =~= repeat_char('0', k));
    } else {
        lemma_binary_value_zeros(d.drop_last(), k);
        assert((repeat_char('0', k) + d).drop_last() =~= repeat_char('0', k) + d.drop_last());
    }
}

proof fn lemma_binary_value_all_zeros(k: nat)
    ensures
        binary_value(repeat_char('0', k)) == 0,
    decreases k,
{
    if k > 0 {
        lemma_binary_value_all_zeros((k - 1) as nat);
        assert(repeat_char('0', k).drop_last() =~= repeat_char('0', (k - 1) as nat));
    }
}

/// Only the digits `0` and `1`.
pub open spec fn is_bits(s: Seq<char>) -> bool {
    forall|i: int| 0 <= i < s.len() ==> (#[trigger] s[i] == '0' || s[i] == '1')
}

/// The value of `k` binary digits is below `2^k`.
pub proof fn lemma_binary_value_bound(s: Seq<char>)
    ensures
        binary_value(s) < pow2(s.len()),
    decreases s.len(),
{
    if s.len() > 0 {
        lemma_binary_value_bound(s.drop_last());
        assert(pow2(s.len()) == 2 * pow2((s.len() - 1) as nat));
    }
}

/// Binary digits of one length and one value are the same digits.
proof fn lemma_binary_value_injective(a: Seq<char>, b: Seq<char>)
    requires
        a.len() == b.len(),
        is_bits(a),
        is_bits(b),
        binary_value(a) == binary_value(b),
    ensures
        a == b,
    decreases a.len(),
{
    if a.len() == 0 {
        assert(a =~= b);
    } else {
        let a0 = a.drop_last();
        let b0 = b.drop_last();
        assert(a.last() == a[a.len() - 1] && b.last() == b[b.len() - 1]);
        assert(a.last() == b.last());
        assert(is_bits(a0)) by {
            assert forall|i: int| 0 <= i < a0.len() implies (#[trigger] a0[i] == '0' || a0[i]
                == '1') by {
                assert(a0[i] == a[i]);
            }
        }
        assert(is_bits(b0)) by {
            assert forall|i: int| 0 <= i < b0.len() implies (#[trigger] b0[i] == '0' || b0[i]
                == '1') by {
                assert(b0[i] == b[i]);
            }
        }
        lemma_binary_value_injective(a0, b0);
        assert(a =~= a0.push(a.last()));
        assert(b =~= b0.push(b.last()));
    }
}

/// Binary digits read as a number and written back in as many digits give
/// the same digits: `pad_binary` undoes `binary_value`.
pub proof fn lemma_binary_round_trip(s: Seq<char>)
    requires
        s.len() > 0,
        is_bits(s),
    ensures
        pad_binary(binary_value(s), s.len()) == s,
{
    lemma_binary_value_bound(s);
    lemma_pad_binary(binary_value(s), s.len());
    let p = pad_binary(binary_value(s), s.len());
    assert(is_bits(p));
    lemma_binary_value_injective(p, s);
}

// ---------------------------------------------------------------------------
// Executable functions
// ---------------------------------------------------------------------------

/// The character of a decimal digit.
pub fn digit_to_char(d: usize) -> (c: char)
    requires
        d < 10,
    ensures
        c == digit_char(d as nat),
{
    if d == 0 {
        '0'
    } else if d == 1 {
        '1'
    } else if d == 2 {
        '2'
    } else if d == 3 {
        '3'
    } else if d == 4 {
        '4'
    } else if d == 5 {
        '5'
    } else if d == 6 {
        '6'
    } else if d == 7 {
        '7'
    } else if d == 8 {
        '8'
    } else {
        '9'
    }
}

/// `n` in binary, without leading zeros.
pub fn to_binary(n: usize) -> (r: Vec<char>)
    ensures
        r@ == binary_digits(n as nat),
    decreases n,
{
    if n < 2 {
        let mut r: Vec<char> = Vec::new();
        r.push(digit_to_char(n));
        assert(r@ =~= seq![digit_char(n as nat)]);
        r
    } else {
        let mut r = to_binary(n / 2);
        r.push(digit_to_char(n % 2));
        r
    }
}

/// `n` in decimal, without leading zeros.
pub fn to_decimal(n: usize) -> (r: Vec<char>)
    ensures
        r@ == decimal_digits(n as nat),
    decreases n,
{
    if n < 10 {
        let mut r: Vec<char> = Vec::new();
        r.push(digit_to_char(n));
        assert(r@ =~= seq![digit_char(n as nat)]);
        r
    } else {
        let mut r = to_decimal(n / 10);
        r.push(digit_to_char(n % 10));
        r
    }
}

/// `n` in binary, padded with leading zeros to `chunk_size` characters; a
/// number that needs more digits is left as it is.
pub fn pad_0_upto(num: usize, chunk_size: u32) -> (r: Vec<char>)
    ensures
        r@ == pad_binary(num as nat, chunk_size as nat),
{
    let bin = to_binary(num);
    if bin.len() > chunk_size as usize {
        return bin;
    }
    let mut r: Vec<char> = Vec::new();
    let fill = chunk_size as usize - bin.len();
    let mut i: usize = 0;
    while i < fill
        invariant
            i <= fill,
            r@ == repeat_char('0', i as nat),
        decreases fill - i,
    {
        r.push('0');
        i = i + 1;
        assert(r@ =~= repeat_char('0', i as nat));
    }
    let mut j: usize = 0;
    while j < bin.len()
        invariant
            j <= bin.len(),
            r@ == repeat_char('0', fill as nat) + bin@.take(j as int),
        decreases bin.len() - j,
    {
        r.push(bin[j]);
        j = j + 1;
        assert(r@ =~= repeat_char('0', fill as nat) + bin@.take(j as int));
    }
    assert(bin@.take(bin.len() as int) == bin@);
    r
}

/// The least `b` with `n <= 2^b`.
pub fn ceil_log2_exec(n: usize) -> (b: u32)
    ensures
        b == ceil_log2(n as nat),
        pow2(b as nat) >= n,
        b == 0 || pow2((b - 1) as nat) < n,
{
    let mut p: u128 = 1;
    let mut b: u32 = 0;
    proof {
        lemma_pow2_64();
    }
    while p < n as u128
        invariant
            p == pow2(b as nat),
            b <= 64,
            b == 0 || pow2((b - 1) as nat) < n,
            pow2(64) == 0x1_0000_0000_0000_0000,
        decreases 64 - b,
    {
        if b == 64 {
            assert(false);
        }
        p = p * 2;
        b = b + 1;
    }
    proof {
        lemma_ceil_log2(n as nat, b as nat);
    }
    b
}

/// The greatest `b` with `2^b <= n`, and 0 for `n == 0`.
pub fn floor_log2_exec(n: usize) -> (b: u32)
    ensures
        b == floor_log2(n as nat),
        n >= 1 ==> pow2(b as nat) <= n < pow2(b as nat + 1),
{
    if n <= 1 {
        proof {
            if n == 1 {
                lemma_floor_log2(1, 0);
            }
        }
        return 0;
    }
    let mut p: u128 = 1;
    let mut b: u32 = 0;
    proof {
        lemma_pow2_64();
    }
    while p * 2 <= n as u128
        invariant
            p == pow2(b as nat),
            p <= n,
            b <= 64,
            pow2(64) == 0x1_0000_0000_0000_0000,
        decreases 64 - b,
    {
        if b >= 63 {
            assert(false);
        }
        p = p * 2;
        b = b + 1;
    }
    proof {
        lemma_floor_log2(n as nat, b as nat);
    }
    b
}

} // verus!
