//! Character-level text operations: the model of a string is the sequence of
//! its characters.
use vstd::prelude::*;

verus! {

// ---------------------------------------------------------------------------
// Specifications
// ---------------------------------------------------------------------------

/// `p` is a prefix of `s`.
pub open spec fn is_prefix(p: Seq<char>, s: Seq<char>) -> bool {
    p.len() <= s.len() && s.take(p.len() as int) == p
}

/// `p` is a suffix of `s`.
pub open spec fn is_suffix(p: Seq<char>, s: Seq<char>) -> bool {
    p.len() <= s.len() && s.skip(s.len() - p.len()) == p
}

/// `s` with `p` removed from its front, when `p` is a prefix of it.
pub open spec fn strip_prefix(s: Seq<char>, p: Seq<char>) -> Seq<char> {
    if is_prefix(p, s) {
        s.skip(p.len() as int)
    } else {
        s
    }
}

/// `s` with `p` removed from its end, when `p` is a suffix of it.
pub open spec fn strip_suffix(s: Seq<char>, p: Seq<char>) -> Seq<char> {
    if is_suffix(p, s) {
        s.take(s.len() - p.len())
    } else {
        s
    }
}

/// Every non-overlapping occurrence of `from` in `s`, scanning from the
/// left, replaced by `to` (`from` is not empty).
pub open spec fn replace_all(s: Seq<char>, from: Seq<char>, to: Seq<char>) -> Seq<char>
    decreases s.len(),
{
    if s.len() == 0 {
        s
    } else if from.len() > 0 && is_prefix(from, s) {
        to + replace_all(s.skip(from.len() as int), from, to)
    } else {
        seq![s[0]] + replace_all(s.drop_first(), from, to)
    }
}

/// The characters with the Unicode property White_Space.
pub open spec fn is_whitespace(c: char) -> bool {
    ||| '\u{9}' <= c <= '\u{d}'
    ||| c == ' '
    ||| c == '\u{85}'
    ||| c == '\u{a0}'
    ||| c == '\u{1680}'
    ||| '\u{2000}' <= c <= '\u{200a}'
    ||| c == '\u{2028}'
    ||| c == '\u{2029}'
    ||| c == '\u{202f}'
    ||| c == '\u{205f}'
    ||| c == '\u{3000}'
}

/// `s` without its leading white space.
pub open spec fn trim_start(s: Seq<char>) -> Seq<char>
    decreases s.len(),
{
    if s.len() > 0 && is_whitespace(s[0]) {
        trim_start(s.drop_first())
    } else {
        s
    }
}

/// `s` without its trailing white space.
pub open spec fn trim_end(s: Seq<char>) -> Seq<char>
    decreases s.len(),
{
    if s.len() > 0 && is_whitespace(s.last()) {
        trim_end(s.drop_last())
    } else {
        s
    }
}

/// `s` without its leading and trailing white space.
pub open spec fn trim(s: Seq<char>) -> Seq<char> {
    trim_end(trim_start(s))
}

/// The pieces of `s` between the occurrences of `sep`: `k` occurrences give
/// `k + 1` pieces, some of them possibly empty.
pub open spec fn split_on(s: Seq<char>, sep: char) -> Seq<Seq<char>>
    decreases s.len(),
{
    if s.len() == 0 {
        seq![Seq::<char>::empty()]
    } else {
        let init = split_on(s.drop_last(), sep);
        if s.last() == sep {
            init.push(Seq::<char>::empty())
        } else {
            init.update(init.len() - 1, init.last().push(s.last()))
        }
    }
}

/// The index of the first occurrence of `c` in `s`.
pub open spec fn first_index_of(s: Seq<char>, c: char) -> Option<int>
    decreases s.len(),
{
    if s.len() == 0 {
        None
    } else {
        match first_index_of(s.drop_last(), c) {
            Some(i) => Some(i),
            None => if s.last() == c {
                Some(s.len() - 1)
            } else {
                None
            },
        }
    }
}

/// `s` without any occurrence of `c`.
pub open spec fn remove_char(s: Seq<char>, c: char) -> Seq<char>
    decreases s.len(),
{
    if s.len() == 0 {
        s
    } else if s.last() == c {
        remove_char(s.drop_last(), c)
    } else {
        remove_char(s.drop_last(), c).push(s.last())
    }
}

/// The character sequences held by a vector of character vectors.
pub open spec fn chars_view(v: Seq<Vec<char>>) -> Seq<Seq<char>> {
    Seq::new(v.len(), |i: int| v[i]@)
}

// ---------------------------------------------------------------------------
// Lemmas
// ---------------------------------------------------------------------------

/// Every piece of `split_on(s, sep)` is no longer than `s`, and the pieces
/// are never fewer than one.
pub proof fn lemma_split_on_len(s: Seq<char>, sep: char)
    ensures
        split_on(s, sep).len() >= 1,
        split_on(s, sep).len() <= s.len() + 1,
        forall|i: int|
            0 <= i < split_on(s, sep).len() ==> #[trigger] split_on(s, sep)[i].len() <= s.len(),
    decreases s.len(),
{
    if s.len() > 0 {
        lemma_split_on_len(s.drop_last(), sep);
    }
}

/// `first_index_of` finds an occurrence, and none before it.
pub proof fn lemma_first_index_of(s: Seq<char>, c: char)
    ensures
        match first_index_of(s, c) {
            Some(i) => 0 <= i < s.len() && s[i] == c && forall|j: int| 0 <= j < i ==> s[j] != c,
            None => forall|j: int| 0 <= j < s.len() ==> s[j] != c,
        },
    decreases s.len(),
{
    if s.len() > 0 {
        let init = s.drop_last();
        lemma_first_index_of(init, c);
        match first_index_of(init, c) {
            Some(i) => {
                assert(s[i] == init[i]);
                assert forall|j: int| 0 <= j < i implies s[j] != c by {
                    assert(s[j] == init[j]);
                }
            },
            None => {
                assert forall|j: int| 0 <= j < s.len() - 1 implies s[j] != c by {
                    assert(s[j] == init[j]);
                }
            },
        }
    }
}

/// `trim` yields a contiguous piece of its argument.
pub proof fn lemma_trim_len(s: Seq<char>)
    ensures
        trim(s).len() <= s.len(),
{
    lemma_trim_start_len(s);
    lemma_trim_end_len(trim_start(s));
}

proof fn lemma_trim_start_len(s: Seq<char>)
    ensures
        trim_start(s).len() <= s.len(),
    decreases s.len(),
{
    if s.len() > 0 && is_whitespace(s[0]) {
        lemma_trim_start_len(s.drop_first());
    }
}

proof fn lemma_trim_end_len(s: Seq<char>)
    ensures
        trim_end(s).len() <= s.len(),
    decreases s.len(),
{
    if s.len() > 0 && is_whitespace(s.last()) {
        lemma_trim_end_len(s.drop_last());
    }
}

/// Trimming the end keeps a beginning of the text.
pub proof fn lemma_trim_end_prefix(s: Seq<char>)
    ensures
        trim_end(s).len() <= s.len(),
        trim_end(s) == s.take(trim_end(s).len() as int),
    decreases s.len(),
{
    if s.len() > 0 && is_whitespace(s.last()) {
        lemma_trim_end_prefix(s.drop_last());
        assert(s.drop_last().take(trim_end(s).len() as int) =~= s.take(trim_end(s).len() as int));
    } else {
        assert(s.take(s.len() as int) =~= s);
    }
}

/// `p` occurs in `s` at `i`.
pub open spec fn occurs_at(s: Seq<char>, p: Seq<char>, i: int) -> bool {
    0 <= i && i + p.len() <= s.len() && s.subrange(i, i + p.len()) == p
}

/// `p` occurs somewhere in `s`.
pub open spec fn occurs(s: Seq<char>, p: Seq<char>) -> bool {
    exists|i: int| #[trigger] occurs_at(s, p, i)
}

/// No character of `p` is in `q`.
pub open spec fn shares_no_char(p: Seq<char>, q: Seq<char>) -> bool {
    forall|i: int| 0 <= i < p.len() ==> !q.contains(#[trigger] p[i])
}

/// A beginning of a replaced text with no character of the replacement is
/// the same beginning of the text.
proof fn lemma_replace_prefix(t: Seq<char>, from: Seq<char>, to: Seq<char>, k: int)
    requires
        from.len() > 0,
        to.len() > 0,
        0 <= k <= replace_all(t, from, to).len(),
        shares_no_char(replace_all(t, from, to).take(k), to),
    ensures
        k <= t.len(),
        t.take(k) == replace_all(t, from, to).take(k),
    decreases t.len(),
{
    let r = replace_all(t, from, to);
    if k == 0 {
        assert(t.take(0) =~= r.take(0));
    } else if is_prefix(from, t) {
        assert(r.take(k)[0] == to[0]);
        assert(to.contains(to[0]));
    } else {
        let r2 = replace_all(t.drop_first(), from, to);
        assert(r =~= seq![t[0]] + r2);
        assert forall|i: int| 0 <= i < r2.take(k - 1).len() implies !to.contains(
            #[trigger] r2.take(k - 1)[i],
        ) by {
            assert(r2.take(k - 1)[i] == r.take(k)[i + 1]);
        }
        lemma_replace_prefix(t.drop_first(), from, to, k - 1);
        assert(t.take(k) =~= seq![t[0]] + t.drop_first().take(k - 1));
        assert(r.take(k) =~= seq![t[0]] + r2.take(k - 1));
    }
}

/// A text with no character of the replacement that occurs after every
/// replacement of `from` occurred before it, and is not `from` itself.
pub proof fn lemma_replace_occurs(s: Seq<char>, from: Seq<char>, to: Seq<char>, p: Seq<char>, i: int)
    requires
        from.len() > 0,
        to.len() > 0,
        p.len() > 0,
        shares_no_char(p, to),
        occurs_at(replace_all(s, from, to), p, i),
    ensures
        occurs(s, p),
        p != from,
    decreases s.len(),
{
    let r = replace_all(s, from, to);
    if s.len() == 0 {
        assert(r.len() == 0);
    } else if is_prefix(from, s) {
        let r2 = replace_all(s.skip(from.len() as int), from, to);
        assert(r =~= to + r2);
        if i < to.len() {
            assert(p[0] == r[i]);
            assert(r[i] == to[i]);
            assert(to.contains(to[i]));
        } else {
            assert(r2.subrange(i - to.len(), i - to.len() + p.len()) =~= r.subrange(
                i,
                i + p.len(),
            ));
            lemma_replace_occurs(s.skip(from.len() as int), from, to, p, i - to.len());
            let j = choose|j: int| #[trigger] occurs_at(s.skip(from.len() as int), p, j);
            assert(s.subrange(j + from.len(), j + from.len() + p.len()) =~= s.skip(
                from.len() as int,
            ).subrange(j, j + p.len()));
            assert(occurs_at(s, p, j + from.len()));
        }
    } else {
        let r2 = replace_all(s.drop_first(), from, to);
        assert(r =~= seq![s[0]] + r2);
        if i == 0 {
            let w = r2.take(p.len() - 1);
            assert forall|k: int| 0 <= k < w.len() implies !to.contains(#[trigger] w[k]) by {
                assert(w[k] == p[k + 1]);
            }
            lemma_replace_prefix(s.drop_first(), from, to, p.len() - 1);
            assert(s.take(p.len() as int) =~= seq![s[0]] + s.drop_first().take(p.len() - 1));
            assert(r.subrange(0, p.len() as int) =~= seq![s[0]] + w);
            assert(s.subrange(0, p.len() as int) =~= s.take(p.len() as int));
            assert(occurs_at(s, p, 0));
            if p == from {
                assert(s.take(from.len() as int) == from);
            }
        } else {
            assert(r2.subrange(i - 1, i - 1 + p.len()) =~= r.subrange(i, i + p.len()));
            lemma_replace_occurs(s.drop_first(), from, to, p, i - 1);
            let j = choose|j: int| #[trigger] occurs_at(s.drop_first(), p, j);
            assert(s.subrange(j + 1, j + 1 + p.len()) =~= s.drop_first().subrange(j, j + p.len()));
            assert(occurs_at(s, p, j + 1));
        }
    }
}

/// Each piece of `split_on(s, sep)` occurs in `s`, and the last is an end
/// of `s`.
pub proof fn lemma_split_on_occurs(s: Seq<char>, sep: char)
    ensures
        forall|k: int|
            0 <= k < split_on(s, sep).len() ==> occurs(s, #[trigger] split_on(s, sep)[k]),
        is_suffix(split_on(s, sep).last(), s),
    decreases s.len(),
{
    let r = split_on(s, sep);
    if s.len() == 0 {
        assert(r == seq![Seq::<char>::empty()]);
        assert(s.subrange(0, 0) =~= r[0]);
        assert(occurs_at(s, r[0], 0));
        assert(s.skip(0) =~= r.last());
    } else {
        let init = split_on(s.drop_last(), sep);
        lemma_split_on_occurs(s.drop_last(), sep);
        lemma_split_on_len(s.drop_last(), sep);
        let d = s.drop_last();
        assert forall|k: int| 0 <= k < init.len() && occurs(d, init[k]) implies occurs(
            s,
            #[trigger] init[k],
        ) by {
            let j = choose|j: int| #[trigger] occurs_at(d, init[k], j);
            assert(s.subrange(j, j + init[k].len()) =~= d.subrange(j, j + init[k].len()));
            assert(occurs_at(s, init[k], j));
        }
        if s.last() == sep {
            assert(r == init.push(Seq::<char>::empty()));
            assert(s.subrange(0, 0) =~= Seq::<char>::empty());
            assert(occurs_at(s, Seq::<char>::empty(), 0));
            assert(s.skip(s.len() as int) =~= Seq::<char>::empty());
            assert forall|k: int| 0 <= k < r.len() implies occurs(s, #[trigger] r[k]) by {
                if k < init.len() {
                    assert(r[k] == init[k]);
                }
            }
        } else {
            let last = init.last().push(s.last());
            assert(r == init.update(init.len() - 1, last));
            let n = last.len();
            assert(d.skip(d.len() - init.last().len()) == init.last());
            assert(s.skip(s.len() - n) =~= last);
            assert(s.subrange(s.len() - n, s.len() as int) =~= last);
            assert(occurs_at(s, last, s.len() - n));
            assert forall|k: int| 0 <= k < r.len() implies occurs(s, #[trigger] r[k]) by {
                if k < init.len() - 1 {
                    assert(r[k] == init[k]);
                }
            }
        }
    }
}

// ---------------------------------------------------------------------------
// Executable functions
// ---------------------------------------------------------------------------

/// `String::push`: appends the character `c`. Claimed: the string
/// afterwards is the one before with `c` at its end.
#[verifier::external_body]
fn push_char(s: &mut String, c: char)
    ensures
        final(s)@ == old(s)@.push(c),
{
    s.push(c);
}

/// The characters of `s`, in order.
pub fn chars_of(s: &str) -> (v: Vec<char>)
    ensures
        v@ == s@,
{
    let mut v: Vec<char> = Vec::new();
    for c in it: s.chars()
        invariant
            v@ == it.seq().take(it.index() as int),
    {
        v.push(c);
    }
    v
}

/// The string made of the characters of `v`.
pub fn string_of(v: &Vec<char>) -> (s: String)
    ensures
        s@ == v@,
{
    let mut s = String::new();
    let mut i: usize = 0;
    while i < v.len()
        invariant
            i <= v.len(),
            s@ == v@.take(i as int),
        decreases v.len() - i,
    {
        push_char(&mut s, v[i]);
        i = i + 1;
        assert(v@.take(i as int) == v@.take(i - 1).push(v@[i - 1]));
    }
    assert(v@.take(v.len() as int) == v@);
    s
}

/// The characters of each string of `v`.
pub fn chars_of_all(v: &Vec<String>) -> (r: Vec<Vec<char>>)
    ensures
        chars_view(r@) == v.deep_view(),
{
    let mut r: Vec<Vec<char>> = Vec::new();
    let mut i: usize = 0;
    while i < v.len()
        invariant
            i <= v.len(),
            chars_view(r@) == v.deep_view().take(i as int),
        decreases v.len() - i,
    {
        let c = chars_of(v[i].as_str());
        let ghost old_r = r@;
        r.push(c);
        assert(chars_view(r@) =~= chars_view(old_r).push(v@[i as int]@));
        assert(v.deep_view().take(i + 1) =~= v.deep_view().take(i as int).push(v@[i as int]@));
        i = i + 1;
    }
    assert(v.deep_view().take(v.len() as int) == v.deep_view());
    r
}

/// The strings made of the characters of each element of `v`.
pub fn strings_of(v: &Vec<Vec<char>>) -> (r: Vec<String>)
    ensures
        r.deep_view() == chars_view(v@),
{
    let mut r: Vec<String> = Vec::new();
    let mut i: usize = 0;
    while i < v.len()
        invariant
            i <= v.len(),
            r.deep_view() == chars_view(v@).take(i as int),
        decreases v.len() - i,
    {
        let s = string_of(&v[i]);
        let ghost old_r = r@;
        r.push(s);
        assert(r.deep_view() =~= old_r.map_values(|x: String| x@).push(v@[i as int]@));
        assert(chars_view(v@).take(i + 1) =~= chars_view(v@).take(i as int).push(v@[i as int]@));
        i = i + 1;
    }
    assert(chars_view(v@).take(v.len() as int) == chars_view(v@));
    r
}

/// `a` and `b` hold the same characters.
pub fn chars_eq(a: &Vec<char>, b: &Vec<char>) -> (r: bool)
    ensures
        r == (a@ == b@),
{
    if a.len() != b.len() {
        return false;
    }
    let mut i: usize = 0;
    while i < a.len()
        invariant
            a.len() == b.len(),
            i <= a.len(),
            forall|j: int| 0 <= j < i ==> a@[j] == b@[j],
        decreases a.len() - i,
    {
        if a[i] != b[i] {
            return false;
        }
        i = i + 1;
    }
    assert(a@ =~= b@);
    true
}

/// `p` is a prefix of `s`.
pub fn starts_with(s: &Vec<char>, p: &Vec<char>) -> (r: bool)
    ensures
        r == is_prefix(p@, s@),
{
    if p.len() > s.len() {
        return false;
    }
    let mut i: usize = 0;
    while i < p.len()
        invariant
            p.len() <= s.len(),
            i <= p.len(),
            forall|j: int| 0 <= j < i ==> s@[j] == p@[j],
        decreases p.len() - i,
    {
        if s[i] != p[i] {
            assert(s@.take(p.len() as int)[i as int] != p@[i as int]);
            return false;
        }
        i = i + 1;
    }
    assert(s@.take(p.len() as int) =~= p@);
    true
}

/// `p` is a suffix of `s`.
pub fn ends_with(s: &Vec<char>, p: &Vec<char>) -> (r: bool)
    ensures
        r == is_suffix(p@, s@),
{
    if p.len() > s.len() {
        return false;
    }
    let off = s.len() - p.len();
    let mut i: usize = 0;
    while i < p.len()
        invariant
            p.len() <= s.len(),
            off == s.len() - p.len(),
            i <= p.len(),
            forall|j: int| 0 <= j < i ==> s@[off + j] == p@[j],
        decreases p.len() - i,
    {
        if s[off + i] != p[i] {
            assert(s@.skip(off as int)[i as int] != p@[i as int]);
            return false;
        }
        i = i + 1;
    }
    assert(s@.skip(off as int) =~= p@);
    true
}

/// The characters of `s` from index `start` (inclusive) to `end` (exclusive).
pub fn sub_chars(s: &Vec<char>, start: usize, end: usize) -> (r: Vec<char>)
    requires
        start <= end <= s.len(),
    ensures
        r@ == s@.subrange(start as int, end as int),
{
    let mut r: Vec<char> = Vec::new();
    let mut i: usize = start;
    while i < end
        invariant
            start <= i <= end <= s.len(),
            r@ == s@.subrange(start as int, i as int),
        decreases end - i,
    {
        r.push(s[i]);
        i = i + 1;
        assert(r@ =~= s@.subrange(start as int, i as int));
    }
    r
}

/// `a` followed by `b`.
pub fn concat_chars(a: &Vec<char>, b: &Vec<char>) -> (r: Vec<char>)
    ensures
        r@ == a@ + b@,
{
    let mut r = a.clone();
    let mut i: usize = 0;
    while i < b.len()
        invariant
            i <= b.len(),
            r@ == a@ + b@.take(i as int),
        decreases b.len() - i,
    {
        r.push(b[i]);
        i = i + 1;
        assert(r@ =~= a@ + b@.take(i as int));
    }
    assert(b@.take(b.len() as int) == b@);
    r
}

/// `s` with `p` removed from its front, when `p` is a prefix of it.
pub fn strip_prefix_chars(s: &Vec<char>, p: &Vec<char>) -> (r: Vec<char>)
    ensures
        r@ == strip_prefix(s@, p@),
{
    if starts_with(s, p) {
        sub_chars(s, p.len(), s.len())
    } else {
        s.clone()
    }
}

/// `s` with `p` removed from its end, when `p` is a suffix of it.
pub fn strip_suffix_chars(s: &Vec<char>, p: &Vec<char>) -> (r: Vec<char>)
    ensures
        r@ == strip_suffix(s@, p@),
{
    if ends_with(s, p) {
        sub_chars(s, 0, s.len() - p.len())
    } else {
        s.clone()
    }
}

/// Every non-overlapping occurrence of `from` in `s`, scanning from the
/// left, replaced by `to`.
pub fn replace_all_chars(s: &Vec<char>, from: &Vec<char>, to: &Vec<char>) -> (r: Vec<char>)
    requires
        from.len() > 0,
    ensures
        r@ == replace_all(s@, from@, to@),
{
    let mut r: Vec<char> = Vec::new();
    let mut i: usize = 0;
    assert(s@.skip(0) =~= s@);
    while i < s.len()
        invariant
            from.len() > 0,
            i <= s.len(),
            r@ + replace_all(s@.skip(i as int), from@, to@) == replace_all(s@, from@, to@),
        decreases s.len() - i,
    {
        let ghost rest = s@.skip(i as int);
        let mut matched = from.len() <= s.len() - i;
        let mut j: usize = 0;
        while matched && j < from.len()
            invariant
                i <= s.len(),
                j <= from.len(),
                matched ==> from.len() <= s.len() - i,
                matched ==> forall|k: int| 0 <= k < j ==> s@[i + k] == from@[k],
                !matched ==> !is_prefix(from@, rest),
                rest == s@.skip(i as int),
            ensures
                matched ==> j == from.len(),
            decreases from.len() - j,
        {
            if s[i + j] != from[j] {
                matched = false;
                assert(rest.take(from.len() as int)[j as int] != from@[j as int]);
                break;
            } else {
                j = j + 1;
            }
        }
        if matched {
            assert(rest.take(from.len() as int) =~= from@);
            let mut k: usize = 0;
            let ghost r0 = r@;
            while k < to.len()
                invariant
                    k <= to.len(),
                    r@ == r0 + to@.take(k as int),
                decreases to.len() - k,
            {
                r.push(to[k]);
                k = k + 1;
                assert(r@ =~= r0 + to@.take(k as int));
            }
            assert(to@.take(to.len() as int) == to@);
            assert(rest.skip(from.len() as int) =~= s@.skip(i + from.len()));
            assert(r0 + replace_all(rest, from@, to@) == r0 + (to@ + replace_all(
                rest.skip(from.len() as int),
                from@,
                to@,
            )));
            assert(r@ + replace_all(s@.skip(i + from.len()), from@, to@) =~= r0 + (to@
                + replace_all(rest.skip(from.len() as int), from@, to@)));
            i = i + from.len();
        } else {
            let ghost r0 = r@;
            r.push(s[i]);
            assert(rest.drop_first() =~= s@.skip(i + 1));
            assert(r@ + replace_all(s@.skip(i + 1), from@, to@) =~= r0 + (seq![rest[0]]
                + replace_all(rest.drop_first(), from@, to@)));
            i = i + 1;
        }
    }
    assert(s@.skip(s.len() as int) =~= Seq::<char>::empty());
    assert(r@ + Seq::<char>::empty() =~= r@);
    r
}

/// The characters with the Unicode property White_Space.
pub fn is_whitespace_char(c: char) -> (r: bool)
    ensures
        r == is_whitespace(c),
{
    ('\u{9}' <= c && c <= '\u{d}') || c == ' ' || c == '\u{85}' || c == '\u{a0}' || c
        == '\u{1680}' || ('\u{2000}' <= c && c <= '\u{200a}') || c == '\u{2028}' || c
        == '\u{2029}' || c == '\u{202f}' || c == '\u{205f}' || c == '\u{3000}'
}

/// `s` without its leading and trailing white space.
pub fn trim_chars(s: &Vec<char>) -> (r: Vec<char>)
    ensures
        r@ == trim(s@),
{
    let mut i: usize = 0;
    assert(s@.skip(0) =~= s@);
    while i < s.len() && is_whitespace_char(s[i])
        invariant
            i <= s.len(),
            trim_start(s@) == trim_start(s@.skip(i as int)),
        decreases s.len() - i,
    {
        assert(s@.skip(i as int).drop_first() =~= s@.skip(i + 1));
        i = i + 1;
    }
    let ghost t = s@.skip(i as int);
    assert(trim_start(s@) == t);
    let mut j: usize = s.len();
    while j > i && is_whitespace_char(s[j - 1])
        invariant
            i <= j <= s.len(),
            t == s@.skip(i as int),
            trim_end(t) == trim_end(s@.subrange(i as int, j as int)),
        decreases j,
    {
        assert(s@.subrange(i as int, j as int).drop_last() =~= s@.subrange(i as int, j - 1));
        j = j - 1;
    }
    assert(s@.skip(i as int) =~= s@.subrange(i as int, s.len() as int));
    sub_chars(s, i, j)
}

/// The pieces of `s` between the occurrences of `sep`.
pub fn split_chars(s: &Vec<char>, sep: char) -> (r: Vec<Vec<char>>)
    ensures
        chars_view(r@) == split_on(s@, sep),
{
    let mut pieces: Vec<Vec<char>> = Vec::new();
    let mut cur: Vec<char> = Vec::new();
    let mut i: usize = 0;
    while i < s.len()
        invariant
            i <= s.len(),
            chars_view(pieces@).push(cur@) == split_on(s@.take(i as int), sep),
        decreases s.len() - i,
    {
        let ghost before = s@.take(i as int);
        assert(s@.take(i + 1).drop_last() =~= before);
        if s[i] == sep {
            let done = cur;
            pieces.push(done);
            cur = Vec::new();
            assert(chars_view(pieces@).push(cur@) =~= split_on(before, sep).push(Seq::empty()));
        } else {
            let ghost old_pieces = chars_view(pieces@);
            let ghost old_cur = cur@;
            cur.push(s[i]);
            assert(chars_view(pieces@).push(cur@) =~= old_pieces.push(old_cur).update(
                old_pieces.len() as int,
                old_cur.push(s@[i as int]),
            ));
        }
        i = i + 1;
    }
    assert(s@.take(s.len() as int) == s@);
    pieces.push(cur);
    assert(chars_view(pieces@) =~= split_on(s@, sep));
    pieces
}

/// The index of the first occurrence of `c` in `s`.
pub fn find_char(s: &Vec<char>, c: char) -> (r: Option<usize>)
    ensures
        match r {
            Some(i) => first_index_of(s@, c) == Some(i as int),
            None => first_index_of(s@, c) is None,
        },
{
    let mut i: usize = 0;
    while i < s.len()
        invariant
            i <= s.len(),
            first_index_of(s@.take(i as int), c) is None,
        decreases s.len() - i,
    {
        assert(s@.take(i + 1).drop_last() =~= s@.take(i as int));
        if s[i] == c {
            proof {
                assert(first_index_of(s@.take(i + 1), c) == Some(i as int));
                lemma_first_index_of_extend(s@, c, i as int + 1);
            }
            return Some(i);
        }
        i = i + 1;
    }
    assert(s@.take(s.len() as int) == s@);
    None
}

/// Once a prefix of `s` holds the first occurrence, `s` holds it there too.
proof fn lemma_first_index_of_extend(s: Seq<char>, c: char, n: int)
    requires
        0 <= n <= s.len(),
        first_index_of(s.take(n), c) is Some,
    ensures
        first_index_of(s, c) == first_index_of(s.take(n), c),
    decreases s.len() - n,
{
    if n < s.len() {
        assert(s.take(n + 1).drop_last() =~= s.take(n));
        lemma_first_index_of_extend(s, c, n + 1);
    } else {
        assert(s.take(n) =~= s);
    }
}

/// `s` without any occurrence of `c`.
pub fn remove_char_chars(s: &Vec<char>, c: char) -> (r: Vec<char>)
    ensures
        r@ == remove_char(s@, c),
{
    let mut r: Vec<char> = Vec::new();
    let mut i: usize = 0;
    while i < s.len()
        invariant
            i <= s.len(),
            r@ == remove_char(s@.take(i as int), c),
        decreases s.len() - i,
    {
        assert(s@.take(i + 1).drop_last() =~= s@.take(i as int));
        if s[i] != c {
            r.push(s[i]);
        }
        i = i + 1;
    }
    assert(s@.take(s.len() as int) == s@);
    r
}

/// `a` followed by `b`.
pub fn append_all(a: &mut Vec<Vec<char>>, b: &Vec<Vec<char>>)
    ensures
        chars_view(final(a)@) == chars_view(old(a)@) + chars_view(b@),
{
    let ghost a0 = chars_view(a@);
    let mut i: usize = 0;
    while i < b.len()
        invariant
            i <= b.len(),
            chars_view(a@) == a0 + chars_view(b@).take(i as int),
        decreases b.len() - i,
    {
        let x = b[i].clone();
        let ghost av = chars_view(a@);
        a.push(x);
        assert(chars_view(a@) =~= av.push(b@[i as int]@));
        assert(chars_view(b@).take(i + 1) =~= chars_view(b@).take(i as int).push(b@[i as int]@));
        i = i + 1;
    }
    assert(chars_view(b@).take(b.len() as int) =~= chars_view(b@));
}

} // verus!
