//! Byte-level helpers shared by the scanners, the parser and the rewriting
//! phases: character classes, trimming, subrange copies, keyword comparison
//! and decimal digit strings.

use vstd::prelude::*;

verus! {

/// ASCII decimal digit `0`..=`9`.
pub open spec fn is_digit(b: u8) -> bool {
    48 <= b && b <= 57
}

/// ASCII letter `A`..=`Z` or `a`..=`z`.
pub open spec fn is_alpha(b: u8) -> bool {
    (65 <= b && b <= 90) || (97 <= b && b <= 122)
}

/// ASCII upper-case letter `A`..=`Z`.
pub open spec fn is_upper(b: u8) -> bool {
    65 <= b && b <= 90
}

/// Whitespace as trimmed from line ends: HT, LF, VT, FF, CR and space.
pub open spec fn is_trim_space(b: u8) -> bool {
    b == 9 || b == 10 || b == 11 || b == 12 || b == 13 || b == 32
}

/// ASCII whitespace as skipped inside a line: HT, LF, FF, CR and space.
pub open spec fn is_ascii_space(b: u8) -> bool {
    b == 9 || b == 10 || b == 12 || b == 13 || b == 32
}

/// First index at or after `i` whose byte is not trimmable whitespace.
pub open spec fn trim_start_idx(s: Seq<u8>, i: int) -> int
    decreases s.len() - i,
{
    if i < 0 || i >= s.len() {
        i
    } else if is_trim_space(s[i]) {
        trim_start_idx(s, i + 1)
    } else {
        i
    }
}

/// First index at or before `j` such that the byte just before it is not
/// trimmable whitespace.
pub open spec fn trim_end_idx(s: Seq<u8>, j: int) -> int
    decreases j,
{
    if j <= 0 || j > s.len() {
        j
    } else if is_trim_space(s[j - 1]) {
        trim_end_idx(s, j - 1)
    } else {
        j
    }
}

/// `s` with trimmable whitespace removed from both ends.
pub open spec fn spec_trim(s: Seq<u8>) -> Seq<u8> {
    let a = trim_start_idx(s, 0);
    let b = trim_end_idx(s, s.len() as int);
    if a >= b {
        Seq::empty()
    } else {
        s.subrange(a, b)
    }
}

/// `s` with trimmable whitespace removed from its end only.
pub open spec fn spec_trim_end(s: Seq<u8>) -> Seq<u8> {
    s.subrange(0, trim_end_idx(s, s.len() as int))
}

pub proof fn lemma_trim_start_idx_bounds(s: Seq<u8>, i: int)
    requires
        0 <= i <= s.len(),
    ensures
        i <= trim_start_idx(s, i) <= s.len(),
        forall|k: int| i <= k < trim_start_idx(s, i) ==> is_trim_space(s[k]),
        trim_start_idx(s, i) < s.len() ==> !is_trim_space(s[trim_start_idx(s, i)]),
    decreases s.len() - i,
{
    if i < s.len() && is_trim_space(s[i]) {
        lemma_trim_start_idx_bounds(s, i + 1);
    }
}

pub proof fn lemma_trim_end_idx_bounds(s: Seq<u8>, j: int)
    requires
        0 <= j <= s.len(),
    ensures
        0 <= trim_end_idx(s, j) <= j,
        forall|k: int| trim_end_idx(s, j) <= k < j ==> is_trim_space(s[k]),
        trim_end_idx(s, j) > 0 ==> !is_trim_space(s[trim_end_idx(s, j) - 1]),
    decreases j,
{
    if j > 0 && is_trim_space(s[j - 1]) {
        lemma_trim_end_idx_bounds(s, j - 1);
    }
}

/// Exact characterisation of end trimming.
pub proof fn lemma_trim_end_idx_exact(s: Seq<u8>, q: int, j: int)
    requires
        0 <= q <= j <= s.len(),
        forall|k: int| q <= k < s.len() ==> is_trim_space(s[k]),
        q > 0 ==> !is_trim_space(s[q - 1]),
    ensures
        trim_end_idx(s, j) == q,
    decreases j - q,
{
    if j > q {
        lemma_trim_end_idx_exact(s, q, j - 1);
    }
}

/// Copy `v[from..to]` into a fresh vector.
pub fn copy_range(v: &Vec<u8>, from: usize, to: usize) -> (r: Vec<u8>)
    requires
        from <= to <= v@.len(),
    ensures
        r@ == v@.subrange(from as int, to as int),
{
    let mut r: Vec<u8> = Vec::new();
    let mut i: usize = from;
    #[verifier::loop_isolation(false)]
    while i < to
        invariant
            from <= i <= to,
            r@ == v@.subrange(from as int, i as int),
        decreases to - i,
    {
        r.push(v[i]);
        proof {
            assert(r@ =~= v@.subrange(from as int, i + 1 as int));
        }
        i = i + 1;
    }
    r
}

/// Append `src[from..to]` to `dst`.
pub fn push_range(dst: &mut Vec<u8>, src: &Vec<u8>, from: usize, to: usize)
    requires
        from <= to <= src@.len(),
    ensures
        final(dst)@ == old(dst)@ + src@.subrange(from as int, to as int),
{
    let mut i: usize = from;
    #[verifier::loop_isolation(false)]
    while i < to
        invariant
            from <= i <= to,
            dst@ == old(dst)@ + src@.subrange(from as int, i as int),
        decreases to - i,
    {
        dst.push(src[i]);
        proof {
            assert(dst@ =~= old(dst)@ + src@.subrange(from as int, i + 1 as int));
        }
        i = i + 1;
    }
}

/// Runtime test for [`is_trim_space`].
pub fn is_trim_byte(b: u8) -> (r: bool)
    ensures
        r == is_trim_space(b),
{
    b == 9 || b == 10 || b == 11 || b == 12 || b == 13 || b == 32
}

/// Copy `v[from..to]` with trimmable whitespace removed from both ends.
pub fn trim_range(v: &Vec<u8>, from: usize, to: usize) -> (r: Vec<u8>)
    requires
        from <= to <= v@.len(),
    ensures
        r@ == spec_trim(v@.subrange(from as int, to as int)),
{
    let ghost s = v@.subrange(from as int, to as int);
    let mut a: usize = from;
    #[verifier::loop_isolation(false)]
    while a < to && is_trim_byte(v[a])
        invariant
            from <= a <= to,
            trim_start_idx(s, 0) == trim_start_idx(s, a - from),
            a - from <= s.len(),
        decreases to - a,
    {
        proof {
            assert(s[a - from] == v@[a as int]);
        }
        a = a + 1;
    }
    let mut b: usize = to;
    #[verifier::loop_isolation(false)]
    while b > a && is_trim_byte(v[b - 1])
        invariant
            a <= b <= to,
            a < b || a == to,
            trim_end_idx(s, s.len() as int) == trim_end_idx(s, b - from),
        decreases b,
    {
        proof {
            assert(s[b - from - 1] == v@[b - 1]);
        }
        b = b - 1;
    }
    proof {
        lemma_trim_end_idx_bounds(s, s.len() as int);
        if a == to {
            assert(trim_start_idx(s, 0) == s.len());
        } else {
            assert(s[a - from] == v@[a as int]);
            assert(trim_start_idx(s, a - from) == a - from);
            assert(b > a);
            assert(s[b - from - 1] == v@[b - 1]);
            assert(trim_end_idx(s, b - from) == b - from);
            assert(v@.subrange(a as int, b as int) =~= s.subrange(a - from, b - from));
        }
    }
    copy_range(v, a, b)
}

/// Whole-vector equality of byte strings.
pub fn vec_eq(a: &Vec<u8>, b: &Vec<u8>) -> (r: bool)
    ensures
        r == (a@ == b@),
{
    if a.len() != b.len() {
        return false;
    }
    let mut i: usize = 0;
    #[verifier::loop_isolation(false)]
    while i < a.len()
        invariant
            i <= a@.len(),
            a@.len() == b@.len(),
            forall|j: int| 0 <= j < i ==> a@[j] == b@[j],
        decreases a@.len() - i,
    {
        if a[i] != b[i] {
            return false;
        }
        i = i + 1;
    }
    proof {
        assert(a@ =~= b@);
    }
    true
}

/// Does `v[pos..]` start with the keyword `a`?
pub fn starts_with_at<const N: usize>(v: &Vec<u8>, pos: usize, a: &[u8; N]) -> (r: bool)
    requires
        pos <= v@.len(),
    ensures
        r == (pos + N <= v@.len() && v@.subrange(pos as int, pos + N) == a@),
{
    if v.len() - pos < N {
        return false;
    }
    let mut i: usize = 0;
    #[verifier::loop_isolation(false)]
    while i < N
        invariant
            i <= N,
            pos + N <= v@.len(),
            forall|j: int| 0 <= j < i ==> v@[pos + j] == a@[j],
        decreases N - i,
    {
        if v[pos + i] != a[i] {
            assert(v@.subrange(pos as int, pos + N)[i as int] != a@[i as int]);
            return false;
        }
        i = i + 1;
    }
    proof {
        assert(v@.subrange(pos as int, pos + N) =~= a@);
    }
    true
}

/// Is the full content of `t` exactly the keyword `a`?
pub fn eq_keyword<const N: usize>(t: &Vec<u8>, a: &[u8; N]) -> (r: bool)
    ensures
        r == (t@ == a@),
{
    if t.len() != N {
        return false;
    }
    let r = starts_with_at(t, 0, a);
    proof {
        assert(t@.subrange(0, N as int) =~= t@);
    }
    r
}

/// `kw` occurs as a contiguous run somewhere inside `s`.
pub open spec fn contains_seq(s: Seq<u8>, kw: Seq<u8>) -> bool {
    exists|i: int| 0 <= i && i + kw.len() <= s.len() && #[trigger] s.subrange(i, i + kw.len()) == kw
}

/// Substring search for a keyword.
pub fn contains_keyword<const N: usize>(v: &Vec<u8>, a: &[u8; N]) -> (r: bool)
    requires
        N >= 1,
    ensures
        r == contains_seq(v@, a@),
{
    if v.len() < N {
        return false;
    }
    let mut i: usize = 0;
    #[verifier::loop_isolation(false)]
    while i <= v.len() - N
        invariant
            i <= v@.len(),
            forall|j: int| 0 <= j < i ==> #[trigger] v@.subrange(j, j + N) != a@,
        decreases v@.len() - i,
    {
        if starts_with_at(v, i, a) {
            proof {
                assert(v@.subrange(i as int, i + a@.len()) == a@);
            }
            return true;
        }
        i = i + 1;
    }
    proof {
        assert(!contains_seq(v@, a@)) by {
            assert forall|j: int| 0 <= j && j + a@.len() <= v@.len() implies #[trigger] v@.subrange(
                j,
                j + a@.len(),
            ) != a@ by {
                assert(j < i);
            }
        }
    }
    false
}

/// Numeric value of a digit string (most significant digit first).
pub open spec fn digits_val(s: Seq<u8>) -> nat
    decreases s.len(),
{
    if s.len() == 0 {
        0
    } else {
        digits_val(s.drop_last()) * 10 + (if is_digit(s.last()) {
            (s.last() - 48) as nat
        } else {
            0
        })
    }
}

/// Length of the run of decimal digits starting at `pos`.
pub open spec fn digits_len(s: Seq<u8>, pos: int) -> nat
    decreases s.len() - pos,
{
    if pos < 0 || pos >= s.len() {
        0
    } else if is_digit(s[pos]) {
        1 + digits_len(s, pos + 1)
    } else {
        0
    }
}

pub proof fn lemma_digits_len(s: Seq<u8>, pos: int)
    requires
        0 <= pos <= s.len(),
    ensures
        pos + digits_len(s, pos) <= s.len(),
        forall|k: int| pos <= k < pos + digits_len(s, pos) ==> is_digit(s[k]),
        pos + digits_len(s, pos) < s.len() ==> !is_digit(s[pos + digits_len(s, pos)]),
    decreases s.len() - pos,
{
    if pos < s.len() && is_digit(s[pos]) {
        lemma_digits_len(s, pos + 1);
    }
}

/// The digit run is exactly `[pos, e)` when everything in between is a digit
/// and `e` is the end of the text or a non-digit.
pub proof fn lemma_digits_len_exact(s: Seq<u8>, pos: int, e: int)
    requires
        0 <= pos <= e <= s.len(),
        forall|k: int| pos <= k < e ==> is_digit(s[k]),
        e < s.len() ==> !is_digit(s[e]),
    ensures
        digits_len(s, pos) == e - pos,
    decreases e - pos,
{
    if pos < e {
        lemma_digits_len_exact(s, pos + 1, e);
    }
}

/// Every byte of `s` is a decimal digit.
pub open spec fn all_digits(s: Seq<u8>) -> bool {
    forall|k: int| 0 <= k < s.len() ==> is_digit(#[trigger] s[k])
}

/// Canonical decimal digit string of `n`, with no leading zeros.
pub open spec fn dec_rep(n: nat) -> Seq<u8>
    decreases n,
{
    if n < 10 {
        seq![(48 + n) as u8]
    } else {
        dec_rep(n / 10).push((48 + n % 10) as u8)
    }
}

/// A decimal digit string is made of digits and never empty.
pub proof fn lemma_dec_rep_digits(n: nat)
    ensures
        dec_rep(n).len() >= 1,
        all_digits(dec_rep(n)),
    decreases n,
{
    if n >= 10 {
        lemma_dec_rep_digits(n / 10);
        let d = dec_rep(n / 10);
        assert forall|k: int| 0 <= k < dec_rep(n).len() implies is_digit(
            #[trigger] dec_rep(n)[k],
        ) by {
            if k < d.len() {
                assert(dec_rep(n)[k] == d[k]);
            }
        }
    }
}

/// Reading a rendered number back gives the number.
pub proof fn lemma_dec_rep_val(n: nat)
    ensures
        digits_val(dec_rep(n)) == n,
    decreases n,
{
    if n < 10 {
        assert((48 + n) as u8 == 48 + n);
        assert(dec_rep(n).drop_last() =~= Seq::<u8>::empty());
        assert(digits_val(dec_rep(n).drop_last()) == 0);
    } else {
        lemma_dec_rep_val(n / 10);
        assert((48 + n % 10) as u8 == 48 + n % 10);
        assert(dec_rep(n).drop_last() =~= dec_rep(n / 10));
    }
}

/// Render a number as decimal digits.
pub fn u32_to_dec(n: u32) -> (r: Vec<u8>)
    ensures
        r@ == dec_rep(n as nat),
    decreases n,
{
    if n < 10 {
        let mut r: Vec<u8> = Vec::new();
        r.push(48 + (n as u8));
        proof {
            assert(r@ =~= dec_rep(n as nat));
        }
        r
    } else {
        let mut r = u32_to_dec(n / 10);
        r.push(48 + ((n % 10) as u8));
        r
    }
}

/// Extending a digit string on the right never decreases its value.
pub proof fn lemma_digits_val_take_mono(s: Seq<u8>, i: int, j: int)
    requires
        0 <= i <= j <= s.len(),
    ensures
        digits_val(s.subrange(0, i)) <= digits_val(s.subrange(0, j)),
    decreases j - i,
{
    if i < j {
        lemma_digits_val_take_mono(s, i + 1, j);
        assert(s.subrange(0, i + 1).drop_last() =~= s.subrange(0, i));
        assert(digits_val(s.subrange(0, i)) <= digits_val(s.subrange(0, i + 1)));
    }
}

/// Parse the digit run `v[from..to]` as a number, detecting overflow.
pub fn parse_u32_range(v: &Vec<u8>, from: usize, to: usize) -> (r: Option<u32>)
    requires
        from <= to <= v@.len(),
    ensures
        ({
            let val = digits_val(v@.subrange(from as int, to as int));
            if val <= u32::MAX {
                r == Some(val as u32)
            } else {
                r is None
            }
        }),
{
    let ghost s = v@.subrange(from as int, to as int);
    let mut acc: u64 = 0;
    let mut i: usize = from;
    #[verifier::loop_isolation(false)]
    while i < to
        invariant
            from <= i <= to,
            acc == digits_val(s.subrange(0, i - from)),
            acc <= u32::MAX,
        decreases to - i,
    {
        let d: u8 = v[i];
        let dv: u64 = if 48 <= d && d <= 57 {
            (d - 48) as u64
        } else {
            0
        };
        proof {
            assert(s.subrange(0, i - from + 1).drop_last() =~= s.subrange(0, i - from));
            assert(s.subrange(0, i - from + 1).last() == v@[i as int]);
        }
        acc = acc * 10 + dv;
        i = i + 1;
        if acc > u32::MAX as u64 {
            proof {
                lemma_digits_val_take_mono(s, i - from, s.len() as int);
                assert(s.subrange(0, s.len() as int) =~= s);
            }
            return None;
        }
    }
    proof {
        assert(s.subrange(0, s.len() as int) =~= s);
    }
    Some(acc as u32)
}

/// First index at or after `pos` holding `b1` or `b2`; `s.len()` if none.
pub open spec fn find_byte2(s: Seq<u8>, b1: u8, b2: u8, pos: int) -> int
    decreases s.len() - pos,
{
    if pos < 0 || pos >= s.len() {
        s.len() as int
    } else if s[pos] == b1 || s[pos] == b2 {
        pos
    } else {
        find_byte2(s, b1, b2, pos + 1)
    }
}

pub proof fn lemma_find_byte2(s: Seq<u8>, b1: u8, b2: u8, pos: int)
    requires
        0 <= pos <= s.len(),
    ensures
        pos <= find_byte2(s, b1, b2, pos) <= s.len(),
        forall|k: int| pos <= k < find_byte2(s, b1, b2, pos) ==> s[k] != b1 && s[k] != b2,
        find_byte2(s, b1, b2, pos) < s.len() ==> (s[find_byte2(s, b1, b2, pos)] == b1 || s[
            find_byte2(s, b1, b2, pos)
        ] == b2),
    decreases s.len() - pos,
{
    if pos < s.len() && s[pos] != b1 && s[pos] != b2 {
        lemma_find_byte2(s, b1, b2, pos + 1);
    }
}

/// Exact characterisation of the first occurrence.
pub proof fn lemma_find_byte2_exact(s: Seq<u8>, b1: u8, b2: u8, pos: int, e: int)
    requires
        0 <= pos <= e <= s.len(),
        forall|k: int| pos <= k < e ==> s[k] != b1 && s[k] != b2,
        e < s.len() ==> (s[e] == b1 || s[e] == b2),
    ensures
        find_byte2(s, b1, b2, pos) == if e < s.len() {
            e
        } else {
            s.len() as int
        },
    decreases e - pos,
{
    if pos < e {
        lemma_find_byte2_exact(s, b1, b2, pos + 1, e);
    }
}

/// First index at or after `pos` holding something other than `b`;
/// `s.len()` if none.
pub open spec fn find_not(s: Seq<u8>, b: u8, pos: int) -> int
    decreases s.len() - pos,
{
    if pos < 0 || pos >= s.len() {
        s.len() as int
    } else if s[pos] != b {
        pos
    } else {
        find_not(s, b, pos + 1)
    }
}


pub proof fn lemma_find_not(s: Seq<u8>, b: u8, pos: int)
    requires
        0 <= pos <= s.len(),
    ensures
        pos <= find_not(s, b, pos) <= s.len(),
        forall|k: int| pos <= k < find_not(s, b, pos) ==> s[k] == b,
        find_not(s, b, pos) < s.len() ==> s[find_not(s, b, pos)] != b,
    decreases s.len() - pos,
{
    if pos < s.len() && s[pos] == b {
        lemma_find_not(s, b, pos + 1);
    }
}

pub proof fn lemma_find_not_exact(s: Seq<u8>, b: u8, pos: int, e: int)
    requires
        0 <= pos <= e <= s.len(),
        forall|k: int| pos <= k < e ==> s[k] == b,
        e < s.len() ==> s[e] != b,
    ensures
        find_not(s, b, pos) == if e < s.len() {
            e
        } else {
            s.len() as int
        },
    decreases e - pos,
{
    if pos < e {
        lemma_find_not_exact(s, b, pos + 1, e);
    }
}

/// Last index holding something other than `b`, or `-1` if none.
pub open spec fn last_not(s: Seq<u8>, b: u8) -> int
    decreases s.len(),
{
    if s.len() == 0 {
        -1
    } else if s.last() != b {
        s.len() - 1
    } else {
        last_not(s.drop_last(), b)
    }
}


pub proof fn lemma_last_not(s: Seq<u8>, b: u8)
    ensures
        -1 <= last_not(s, b) < s.len(),
        forall|k: int| last_not(s, b) < k < s.len() ==> s[k] == b,
        last_not(s, b) >= 0 ==> s[last_not(s, b)] != b,
    decreases s.len(),
{
    if s.len() > 0 && s.last() == b {
        lemma_last_not(s.drop_last(), b);
        assert(forall|k: int|
            last_not(s, b) < k < s.len() - 1 ==> #[trigger] s[k] == s.drop_last()[k]);
    }
}

pub proof fn lemma_last_not_exact(s: Seq<u8>, b: u8, q: int)
    requires
        0 <= q <= s.len(),
        forall|k: int| q <= k < s.len() ==> s[k] == b,
        q > 0 ==> s[q - 1] != b,
    ensures
        last_not(s, b) == q - 1,
    decreases s.len(),
{
    if s.len() > 0 {
        if s.last() == b {
            let t = s.drop_last();
            assert(q < s.len());
            assert(forall|k: int| q <= k < t.len() ==> #[trigger] t[k] == s[k]);
            if q > 0 {
                assert(t[q - 1] == s[q - 1]);
            }
            lemma_last_not_exact(t, b, q);
        } else {
            assert(q == s.len());
        }
    }
}

/// Length of the run of ASCII whitespace starting at `pos`.
pub open spec fn spaces_len(s: Seq<u8>, pos: int) -> nat
    decreases s.len() - pos,
{
    if pos < 0 || pos >= s.len() {
        0
    } else if is_ascii_space(s[pos]) {
        1 + spaces_len(s, pos + 1)
    } else {
        0
    }
}


pub proof fn lemma_spaces_len_exact(s: Seq<u8>, pos: int, e: int)
    requires
        0 <= pos <= e <= s.len(),
        forall|k: int| pos <= k < e ==> is_ascii_space(s[k]),
        e < s.len() ==> !is_ascii_space(s[e]),
    ensures
        spaces_len(s, pos) == e - pos,
    decreases e - pos,
{
    if pos < e {
        lemma_spaces_len_exact(s, pos + 1, e);
    }
}

/// A run of `n` ASCII zero digits.
pub open spec fn zeros(n: nat) -> Seq<u8> {
    Seq::new(n, |i: int| 48u8)
}

/// The byte strings viewed by a sequence of line vectors.
pub open spec fn views_of(lines: Seq<Vec<u8>>) -> Seq<Seq<u8>> {
    lines.map_values(|l: Vec<u8>| l@)
}

/// Full copy of one byte string.
pub fn copy_all(v: &Vec<u8>) -> (r: Vec<u8>)
    ensures
        r@ == v@,
{
    let r = copy_range(v, 0, v.len());
    proof {
        assert(v@.subrange(0, v@.len() as int) =~= v@);
    }
    r
}

/// Full copy of a list of lines.
pub fn copy_lines(v: &Vec<Vec<u8>>) -> (r: Vec<Vec<u8>>)
    ensures
        views_of(r@) == views_of(v@),
        r@.len() == v@.len(),
{
    let mut r: Vec<Vec<u8>> = Vec::new();
    let mut i: usize = 0;
    #[verifier::loop_isolation(false)]
    while i < v.len()
        invariant
            i <= v@.len(),
            r@.len() == i,
            forall|j: int| 0 <= j < i ==> (#[trigger] r@[j])@ == v@[j]@,
        decreases v@.len() - i,
    {
        let line = copy_all(&v[i]);
        r.push(line);
        i = i + 1;
    }
    proof {
        assert(views_of(r@) =~= views_of(v@));
    }
    r
}

} // verus!
