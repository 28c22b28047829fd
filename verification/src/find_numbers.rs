//! Hand-written float-literal scanner for the hot loops of the normalizer.
//!
//! The matched forms are:
//!   1. `-?\d+\.\d*([eE][+-]?\d+)?`    e.g.  1.0   -3.14   1.0E-3
//!   2. `-?\d+[eE][+-]?\d+`            e.g.  2E+5
//!   3. `-?\.\d+([eE][+-]?\d+)?`       e.g.  .5
//!
//! Guard: the character immediately before the match must not be
//! `[A-Za-z_#]`, which prevents matching inside identifiers or entity
//! references.

use vstd::prelude::*;

use crate::bytes::{digits_len, is_alpha, is_digit, lemma_digits_len, lemma_digits_len_exact};

verus! {

/// End of an optional `[eE][+-]?\d+` exponent starting at `pos`; `pos` itself
/// when there is none.
pub open spec fn exp_end(s: Seq<u8>, pos: int) -> int {
    if pos < 0 || pos >= s.len() || (s[pos] != 101 && s[pos] != 69) {
        pos
    } else {
        let p = if pos + 1 < s.len() && (s[pos + 1] == 43 || s[pos + 1] == 45) {
            pos + 2
        } else {
            pos + 1
        };
        if digits_len(s, p) > 0 {
            p + digits_len(s, p)
        } else {
            pos
        }
    }
}

pub proof fn lemma_exp_end(s: Seq<u8>, pos: int)
    requires
        0 <= pos <= s.len(),
    ensures
        pos <= exp_end(s, pos) <= s.len(),
{
    if pos < s.len() && (s[pos] == 101 || s[pos] == 69) {
        let p = if pos + 1 < s.len() && (s[pos + 1] == 43 || s[pos + 1] == 45) {
            pos + 2
        } else {
            pos + 1
        };
        lemma_digits_len(s, p);
    }
}

/// End of a float literal starting at `start`, if one starts there.
pub open spec fn num_match_end(s: Seq<u8>, start: int) -> Option<int> {
    let p1 = if 0 <= start < s.len() && s[start] == 45 {
        start + 1
    } else {
        start
    };
    let dl = digits_len(s, p1);
    if dl > 0 {
        let d = p1 + dl;
        if d < s.len() && s[d] == 46 {
            Some(exp_end(s, d + 1 + digits_len(s, d + 1)))
        } else {
            let a = exp_end(s, d);
            if a > d {
                Some(a)
            } else {
                None
            }
        }
    } else if p1 < s.len() && s[p1] == 46 {
        if digits_len(s, p1 + 1) > 0 {
            Some(exp_end(s, p1 + 1 + digits_len(s, p1 + 1)))
        } else {
            None
        }
    } else {
        None
    }
}

/// A matched literal is never empty and never runs past the text.
pub proof fn lemma_num_match_advances(s: Seq<u8>, start: int)
    requires
        0 <= start <= s.len(),
        num_match_end(s, start) is Some,
    ensures
        start < num_match_end(s, start).unwrap() <= s.len(),
{
    let p1 = if 0 <= start < s.len() && s[start] == 45 {
        start + 1
    } else {
        start
    };
    lemma_digits_len(s, p1);
    let dl = digits_len(s, p1);
    if dl > 0 {
        let d = p1 + dl;
        if d < s.len() && s[d] == 46 {
            lemma_digits_len(s, d + 1);
            lemma_exp_end(s, d + 1 + digits_len(s, d + 1));
        } else {
            lemma_exp_end(s, d);
        }
    } else if p1 < s.len() && s[p1] == 46 {
        lemma_digits_len(s, p1 + 1);
        lemma_exp_end(s, p1 + 1 + digits_len(s, p1 + 1));
    }
}

/// The byte before `pos` allows a literal to start at `pos`.
pub open spec fn num_guard_ok(s: Seq<u8>, pos: int) -> bool {
    pos <= 0 || !(is_alpha(s[pos - 1]) || s[pos - 1] == 95 || s[pos - 1] == 35)
}

/// A guarded float literal starts at `pos`.
pub open spec fn num_token_at(s: Seq<u8>, pos: int) -> bool {
    num_guard_ok(s, pos) && num_match_end(s, pos) is Some
}

/// All guarded float literals at or after `pos`, in text order, as
/// (start, end) pairs.
pub open spec fn scan_numbers(s: Seq<u8>, pos: int) -> Seq<(int, int)>
    decreases s.len() - pos,
    via scan_numbers_dec
{
    if pos < 0 || pos >= s.len() {
        Seq::empty()
    } else if num_token_at(s, pos) {
        seq![(pos, num_match_end(s, pos).unwrap())] + scan_numbers(
            s,
            num_match_end(s, pos).unwrap(),
        )
    } else {
        scan_numbers(s, pos + 1)
    }
}

#[via_fn]
proof fn scan_numbers_dec(s: Seq<u8>, pos: int) {
    if 0 <= pos < s.len() && num_token_at(s, pos) {
        lemma_num_match_advances(s, pos);
    }
}

/// Matches come in text order, never overlap, and stay inside the text.
pub proof fn lemma_scan_numbers_ordered(s: Seq<u8>, pos: int)
    requires
        0 <= pos <= s.len(),
    ensures
        forall|i: int|
            0 <= i < scan_numbers(s, pos).len() ==> pos <= (#[trigger] scan_numbers(s, pos)[i]).0
                && scan_numbers(s, pos)[i].0 < scan_numbers(s, pos)[i].1 && scan_numbers(s, pos)[i].1
                <= s.len(),
        forall|i: int|
            0 <= i < scan_numbers(s, pos).len() - 1 ==> (#[trigger] scan_numbers(s, pos)[i]).1
                <= scan_numbers(s, pos)[i + 1].0,
    decreases s.len() - pos,
{
    let ms = scan_numbers(s, pos);
    if pos >= s.len() {
    } else if num_token_at(s, pos) {
        let e = num_match_end(s, pos).unwrap();
        lemma_num_match_advances(s, pos);
        lemma_scan_numbers_ordered(s, e);
        let rest = scan_numbers(s, e);
        assert forall|i: int|
            0 <= i < ms.len() implies pos <= (#[trigger] ms[i]).0 && ms[i].0 < ms[i].1 && ms[i].1
            <= s.len() by {
            if i > 0 {
                assert(ms[i] == rest[i - 1]);
            }
        }
        assert forall|i: int| 0 <= i < ms.len() - 1 implies (#[trigger] ms[i]).1 <= ms[i + 1].0 by {
            if i > 0 {
                assert(ms[i] == rest[i - 1]);
                assert(ms[i + 1] == rest[i]);
            } else {
                assert(ms[1] == rest[0]);
            }
        }
    } else {
        lemma_scan_numbers_ordered(s, pos + 1);
        let rest = scan_numbers(s, pos + 1);
        assert forall|i: int|
            0 <= i < ms.len() implies pos <= (#[trigger] ms[i]).0 && ms[i].0 < ms[i].1 && ms[i].1
            <= s.len() by {
            assert(ms[i] == rest[i]);
        }
        assert forall|i: int| 0 <= i < ms.len() - 1 implies (#[trigger] ms[i]).1 <= ms[i + 1].0 by {
            assert(ms[i] == rest[i]);
            assert(ms[i + 1] == rest[i + 1]);
        }
    }
}

/// A matched float literal inside a byte string, as byte offsets.
pub struct NumMatch {
    pub start: usize,
    pub end: usize,
}

/// The (start, end) pairs described by a list of matches.
pub open spec fn num_match_views(ms: Seq<NumMatch>) -> Seq<(int, int)> {
    ms.map_values(|m: NumMatch| (m.start as int, m.end as int))
}

/// Return `true` if `ch` can appear immediately before a float literal.
pub fn is_valid_num_predecessor(ch: u8) -> (r: bool)
    ensures
        r == !(is_alpha(ch) || ch == 95 || ch == 35),
{
    !((ch >= 65 && ch <= 90) || (ch >= 97 && ch <= 122)) && ch != 95 && ch != 35
}

/// Starting at `bytes[pos]`, consume as many ASCII digits as possible and
/// return the position after the last one.
pub fn eat_digits(bytes: &Vec<u8>, pos: usize) -> (r: usize)
    requires
        pos <= bytes@.len(),
    ensures
        r == pos + digits_len(bytes@, pos as int),
        pos <= r <= bytes@.len(),
{
    let mut p: usize = pos;
    #[verifier::loop_isolation(false)]
    while p < bytes.len() && bytes[p] >= 48 && bytes[p] <= 57
        invariant
            pos <= p <= bytes@.len(),
            forall|k: int| pos <= k < p ==> is_digit(bytes@[k]),
        decreases bytes@.len() - p,
    {
        p = p + 1;
    }
    proof {
        lemma_digits_len_exact(bytes@, pos as int, p as int);
    }
    p
}

/// Starting at `bytes[pos]`, try to consume `[eE][+-]?\d+`; return the new
/// position, or `pos` itself if no exponent was found.
pub fn eat_exponent(bytes: &Vec<u8>, pos: usize) -> (r: usize)
    requires
        pos <= bytes@.len(),
    ensures
        r == exp_end(bytes@, pos as int),
        pos <= r <= bytes@.len(),
{
    proof {
        lemma_exp_end(bytes@, pos as int);
    }
    if pos >= bytes.len() || (bytes[pos] != 101 && bytes[pos] != 69) {
        return pos;
    }
    let mut p: usize = pos + 1;
    if p < bytes.len() && (bytes[p] == 43 || bytes[p] == 45) {
        p = p + 1;
    }
    let after = eat_digits(bytes, p);
    if after > p {
        after
    } else {
        pos
    }
}

/// Try to parse a float literal starting at `bytes[start]`; return the offset
/// one past its last byte on success.
pub fn try_match_number(bytes: &Vec<u8>, start: usize) -> (r: Option<usize>)
    requires
        start <= bytes@.len(),
    ensures
        match r {
            Some(e) => num_match_end(bytes@, start as int) == Some(e as int) && start < e
                <= bytes@.len(),
            None => num_match_end(bytes@, start as int) is None,
        },
{
    let mut p: usize = start;
    if p < bytes.len() && bytes[p] == 45 {
        p = p + 1;
    }
    let digits_start = p;
    p = eat_digits(bytes, p);
    let has_digits = p > digits_start;
    if has_digits {
        if p < bytes.len() && bytes[p] == 46 {
            let f = eat_digits(bytes, p + 1);
            let e = eat_exponent(bytes, f);
            return Some(e);
        }
        let after = eat_exponent(bytes, p);
        if after > p {
            return Some(after);
        }
        return None;
    }
    if p < bytes.len() && bytes[p] == 46 {
        let f = eat_digits(bytes, p + 1);
        if f > p + 1 {
            let e = eat_exponent(bytes, f);
            return Some(e);
        }
    }
    None
}

/// Scan `v` for all of its guarded float literals.
pub fn find_numbers(v: &Vec<u8>) -> (r: Vec<NumMatch>)
    ensures
        num_match_views(r@) == scan_numbers(v@, 0),
{
    let mut r: Vec<NumMatch> = Vec::new();
    let mut pos: usize = 0;
    #[verifier::loop_isolation(false)]
    while pos < v.len()
        invariant
            pos <= v@.len(),
            num_match_views(r@) + scan_numbers(v@, pos as int) =~= scan_numbers(v@, 0),
        decreases v@.len() - pos,
    {
        let ghost prev = r@;
        let b = v[pos];
        let could_start = (b >= 48 && b <= 57) || b == 45 || b == 46;
        if !could_start {
            assert(num_match_end(v@, pos as int) is None);
            pos = pos + 1;
        } else if pos > 0 && !is_valid_num_predecessor(v[pos - 1]) {
            assert(!num_guard_ok(v@, pos as int));
            pos = pos + 1;
        } else {
            match try_match_number(v, pos) {
                Some(end) => {
                    r.push(NumMatch { start: pos, end });
                    proof {
                        assert(num_match_views(r@) =~= num_match_views(prev) + seq![
                            (pos as int, end as int),
                        ]);
                    }
                    pos = end;
                },
                None => {
                    pos = pos + 1;
                },
            }
        }
    }
    r
}

} // verus!
