//! Numeric canonicalization: expand scientific notation by shifting the
//! decimal point, strip redundant zeros, always emit a decimal point, and
//! optionally truncate the fractional part for comparison purposes.
//!
//! Also holds the entity-name stripper and the uncertainty-precision
//! extractor used to derive a comparison bound from the file itself.

use vstd::prelude::*;

use crate::bytes::{
    all_digits,
    copy_range, digits_len, digits_val, find_byte2, find_not, is_ascii_space, is_digit, is_upper,
    last_not, lemma_digits_len, lemma_digits_len_exact, lemma_find_byte2, lemma_find_byte2_exact,
    lemma_find_not, lemma_find_not_exact, lemma_last_not, lemma_last_not_exact,
    lemma_spaces_len_exact, push_range, spaces_len, spec_trim,
    trim_range, views_of, zeros,
};
use crate::find_numbers::{exp_end, num_match_views, scan_numbers, NumMatch};

verus! {

/// Value of an optionally signed exponent digit string, with the overflow
/// behaviour of a 32-bit parse: anything malformed or out of range is `0`.
pub open spec fn spec_parse_exp(t: Seq<u8>) -> int {
    let dstart: int = if t.len() > 0 && (t[0] == 45 || t[0] == 43) {
        1
    } else {
        0
    };
    let neg = t.len() > 0 && t[0] == 45;
    let ds = t.subrange(dstart, t.len() as int);
    if ds.len() == 0 || !all_digits(ds) {
        0
    } else {
        let v = digits_val(ds);
        if neg {
            if v <= 0x8000_0000 {
                -(v as int)
            } else {
                0
            }
        } else {
            if v <= 0x7FFF_FFFF {
                v as int
            } else {
                0
            }
        }
    }
}

/// Decimal-point shift of `(i, f)` by exponent `e`, padding with zeros.
pub open spec fn spec_shift(i: Seq<u8>, f: Seq<u8>, e: int) -> (Seq<u8>, Seq<u8>) {
    if e > 0 {
        if e < f.len() {
            (i + f.subrange(0, e), f.subrange(e, f.len() as int))
        } else {
            (i + f + zeros((e - f.len()) as nat), Seq::empty())
        }
    } else if e < 0 {
        let sh = -e;
        if sh < i.len() {
            (i.subrange(0, i.len() - sh), i.subrange(i.len() - sh, i.len() as int) + f)
        } else {
            (seq![48u8], zeros((sh - i.len()) as nat) + i + f)
        }
    } else {
        (i, f)
    }
}

/// Integer part with leading zeros removed; never empty.
pub open spec fn strip_lead(s: Seq<u8>) -> Seq<u8> {
    let p = find_not(s, 48, 0);
    if p >= s.len() {
        seq![48u8]
    } else {
        s.subrange(p, s.len() as int)
    }
}

/// Fractional part with trailing zeros removed; possibly empty.
pub open spec fn strip_trail(s: Seq<u8>) -> Seq<u8> {
    let p = last_not(s, 48);
    if p < 0 {
        Seq::empty()
    } else {
        s.subrange(0, p + 1)
    }
}

/// Final assembly of a canonical literal: collapse zero (dropping any sign),
/// otherwise sign, integer part, decimal point, fractional part.
pub open spec fn spec_assemble(neg: bool, i: Seq<u8>, f: Seq<u8>) -> Seq<u8> {
    if i == seq![48u8] && f.len() == 0 {
        seq![48u8, 46u8]
    } else if neg {
        seq![45u8] + i + seq![46u8] + f
    } else {
        i + seq![46u8] + f
    }
}

/// Canonical form of one floating-point literal: exponent expanded, zeros
/// stripped, a decimal point always present, signed zero collapsed.
pub open spec fn spec_normalize_number(s: Seq<u8>) -> Seq<u8> {
    let e_pos = find_byte2(s, 101, 69, 0);
    let mant = s.subrange(0, e_pos);
    let exp: int = if e_pos < s.len() {
        spec_parse_exp(s.subrange(e_pos + 1, s.len() as int))
    } else {
        0
    };
    let neg = mant.len() > 0 && mant[0] == 45;
    let m2 = if neg {
        mant.subrange(1, mant.len() as int)
    } else {
        mant
    };
    let dot = find_byte2(m2, 46, 46, 0);
    let int0 = m2.subrange(0, dot);
    let frac0 = if dot < m2.len() {
        m2.subrange(dot + 1, m2.len() as int)
    } else {
        Seq::empty()
    };
    let int1 = if int0.len() == 0 {
        seq![48u8]
    } else {
        int0
    };
    let shifted = spec_shift(int1, frac0, exp);
    spec_assemble(neg, strip_lead(shifted.0), strip_trail(shifted.1))
}

/// Canonical form truncated to at most `max` fractional digits.
pub open spec fn spec_round_number(s: Seq<u8>, max: u32) -> Seq<u8> {
    let norm = spec_normalize_number(s);
    if find_byte2(norm, 46, 46, 0) >= norm.len() {
        norm
    } else {
        let neg = norm.len() > 0 && norm[0] == 45;
        let body = if neg {
            norm.subrange(1, norm.len() as int)
        } else {
            norm
        };
        let dot = find_byte2(body, 46, 46, 0);
        if dot >= body.len() {
            norm
        } else {
            let int_part = body.subrange(0, dot);
            let frac_part = body.subrange(dot + 1, body.len() as int);
            let frac1 = if frac_part.len() > max {
                frac_part.subrange(0, max as int)
            } else {
                frac_part
            };
            spec_assemble(neg, int_part, strip_trail(frac1))
        }
    }
}

/// Stripping leading zeros from a digit string keeps it a digit string,
/// never empties it, and leaves no leading zero except on `"0"` itself.
proof fn lemma_strip_lead_props(x: Seq<u8>)
    requires
        all_digits(x),
    ensures
        all_digits(strip_lead(x)),
        strip_lead(x).len() >= 1,
        strip_lead(x) == seq![48u8] || strip_lead(x)[0] != 48,
{
    lemma_find_not(x, 48, 0);
    let p = find_not(x, 48, 0);
    if p >= x.len() {
        assert(all_digits(seq![48u8])) by {
            assert(seq![48u8][0] == 48);
        }
    } else {
        assert forall|k: int| 0 <= k < strip_lead(x).len() implies is_digit(
            #[trigger] strip_lead(x)[k],
        ) by {
            assert(strip_lead(x)[k] == x[p + k]);
        }
        assert(strip_lead(x)[0] == x[p]);
    }
}

/// Stripping trailing zeros from a digit string keeps it a digit string and
/// never leaves a trailing zero.
proof fn lemma_strip_trail_props(x: Seq<u8>)
    requires
        all_digits(x),
    ensures
        all_digits(strip_trail(x)),
        strip_trail(x).len() == 0 || strip_trail(x).last() != 48,
{
    lemma_last_not(x, 48);
    let p = last_not(x, 48);
    if p >= 0 {
        assert forall|k: int| 0 <= k < strip_trail(x).len() implies is_digit(
            #[trigger] strip_trail(x)[k],
        ) by {
            assert(strip_trail(x)[k] == x[k]);
        }
        assert(strip_trail(x).last() == x[p]);
    }
}

/// Shifting the decimal point of digit strings yields digit strings.
proof fn lemma_shift_digits(i: Seq<u8>, f: Seq<u8>, e: int)
    requires
        all_digits(i),
        all_digits(f),
    ensures
        all_digits(spec_shift(i, f, e).0),
        all_digits(spec_shift(i, f, e).1),
{
    let sh = spec_shift(i, f, e);
    assert(all_digits(seq![48u8])) by {
        assert(seq![48u8][0] == 48);
    }
    assert forall|k: int| 0 <= k < sh.0.len() implies is_digit(#[trigger] sh.0[k]) by {}
    assert forall|k: int| 0 <= k < sh.1.len() implies is_digit(#[trigger] sh.1[k]) by {}
}

/// Numeric canonicalization is idempotent: normalizing an already canonical
/// form changes nothing, for any text that is one whole float literal.
pub proof fn lemma_normalize_idempotent(s: Seq<u8>)
    requires
        crate::find_numbers::num_match_end(s, 0) == Some(s.len() as int),
    ensures
        spec_normalize_number(spec_normalize_number(s)) == spec_normalize_number(s),
{
    let p1: int = if 0 <= 0 < s.len() && s[0] == 45 {
        1
    } else {
        0
    };
    let dl = digits_len(s, p1);
    lemma_digits_len(s, p1);
    let d = p1 + dl;
    // Locate the end of the mantissa: the first exponent letter, or the end.
    let e_pos = find_byte2(s, 101, 69, 0);
    let mant_end: int = if dl > 0 {
        if d < s.len() && s[d] == 46 {
            lemma_digits_len(s, d + 1);
            d + 1 + digits_len(s, d + 1)
        } else {
            d
        }
    } else {
        lemma_digits_len(s, p1 + 1);
        p1 + 1 + digits_len(s, p1 + 1)
    };
    assert forall|k: int| 0 <= k < mant_end implies s[k] != 101 && s[k] != 69 by {
        assert(is_digit(s[k]) || s[k] == 45 || s[k] == 46);
    }
    if mant_end < s.len() {
        assert(exp_end(s, mant_end) == s.len());
        assert(s[mant_end] == 101 || s[mant_end] == 69);
        lemma_find_byte2_exact(s, 101, 69, 0, mant_end);
    } else {
        lemma_find_byte2_exact(s, 101, 69, 0, s.len() as int);
    }
    assert(e_pos == mant_end);
    let mant = s.subrange(0, e_pos);
    let neg = mant.len() > 0 && mant[0] == 45;
    let m2 = if neg {
        mant.subrange(1, mant.len() as int)
    } else {
        mant
    };
    let dot = find_byte2(m2, 46, 46, 0);
    assert(neg == (p1 == 1));
    // The mantissa splits into two digit strings around one optional dot.
    if dl > 0 && d < s.len() && s[d] == 46 && d < mant_end {
        lemma_find_byte2_exact(m2, 46, 46, 0, d - p1);
    } else if dl > 0 {
        assert(mant_end == d);
        lemma_find_byte2_exact(m2, 46, 46, 0, m2.len() as int);
    } else {
        assert(s[p1] == 46);
        lemma_find_byte2_exact(m2, 46, 46, 0, 0);
    }
    let int0 = m2.subrange(0, dot);
    let frac0 = if dot < m2.len() {
        m2.subrange(dot + 1, m2.len() as int)
    } else {
        Seq::<u8>::empty()
    };
    assert(all_digits(int0)) by {
        assert forall|k: int| 0 <= k < int0.len() implies is_digit(#[trigger] int0[k]) by {
            assert(int0[k] == s[p1 + k]);
        }
    }
    assert(all_digits(frac0)) by {
        assert forall|k: int| 0 <= k < frac0.len() implies is_digit(#[trigger] frac0[k]) by {}
    }
    let int1 = if int0.len() == 0 {
        seq![48u8]
    } else {
        int0
    };
    assert(all_digits(int1)) by {
        if int0.len() == 0 {
            assert(seq![48u8][0] == 48);
        }
    }
    let exp: int = if e_pos < s.len() {
        spec_parse_exp(s.subrange(e_pos + 1, s.len() as int))
    } else {
        0
    };
    let sh = spec_shift(int1, frac0, exp);
    lemma_shift_digits(int1, frac0, exp);
    let ip = strip_lead(sh.0);
    let fp = strip_trail(sh.1);
    lemma_strip_lead_props(sh.0);
    lemma_strip_trail_props(sh.1);
    let r = spec_normalize_number(s);
    assert(r == spec_assemble(neg, ip, fp));
    lemma_renormalize_canonical(neg, ip, fp);
}

/// A canonical sign-integer-dot-fraction assembly normalizes to itself.
proof fn lemma_renormalize_canonical(neg: bool, ip: Seq<u8>, fp: Seq<u8>)
    requires
        all_digits(ip),
        ip.len() >= 1,
        ip == seq![48u8] || ip[0] != 48,
        all_digits(fp),
        fp.len() == 0 || fp.last() != 48,
    ensures
        spec_normalize_number(spec_assemble(neg, ip, fp)) == spec_assemble(neg, ip, fp),
{
    let r = spec_assemble(neg, ip, fp);
    let zero_case = ip == seq![48u8] && fp.len() == 0;
    let rneg = !zero_case && neg;
    let body = ip + seq![46u8] + fp;
    assert(r == if rneg {
        seq![45u8] + body
    } else {
        body
    });
    assert forall|k: int| 0 <= k < r.len() implies r[k] != 101 && r[k] != 69 by {
        if rneg {
            if k >= 1 {
                assert(r[k] == body[k - 1]);
            }
        } else {
            assert(r[k] == body[k]);
        }
    }
    lemma_find_byte2_exact(r, 101, 69, 0, r.len() as int);
    let mant = r.subrange(0, r.len() as int);
    assert(mant =~= r);
    assert((mant.len() > 0 && mant[0] == 45) == rneg) by {
        if rneg {
            assert(r[0] == 45);
        } else {
            assert(r[0] == ip[0]);
        }
    }
    let m2 = if rneg {
        mant.subrange(1, mant.len() as int)
    } else {
        mant
    };
    assert(m2 =~= body);
    assert(body[ip.len() as int] == 46);
    assert forall|k: int| 0 <= k < ip.len() implies body[k] != 46 by {
        assert(body[k] == ip[k]);
        assert(is_digit(ip[k]));
    }
    lemma_find_byte2_exact(m2, 46, 46, 0, ip.len() as int);
    let dot = find_byte2(m2, 46, 46, 0);
    assert(dot == ip.len());
    let int0 = m2.subrange(0, dot);
    assert(int0 =~= ip);
    let frac0 = m2.subrange(dot + 1, m2.len() as int);
    assert(frac0 =~= fp);
    assert(strip_lead(ip) == ip) by {
        if ip == seq![48u8] {
            assert(ip[0] == 48);
            lemma_find_not(ip, 48, 0);
            assert(find_not(ip, 48, 0) == 1);
        } else {
            assert(find_not(ip, 48, 0) == 0);
            assert(ip.subrange(0, ip.len() as int) =~= ip);
        }
    }
    assert(strip_trail(fp) == fp) by {
        if fp.len() == 0 {
            assert(last_not(fp, 48) == -1);
        } else {
            crate::bytes::lemma_last_not_exact(fp, 48, fp.len() as int);
            assert(fp.subrange(0, fp.len() as int) =~= fp);
        }
    }
    assert(spec_normalize_number(r) == spec_assemble(rneg, ip, fp));
    if zero_case {
        assert(spec_assemble(rneg, ip, fp) == spec_assemble(neg, ip, fp));
    }
}

/// Parse `s[from..to]` as an optionally signed 32-bit exponent.
fn parse_exp_range(s: &Vec<u8>, from: usize, to: usize) -> (r: i32)
    requires
        from <= to <= s@.len(),
    ensures
        r as int == spec_parse_exp(s@.subrange(from as int, to as int)),
{
    let ghost t = s@.subrange(from as int, to as int);
    let mut i: usize = from;
    let mut neg = false;
    if i < to && (s[i] == 45 || s[i] == 43) {
        neg = s[i] == 45;
        i = i + 1;
    }
    let ghost ds = t.subrange(i - from, t.len() as int);
    if i == to {
        return 0;
    }
    let mut acc: u64 = 0;
    let mut j: usize = i;
    #[verifier::loop_isolation(false)]
    while j < to
        invariant
            i <= j <= to,
            forall|k: int| 0 <= k < j - i ==> is_digit(#[trigger] ds[k]),
            digits_val(ds.subrange(0, j - i)) <= 0x8000_0000 ==> acc == digits_val(
                ds.subrange(0, j - i),
            ),
            digits_val(ds.subrange(0, j - i)) > 0x8000_0000 ==> acc == 0x8000_0001,
        decreases to - j,
    {
        let d = s[j];
        if d < 48 || d > 57 {
            proof {
                let dstart: int = if t.len() > 0 && (t[0] == 45 || t[0] == 43) {
                    1
                } else {
                    0
                };
                if t.len() > 0 {
                    assert(t[0] == s@[from as int]);
                }
                assert(i - from == dstart);
                assert(ds == t.subrange(dstart, t.len() as int));
                assert(!all_digits(ds)) by {
                    assert(!is_digit(ds[j - i]));
                }
                assert(spec_parse_exp(t) == 0);
            }
            return 0;
        }
        proof {
            assert(ds.subrange(0, j - i + 1).drop_last() =~= ds.subrange(0, j - i));
            assert(ds.subrange(0, j - i + 1).last() == s@[j as int]);
        }
        let next = acc * 10 + ((d - 48) as u64);
        if next > 0x8000_0000 {
            acc = 0x8000_0001;
        } else {
            acc = next;
        }
        j = j + 1;
    }
    proof {
        assert(ds.subrange(0, ds.len() as int) =~= ds);
    }
    if neg {
        if acc <= 0x8000_0000 {
            (-(acc as i64)) as i32
        } else {
            0
        }
    } else {
        if acc <= 0x7FFF_FFFF {
            acc as i32
        } else {
            0
        }
    }
}

/// First occurrence of `b1` or `b2` in `s[from..to]`, else `to`.
fn find_byte2_range(s: &Vec<u8>, from: usize, to: usize, b1: u8, b2: u8) -> (r: usize)
    requires
        from <= to <= s@.len(),
    ensures
        from <= r <= to,
        ({
            let sub = s@.subrange(from as int, to as int);
            r - from == if find_byte2(sub, b1, b2, 0) < sub.len() {
                find_byte2(sub, b1, b2, 0)
            } else {
                sub.len() as int
            }
        }),
        r < to ==> (s@[r as int] == b1 || s@[r as int] == b2),
        forall|k: int| from <= k < r ==> s@[k] != b1 && s@[k] != b2,
{
    let ghost sub = s@.subrange(from as int, to as int);
    let mut i: usize = from;
    #[verifier::loop_isolation(false)]
    while i < to && s[i] != b1 && s[i] != b2
        invariant
            from <= i <= to,
            forall|k: int| from <= k < i ==> s@[k] != b1 && s@[k] != b2,
        decreases to - i,
    {
        i = i + 1;
    }
    proof {
        assert(forall|k: int| 0 <= k < i - from ==> sub[k] == s@[from + k]);
        lemma_find_byte2_exact(sub, b1, b2, 0, i - from);
    }
    i
}

/// Index of the first non-zero byte of `v`, or its length.
fn find_first_nonzero(v: &Vec<u8>) -> (r: usize)
    ensures
        r as int == find_not(v@, 48, 0),
        r <= v@.len(),
{
    let mut i: usize = 0;
    #[verifier::loop_isolation(false)]
    while i < v.len() && v[i] == 48
        invariant
            i <= v@.len(),
            forall|k: int| 0 <= k < i ==> v@[k] == 48,
        decreases v@.len() - i,
    {
        i = i + 1;
    }
    proof {
        lemma_find_not_exact(v@, 48, 0, i as int);
    }
    i
}

/// Copy of `v` with trailing zero digits removed.
fn strip_trailing_zeros_vec(v: &Vec<u8>) -> (r: Vec<u8>)
    ensures
        r@ == strip_trail(v@),
{
    let mut q: usize = v.len();
    #[verifier::loop_isolation(false)]
    while q > 0 && v[q - 1] == 48
        invariant
            q <= v@.len(),
            forall|k: int| q <= k < v@.len() ==> v@[k] == 48,
        decreases q,
    {
        q = q - 1;
    }
    proof {
        lemma_last_not_exact(v@, 48, q as int);
        if q > 0 {
            assert(v@.subrange(0, q as int) =~= v@.subrange(0, last_not(v@, 48) + 1));
        } else {
            assert(v@.subrange(0, 0) =~= Seq::<u8>::empty());
        }
    }
    copy_range(v, 0, q)
}

/// Copy of `v` with leading zero digits removed; never empty.
fn strip_lead_vec(v: &Vec<u8>) -> (r: Vec<u8>)
    ensures
        r@ == strip_lead(v@),
{
    let p = find_first_nonzero(v);
    if p >= v.len() {
        let mut z: Vec<u8> = Vec::new();
        z.push(48);
        proof {
            assert(z@ =~= seq![48u8]);
        }
        z
    } else {
        copy_range(v, p, v.len())
    }
}

/// Shift the decimal point of `(i, f)` by `exp` places, padding with zeros.
fn apply_shift(i: Vec<u8>, f: Vec<u8>, exp: i32) -> (r: (Vec<u8>, Vec<u8>))
    ensures
        r.0@ == spec_shift(i@, f@, exp as int).0,
        r.1@ == spec_shift(i@, f@, exp as int).1,
{
    let ghost gi = i@;
    let ghost gf = f@;
    let mut int_part = i;
    let mut frac_part = f;
    if exp > 0 {
        let sh = exp as usize;
        if sh < frac_part.len() {
            push_range(&mut int_part, &frac_part, 0, sh);
            let nf = copy_range(&frac_part, sh, frac_part.len());
            frac_part = nf;
        } else {
            let flen = frac_part.len();
            push_range(&mut int_part, &frac_part, 0, flen);
            proof {
                assert(int_part@ =~= gi + gf + zeros(0));
            }
            let mut k: usize = flen;
            #[verifier::loop_isolation(false)]
            while k < sh
                invariant
                    flen <= k <= sh,
                    int_part@ =~= gi + gf + zeros((k - flen) as nat),
                decreases sh - k,
            {
                int_part.push(48);
                proof {
                    assert(int_part@ =~= gi + gf + zeros((k + 1 - flen) as nat));
                }
                k = k + 1;
            }
            frac_part = Vec::new();
        }
    } else if exp < 0 {
        let sh64: i64 = -(exp as i64);
        let sh: usize = sh64 as usize;
        if sh < int_part.len() {
            let split = int_part.len() - sh;
            let mut nf = copy_range(&int_part, split, int_part.len());
            push_range(&mut nf, &frac_part, 0, frac_part.len());
            let ni = copy_range(&int_part, 0, split);
            proof {
                assert(frac_part@.subrange(0, frac_part@.len() as int) =~= gf);
            }
            int_part = ni;
            frac_part = nf;
        } else {
            let pad = sh - int_part.len();
            let mut nf: Vec<u8> = Vec::new();
            let mut k: usize = 0;
            #[verifier::loop_isolation(false)]
            while k < pad
                invariant
                    k <= pad,
                    nf@ =~= zeros(k as nat),
                decreases pad - k,
            {
                nf.push(48);
                proof {
                    assert(nf@ =~= zeros((k + 1) as nat));
                }
                k = k + 1;
            }
            push_range(&mut nf, &int_part, 0, int_part.len());
            push_range(&mut nf, &frac_part, 0, frac_part.len());
            proof {
                assert(int_part@.subrange(0, int_part@.len() as int) =~= gi);
                assert(frac_part@.subrange(0, frac_part@.len() as int) =~= gf);
                assert(nf@ =~= zeros((sh - gi.len()) as nat) + gi + gf);
            }
            let mut ni: Vec<u8> = Vec::new();
            ni.push(48);
            proof {
                assert(ni@ =~= seq![48u8]);
            }
            int_part = ni;
            frac_part = nf;
        }
    }
    (int_part, frac_part)
}

/// Glue the sign, integer and fractional parts back together.
fn assemble_number(neg: bool, int_part: &Vec<u8>, frac_part: &Vec<u8>) -> (r: Vec<u8>)
    ensures
        r@ == spec_assemble(neg, int_part@, frac_part@),
{
    let zero_case = int_part.len() == 1 && int_part[0] == 48 && frac_part.len() == 0;
    proof {
        if int_part@.len() == 1 && int_part@[0] == 48 {
            assert(int_part@ =~= seq![48u8]);
        }
    }
    let mut out: Vec<u8> = Vec::new();
    if zero_case {
        out.push(48);
        out.push(46);
        proof {
            assert(out@ =~= seq![48u8, 46u8]);
        }
    } else {
        if neg {
            out.push(45);
        }
        push_range(&mut out, int_part, 0, int_part.len());
        out.push(46);
        push_range(&mut out, frac_part, 0, frac_part.len());
        proof {
            assert(int_part@.subrange(0, int_part@.len() as int) =~= int_part@);
            assert(frac_part@.subrange(0, frac_part@.len() as int) =~= frac_part@);
            if neg {
                assert(out@ =~= seq![45u8] + int_part@ + seq![46u8] + frac_part@);
            } else {
                assert(out@ =~= int_part@ + seq![46u8] + frac_part@);
            }
        }
    }
    out
}

/// Normalize a single floating-point literal into its canonical form.
///
/// Scientific notation is expanded, leading zeros on the integer part and
/// trailing zeros on the fractional part are stripped, and the result always
/// contains a decimal point.
#[verifier::rlimit(50)]
pub fn normalize_number(s: &Vec<u8>) -> (r: Vec<u8>)
    ensures
        r@ == spec_normalize_number(s@),
{
    let ghost sv = s@;
    let e_pos = find_byte2_range(s, 0, s.len(), 101, 69);
    proof {
        assert(sv.subrange(0, sv.len() as int) =~= sv);
        lemma_find_byte2(sv, 101, 69, 0);
        assert(e_pos as int == find_byte2(sv, 101, 69, 0));
    }
    let exp: i32 = if e_pos < s.len() {
        parse_exp_range(s, e_pos + 1, s.len())
    } else {
        0
    };
    let neg = e_pos > 0 && s[0] == 45;
    let ghost mant = sv.subrange(0, e_pos as int);
    proof {
        if e_pos > 0 {
            assert(mant[0] == sv[0]);
        }
        assert(neg == (mant.len() > 0 && mant[0] == 45));
    }
    let m_start: usize = if neg {
        1
    } else {
        0
    };
    let ghost m2 = if neg {
        mant.subrange(1, mant.len() as int)
    } else {
        mant
    };
    proof {
        assert(m2 =~= sv.subrange(m_start as int, e_pos as int));
    }
    let dot_abs = find_byte2_range(s, m_start, e_pos, 46, 46);
    let ghost dot = find_byte2(m2, 46, 46, 0);
    proof {
        lemma_find_byte2(m2, 46, 46, 0);
        assert(dot_abs - m_start == dot);
    }
    let mut int_part = copy_range(s, m_start, dot_abs);
    let ghost int0 = m2.subrange(0, dot);
    proof {
        assert(int_part@ =~= int0);
    }
    let mut frac_part: Vec<u8>;
    if dot_abs < e_pos {
        frac_part = copy_range(s, dot_abs + 1, e_pos);
    } else {
        frac_part = Vec::new();
    }
    let ghost frac0 = if dot < m2.len() {
        m2.subrange(dot + 1, m2.len() as int)
    } else {
        Seq::<u8>::empty()
    };
    proof {
        assert(frac_part@ =~= frac0);
    }
    if int_part.len() == 0 {
        int_part.push(48);
    }
    let ghost int1 = if int0.len() == 0 {
        seq![48u8]
    } else {
        int0
    };
    proof {
        assert(int_part@ =~= int1);
    }
    let shifted = apply_shift(int_part, frac_part, exp);
    let int3 = strip_lead_vec(&shifted.0);
    let frac3 = strip_trailing_zeros_vec(&shifted.1);
    assemble_number(neg, &int3, &frac3)
}

/// Round a number string to at most `max_decimals` fractional digits, then
/// normalize; truncation, not rounding, is the deliberate policy.
pub fn round_number(s: &Vec<u8>, max_decimals: u32) -> (r: Vec<u8>)
    ensures
        r@ == spec_round_number(s@, max_decimals),
{
    let norm = normalize_number(s);
    let ghost nv = norm@;
    let dot_any = find_byte2_range(&norm, 0, norm.len(), 46, 46);
    proof {
        assert(nv.subrange(0, nv.len() as int) =~= nv);
        lemma_find_byte2(nv, 46, 46, 0);
        assert(dot_any as int == find_byte2(nv, 46, 46, 0));
    }
    if dot_any >= norm.len() {
        return norm;
    }
    let neg = norm[0] == 45;
    let body_start: usize = if neg {
        1
    } else {
        0
    };
    let ghost body = if neg {
        nv.subrange(1, nv.len() as int)
    } else {
        nv
    };
    proof {
        assert(body =~= nv.subrange(body_start as int, nv.len() as int));
    }
    let dot_abs = find_byte2_range(&norm, body_start, norm.len(), 46, 46);
    let ghost dot = find_byte2(body, 46, 46, 0);
    proof {
        lemma_find_byte2(body, 46, 46, 0);
        assert(dot_abs - body_start == dot);
    }
    if dot_abs >= norm.len() {
        return norm;
    }
    let int_part = copy_range(&norm, body_start, dot_abs);
    let frac_all = copy_range(&norm, dot_abs + 1, norm.len());
    let ghost gint = body.subrange(0, dot);
    let ghost gfrac = body.subrange(dot + 1, body.len() as int);
    proof {
        assert(int_part@ =~= gint);
        assert(frac_all@ =~= gfrac);
    }
    let keep: usize = if frac_all.len() > max_decimals as usize {
        max_decimals as usize
    } else {
        frac_all.len()
    };
    let frac1 = copy_range(&frac_all, 0, keep);
    let ghost gfrac1 = if gfrac.len() > max_decimals {
        gfrac.subrange(0, max_decimals as int)
    } else {
        gfrac
    };
    proof {
        assert(frac1@ =~= gfrac1);
    }
    let frac2 = strip_trailing_zeros_vec(&frac1);
    assemble_number(neg, &int_part, &frac2)
}

/// Try to consume an optional exponent (`[eE][+-]?\d+`) starting at `pos`.
/// Returns the new position (unchanged if no exponent found).
pub fn try_consume_exponent(bytes: &Vec<u8>, pos: usize) -> (r: usize)
    requires
        pos <= bytes@.len(),
    ensures
        r == exp_end(bytes@, pos as int),
        pos <= r <= bytes@.len(),
{
    proof {
        crate::find_numbers::lemma_exp_end(bytes@, pos as int);
    }
    if pos >= bytes.len() {
        return pos;
    }
    if bytes[pos] != 101 && bytes[pos] != 69 {
        return pos;
    }
    let mut p: usize = pos + 1;
    if p < bytes.len() && (bytes[p] == 43 || bytes[p] == 45) {
        p = p + 1;
    }
    let digit_start = p;
    #[verifier::loop_isolation(false)]
    while p < bytes.len() && bytes[p] >= 48 && bytes[p] <= 57
        invariant
            digit_start <= p <= bytes@.len(),
            forall|k: int| digit_start <= k < p ==> is_digit(bytes@[k]),
        decreases bytes@.len() - p,
    {
        p = p + 1;
    }
    proof {
        lemma_digits_len_exact(bytes@, digit_start as int, p as int);
    }
    if p > digit_start {
        p
    } else {
        pos
    }
}

/// Find all floating-point number literals in `s`, respecting the guard that
/// the character before the match must not be `[A-Za-z_#]`.
pub fn find_numbers(s: &Vec<u8>) -> (r: Vec<NumMatch>)
    ensures
        num_match_views(r@) == scan_numbers(s@, 0),
{
    let mut r: Vec<NumMatch> = Vec::new();
    let mut pos: usize = 0;
    #[verifier::loop_isolation(false)]
    while pos < s.len()
        invariant
            pos <= s@.len(),
            num_match_views(r@) + scan_numbers(s@, pos as int) =~= scan_numbers(s@, 0),
        decreases s@.len() - pos,
    {
        let ghost prev = r@;
        let guard_ok = pos == 0 || {
            let prev_byte = s[pos - 1];
            !((prev_byte >= 65 && prev_byte <= 90) || (prev_byte >= 97 && prev_byte <= 122))
                && prev_byte != 95 && prev_byte != 35
        };
        if !guard_ok {
            assert(!crate::find_numbers::num_guard_ok(s@, pos as int));
            pos = pos + 1;
        } else {
            match crate::find_numbers::try_match_number(s, pos) {
                Some(end) => {
                    r.push(NumMatch { start: pos, end });
                    proof {
                        assert(num_match_views(r@) =~= num_match_views(prev) + seq![
                            (pos as int, end as int),
                        ]);
                    }
                    pos = end;
                },
                None => {
                    pos = pos + 1;
                },
            }
        }
    }
    r
}

/// Canonical (optionally truncated) form of one literal.
pub open spec fn spec_norm_or_round(t: Seq<u8>, md: Option<u32>) -> Seq<u8> {
    match md {
        Some(n) => spec_round_number(t, n),
        None => spec_normalize_number(t),
    }
}

/// Text with every listed match replaced by its canonical form, starting
/// from offset `last`.
pub open spec fn spec_replace_nums(s: Seq<u8>, ms: Seq<(int, int)>, md: Option<u32>, last: int)
    -> Seq<u8>
    decreases ms.len(),
{
    if ms.len() == 0 {
        s.subrange(last, s.len() as int)
    } else {
        s.subrange(last, ms[0].0) + spec_norm_or_round(s.subrange(ms[0].0, ms[0].1), md)
            + spec_replace_nums(s, ms.skip(1), md, ms[0].1)
    }
}

/// Line with every float literal replaced by its canonical (optionally
/// truncated) form, all other bytes untouched.
pub open spec fn spec_normalize_line(s: Seq<u8>, md: Option<u32>) -> Seq<u8> {
    spec_replace_nums(s, scan_numbers(s, 0), md, 0)
}

/// Replace all floating-point numbers in `rhs` with their normalized (and
/// optionally rounded) forms.
#[verifier::rlimit(100)]
pub fn normalize_numbers_in_line(rhs: &Vec<u8>, max_decimals: Option<u32>) -> (r: Vec<u8>)
    ensures
        r@ == spec_normalize_line(rhs@, max_decimals),
{
    let ghost sv = rhs@;
    let ghost msv = scan_numbers(sv, 0);
    proof {
        crate::find_numbers::lemma_scan_numbers_ordered(sv, 0);
    }
    let ms = find_numbers(rhs);
    let mut out: Vec<u8> = Vec::new();
    let mut last: usize = 0;
    let mut i: usize = 0;
    proof {
        assert(msv.skip(0) =~= msv);
    }
    #[verifier::loop_isolation(false)]
    while i < ms.len()
        invariant
            i <= ms@.len(),
            num_match_views(ms@) == msv,
            if i == 0 {
                last == 0
            } else {
                last as int == msv[i - 1].1
            },
            last <= sv.len(),
            i < msv.len() ==> last as int <= msv[i as int].0,
            out@ + spec_replace_nums(sv, msv.skip(i as int), max_decimals, last as int) =~=
                spec_replace_nums(sv, msv, max_decimals, 0),
        decreases ms@.len() - i,
    {
        let ghost pre = out@;
        let start = ms[i].start;
        let end = ms[i].end;
        proof {
            assert(msv[i as int] == (start as int, end as int));
        }
        push_range(&mut out, rhs, last, start);
        let num = copy_range(rhs, start, end);
        let mut repl = match max_decimals {
            Some(n) => round_number(&num, n),
            None => normalize_number(&num),
        };
        out.append(&mut repl);
        proof {
            assert(msv.skip(i as int)[0] == msv[i as int]);
            assert(msv.skip(i as int).skip(1) =~= msv.skip(i + 1));
            assert(out@ =~= pre + (sv.subrange(last as int, start as int) + spec_norm_or_round(
                sv.subrange(start as int, end as int),
                max_decimals,
            )));
            if i + 1 < msv.len() {
                assert(msv[i + 1 - 1].1 <= msv[i + 1].0);
            }
        }
        last = end;
        i = i + 1;
    }
    push_range(&mut out, rhs, last, rhs.len());
    proof {
        assert(msv.skip(msv.len() as int) =~= Seq::<(int, int)>::empty());
    }
    out
}

/// Run of upper-case letters and underscores starting at `pos`.
pub open spec fn ident_len(s: Seq<u8>, pos: int) -> nat
    decreases s.len() - pos,
{
    if pos < 0 || pos >= s.len() {
        0
    } else if is_upper(s[pos]) || s[pos] == 95 {
        1 + ident_len(s, pos + 1)
    } else {
        0
    }
}

proof fn lemma_ident_len_exact(s: Seq<u8>, pos: int, e: int)
    requires
        0 <= pos <= e <= s.len(),
        forall|k: int| pos <= k < e ==> is_upper(s[k]) || s[k] == 95,
        e < s.len() ==> !(is_upper(s[e]) || s[e] == 95),
    ensures
        ident_len(s, pos) == e - pos,
    decreases e - pos,
{
    if pos < e {
        lemma_ident_len_exact(s, pos + 1, e);
    }
}

/// Content with the first quoted string of a `TYPE_NAME('...'` prefix
/// emptied, leaving everything else untouched.
pub open spec fn spec_strip_name(s: Seq<u8>) -> Seq<u8> {
    let p = ident_len(s, 0) as int;
    if p == 0 {
        s
    } else if p >= s.len() || s[p] != 40 {
        s
    } else if p + 1 >= s.len() || s[p + 1] != 39 {
        s
    } else {
        let q = find_byte2(s, 39, 39, p + 2);
        if q >= s.len() {
            s
        } else {
            s.subrange(0, p + 1) + seq![39u8, 39u8] + s.subrange(q + 1, s.len() as int)
        }
    }
}

/// Strip the quoted name from entity declarations like `PRODUCT('name'…`
/// by replacing the name with an empty string, for comparison only.
pub fn normalize_entity_name(rhs: &Vec<u8>) -> (r: Vec<u8>)
    ensures
        r@ == spec_strip_name(rhs@),
{
    let ghost sv = rhs@;
    let mut p: usize = 0;
    #[verifier::loop_isolation(false)]
    while p < rhs.len() && ((rhs[p] >= 65 && rhs[p] <= 90) || rhs[p] == 95)
        invariant
            p <= sv.len(),
            forall|k: int| 0 <= k < p ==> is_upper(sv[k]) || sv[k] == 95,
        decreases sv.len() - p,
    {
        p = p + 1;
    }
    proof {
        lemma_ident_len_exact(sv, 0, p as int);
    }
    if p == 0 {
        return copy_full(rhs);
    }
    if p >= rhs.len() || rhs[p] != 40 {
        return copy_full(rhs);
    }
    if p + 1 >= rhs.len() || rhs[p + 1] != 39 {
        return copy_full(rhs);
    }
    let mut q: usize = p + 2;
    #[verifier::loop_isolation(false)]
    while q < rhs.len() && rhs[q] != 39
        invariant
            p + 2 <= q <= sv.len(),
            forall|k: int| p + 2 <= k < q ==> sv[k] != 39,
        decreases sv.len() - q,
    {
        q = q + 1;
    }
    proof {
        lemma_find_byte2_exact(sv, 39, 39, p + 2, q as int);
    }
    if q >= rhs.len() {
        return copy_full(rhs);
    }
    let mut out = copy_range(rhs, 0, p + 1);
    out.push(39);
    out.push(39);
    push_range(&mut out, rhs, q + 1, rhs.len());
    proof {
        assert(out@ =~= sv.subrange(0, p + 1) + seq![39u8, 39u8] + sv.subrange(
            q + 1,
            sv.len() as int,
        ));
    }
    out
}

/// Full copy of a line.
fn copy_full(v: &Vec<u8>) -> (r: Vec<u8>)
    ensures
        r@ == v@,
{
    let r = copy_range(v, 0, v.len());
    proof {
        assert(v@.subrange(0, v@.len() as int) =~= v@);
    }
    r
}

/// Runtime test for [`is_ascii_space`].
fn is_space_byte(b: u8) -> (r: bool)
    ensures
        r == is_ascii_space(b),
{
    b == 9 || b == 10 || b == 12 || b == 13 || b == 32
}

/// Skip ASCII whitespace starting at `pos`, returning the new position.
pub fn skip_whitespace(bytes: &Vec<u8>, pos: usize) -> (r: usize)
    requires
        pos <= bytes@.len(),
    ensures
        r == pos + spaces_len(bytes@, pos as int),
        pos <= r <= bytes@.len(),
{
    let mut p: usize = pos;
    #[verifier::loop_isolation(false)]
    while p < bytes.len() && is_space_byte(bytes[p])
        invariant
            pos <= p <= bytes@.len(),
            forall|k: int| pos <= k < p ==> is_ascii_space(bytes@[k]),
        decreases bytes@.len() - p,
    {
        p = p + 1;
    }
    proof {
        lemma_spaces_len_exact(bytes@, pos as int, p as int);
    }
    p
}

/// Lower-cased byte, for ASCII-case-insensitive comparison.
pub open spec fn lower(b: u8) -> u8 {
    if is_upper(b) {
        (b + 32) as u8
    } else {
        b
    }
}

/// The keyword `kw` occurs at `pos` in `s`, ASCII-case-insensitively.
pub open spec fn ci_match_at(s: Seq<u8>, pos: int, kw: Seq<u8>) -> bool {
    forall|k: int| 0 <= k < kw.len() ==> lower(#[trigger] kw[k]) == lower(s[pos + k])
}

/// Position after a case-insensitive keyword match at `pos`, if any.
pub open spec fn spec_match_ci(s: Seq<u8>, pos: int, kw: Seq<u8>) -> Option<int> {
    if pos < 0 || pos + kw.len() > s.len() {
        None
    } else if ci_match_at(s, pos, kw) {
        Some(pos + kw.len())
    } else {
        None
    }
}

/// Check whether `bytes[pos..]` starts with `needle` (case-insensitive
/// ASCII); return the position after the needle if matched.
pub fn match_keyword_ci<const N: usize>(bytes: &Vec<u8>, pos: usize, needle: &[u8; N]) -> (r:
    Option<usize>)
    requires
        pos <= bytes@.len(),
    ensures
        match r {
            Some(e) => spec_match_ci(bytes@, pos as int, needle@) == Some(e as int),
            None => spec_match_ci(bytes@, pos as int, needle@) is None,
        },
{
    if bytes.len() - pos < N {
        return None;
    }
    let mut i: usize = 0;
    #[verifier::loop_isolation(false)]
    while i < N
        invariant
            i <= N,
            pos + N <= bytes@.len(),
            forall|k: int| 0 <= k < i ==> lower(#[trigger] needle@[k]) == lower(bytes@[pos + k]),
        decreases N - i,
    {
        let a = bytes[pos + i];
        let b = needle[i];
        let la = if a >= 65 && a <= 90 {
            a + 32
        } else {
            a
        };
        let lb = if b >= 65 && b <= 90 {
            b + 32
        } else {
            b
        };
        if la != lb {
            assert(lower(needle@[i as int]) != lower(bytes@[pos + i]));
            return None;
        }
        i = i + 1;
    }
    Some(pos + N)
}

pub const KW_UNCERTAINTY_MEASURE_WITH_UNIT: [u8; 29] = ['U' as u8, 'N' as u8, 'C' as u8, 'E' as u8, 'R' as u8, 'T' as u8, 'A' as u8, 'I' as u8, 'N' as u8, 'T' as u8, 'Y' as u8, '_' as u8, 'M' as u8, 'E' as u8, 'A' as u8, 'S' as u8, 'U' as u8, 'R' as u8, 'E' as u8, '_' as u8, 'W' as u8, 'I' as u8, 'T' as u8, 'H' as u8, '_' as u8, 'U' as u8, 'N' as u8, 'I' as u8, 'T' as u8];

pub const KW_LENGTH_MEASURE: [u8; 14] = ['L' as u8, 'E' as u8, 'N' as u8, 'G' as u8, 'T' as u8, 'H' as u8, '_' as u8, 'M' as u8, 'E' as u8, 'A' as u8, 'S' as u8, 'U' as u8, 'R' as u8, 'E' as u8];

/// Precision from the decimal magnitude of a value's leading significant
/// digit: one digit for values of one or more, one digit per leading
/// fractional zero plus two otherwise, saturated to 32 bits.
pub open spec fn prec_of_mag(ee: int) -> nat {
    if ee >= 0 {
        1
    } else if 1 - ee <= 0xFFFF_FFFF {
        (1 - ee) as nat
    } else {
        0xFFFF_FFFF
    }
}

/// Exponent of a decimal literal whose mantissa ends at `f_end`: zero when
/// the text ends there, the signed digit value after `e`/`E` when it fits a
/// 32-bit number, nothing otherwise.
pub open spec fn spec_lit_exp(t: Seq<u8>, f_end: int) -> Option<int> {
    if f_end == t.len() {
        Some(0)
    } else if 0 <= f_end < t.len() && (t[f_end] == 101 || t[f_end] == 69) {
        let q0 = f_end + 1;
        let q1: int = if q0 < t.len() && (t[q0] == 43 || t[q0] == 45) {
            q0 + 1
        } else {
            q0
        };
        let eneg = q0 < t.len() && t[q0] == 45;
        let el = digits_len(t, q1);
        if el > 0 && q1 + el == t.len() {
            let ev = digits_val(t.subrange(q1, t.len() as int));
            if eneg {
                if ev <= 0x8000_0000 {
                    Some(-(ev as int))
                } else {
                    None
                }
            } else {
                if ev <= 0x7FFF_FFFF {
                    Some(ev as int)
                } else {
                    None
                }
            }
        } else {
            None
        }
    } else {
        None
    }
}

/// Number of significant decimal places derived from a positive decimal
/// literal, or nothing when the text is not such a literal.
pub open spec fn spec_lit_precision(t: Seq<u8>) -> Option<nat> {
    let p0: int = if t.len() > 0 && (t[0] == 43 || t[0] == 45) {
        1
    } else {
        0
    };
    let neg = t.len() > 0 && t[0] == 45;
    let dl = digits_len(t, p0);
    let d = p0 + dl;
    let has_dot = d < t.len() && t[d] == 46;
    let fl: nat = if has_dot {
        digits_len(t, d + 1)
    } else {
        0
    };
    let f_end: int = if has_dot {
        d + 1 + fl
    } else {
        d
    };
    if dl == 0 && fl == 0 {
        None
    } else {
        match spec_lit_exp(t, f_end) {
            None => None,
            Some(e) => {
                let iz = find_not(t, 48, p0);
                if iz < d {
                    if neg {
                        None
                    } else {
                        Some(prec_of_mag(d - 1 - iz + e))
                    }
                } else if has_dot && find_not(t, 48, d + 1) < f_end {
                    if neg {
                        None
                    } else {
                        Some(prec_of_mag(e - (find_not(t, 48, d + 1) - d)))
                    }
                } else {
                    None
                }
            },
        }
    }
}

/// Digit-run value clamped just above the 32-bit signed range.
fn digits_val_clamped(t: &Vec<u8>, from: usize, to: usize) -> (r: u64)
    requires
        from <= to <= t@.len(),
        forall|k: int| from <= k < to ==> is_digit(t@[k]),
    ensures
        digits_val(t@.subrange(from as int, to as int)) <= 0x8000_0000 ==> r == digits_val(
            t@.subrange(from as int, to as int),
        ),
        digits_val(t@.subrange(from as int, to as int)) > 0x8000_0000 ==> r == 0x8000_0001,
{
    let ghost ds = t@.subrange(from as int, to as int);
    let mut acc: u64 = 0;
    let mut j: usize = from;
    #[verifier::loop_isolation(false)]
    while j < to
        invariant
            from <= j <= to,
            digits_val(ds.subrange(0, j - from)) <= 0x8000_0000 ==> acc == digits_val(
                ds.subrange(0, j - from),
            ),
            digits_val(ds.subrange(0, j - from)) > 0x8000_0000 ==> acc == 0x8000_0001,
        decreases to - j,
    {
        let d = t[j];
        proof {
            assert(ds.subrange(0, j - from + 1).drop_last() =~= ds.subrange(0, j - from));
            assert(ds.subrange(0, j - from + 1).last() == t@[j as int]);
        }
        let next = acc * 10 + ((d - 48) as u64);
        if next > 0x8000_0000 {
            acc = 0x8000_0001;
        } else {
            acc = next;
        }
        j = j + 1;
    }
    proof {
        assert(ds.subrange(0, ds.len() as int) =~= ds);
    }
    acc
}

/// Parse a trimmed value string as a positive decimal literal and derive its
/// precision.
#[verifier::rlimit(100)]
fn parse_uncert_value(t: &Vec<u8>) -> (r: Option<u32>)
    ensures
        match r {
            Some(v) => spec_lit_precision(t@) == Some(v as nat),
            None => spec_lit_precision(t@) is None,
        },
{
    let ghost tv = t@;
    let mut p0: usize = 0;
    let mut neg = false;
    if t.len() > 0 && (t[0] == 43 || t[0] == 45) {
        neg = t[0] == 45;
        p0 = 1;
    }
    let d = crate::find_numbers::eat_digits(t, p0);
    let dl = d - p0;
    let has_dot = d < t.len() && t[d] == 46;
    let f_end: usize = if has_dot {
        crate::find_numbers::eat_digits(t, d + 1)
    } else {
        d
    };
    let fl: usize = if has_dot {
        f_end - (d + 1)
    } else {
        0
    };
    if dl == 0 && fl == 0 {
        return None;
    }
    let e_val: i64;
    if f_end == t.len() {
        e_val = 0;
    } else if t[f_end] == 101 || t[f_end] == 69 {
        let q0 = f_end + 1;
        let mut q1 = q0;
        let mut eneg = false;
        if q0 < t.len() && (t[q0] == 43 || t[q0] == 45) {
            eneg = t[q0] == 45;
            q1 = q0 + 1;
        }
        let qe = crate::find_numbers::eat_digits(t, q1);
        if qe > q1 && qe == t.len() {
            proof {
                crate::bytes::lemma_digits_len(tv, q1 as int);
            }
            let ev = digits_val_clamped(t, q1, qe);
            if eneg {
                if ev <= 0x8000_0000 {
                    e_val = -(ev as i64);
                } else {
                    return None;
                }
            } else {
                if ev <= 0x7FFF_FFFF {
                    e_val = ev as i64;
                } else {
                    return None;
                }
            }
        } else {
            return None;
        }
    } else {
        return None;
    }
    proof {
        assert(Some(e_val as int) == spec_lit_exp(tv, f_end as int));
    }
    let mut iz: usize = p0;
    #[verifier::loop_isolation(false)]
    while iz < t.len() && t[iz] == 48
        invariant
            p0 <= iz <= tv.len(),
            forall|k: int| p0 <= k < iz ==> tv[k] == 48,
        decreases tv.len() - iz,
    {
        iz = iz + 1;
    }
    proof {
        lemma_find_not_exact(tv, 48, p0 as int, iz as int);
    }
    if iz < d {
        if neg {
            return None;
        }
        let ee: i128 = (d as i128) - 1 - (iz as i128) + (e_val as i128);
        if ee >= 0 {
            return Some(1);
        }
        let p: i128 = 1 - ee;
        if p <= 0xFFFF_FFFF {
            return Some(p as u32);
        }
        return Some(0xFFFF_FFFF);
    }
    if has_dot {
        let mut fz: usize = d + 1;
        #[verifier::loop_isolation(false)]
        while fz < t.len() && t[fz] == 48
            invariant
                d + 1 <= fz <= tv.len(),
                forall|k: int| d + 1 <= k < fz ==> tv[k] == 48,
            decreases tv.len() - fz,
        {
            fz = fz + 1;
        }
        proof {
            lemma_find_not_exact(tv, 48, d + 1 as int, fz as int);
        }
        if fz < f_end {
            if neg {
                return None;
            }
            let ee: i128 = (e_val as i128) - ((fz as i128) - (d as i128));
            if ee >= 0 {
                return Some(1);
            }
            let p: i128 = 1 - ee;
            if p <= 0xFFFF_FFFF {
                return Some(p as u32);
            }
            return Some(0xFFFF_FFFF);
        }
    }
    None
}

/// Uncertainty declaration parsed at one candidate position: the keyword,
/// parentheses and inner keyword, then the value up to the closing
/// parenthesis.
pub open spec fn spec_uncert_at(line: Seq<u8>, start: int) -> Option<nat> {
    match spec_match_ci(line, start, KW_UNCERTAINTY_MEASURE_WITH_UNIT@) {
        None => None,
        Some(p1) => {
            let p2 = p1 + spaces_len(line, p1);
            if p2 >= line.len() || line[p2] != 40 {
                None
            } else {
                let p3 = p2 + 1 + spaces_len(line, p2 + 1);
                match spec_match_ci(line, p3, KW_LENGTH_MEASURE@) {
                    None => None,
                    Some(p4) => {
                        let p5 = p4 + spaces_len(line, p4);
                        if p5 >= line.len() || line[p5] != 40 {
                            None
                        } else {
                            let p6 = p5 + 1 + spaces_len(line, p5 + 1);
                            let v_end = find_byte2(line, 41, 41, p6);
                            if v_end >= line.len() {
                                None
                            } else {
                                spec_lit_precision(spec_trim(line.subrange(p6, v_end)))
                            }
                        }
                    },
                }
            }
        },
    }
}

/// First uncertainty declaration at or after `start` in one line.
pub open spec fn spec_uncert_line(line: Seq<u8>, start: int) -> Option<nat>
    decreases line.len() - start,
{
    if start < 0 || start >= line.len() {
        None
    } else if spec_uncert_at(line, start) is Some {
        spec_uncert_at(line, start)
    } else {
        spec_uncert_line(line, start + 1)
    }
}

/// First uncertainty declaration in the lines at or after index `i`.
pub open spec fn spec_extract_uncertainty(lines: Seq<Seq<u8>>, i: int) -> Option<nat>
    decreases lines.len() - i,
{
    if i < 0 || i >= lines.len() {
        None
    } else if spec_uncert_line(lines[i], 0) is Some {
        spec_uncert_line(lines[i], 0)
    } else {
        spec_extract_uncertainty(lines, i + 1)
    }
}

/// Try to read an uncertainty declaration starting exactly at `start`.
fn uncert_at(line: &Vec<u8>, start: usize) -> (r: Option<u32>)
    requires
        start <= line@.len(),
    ensures
        match r {
            Some(v) => spec_uncert_at(line@, start as int) == Some(v as nat),
            None => spec_uncert_at(line@, start as int) is None,
        },
{
    let ghost lv = line@;
    let p1 = match match_keyword_ci(line, start, &KW_UNCERTAINTY_MEASURE_WITH_UNIT) {
        Some(p) => p,
        None => {
            return None;
        },
    };
    let p2 = skip_whitespace(line, p1);
    if p2 >= line.len() || line[p2] != 40 {
        return None;
    }
    let p3 = skip_whitespace(line, p2 + 1);
    let p4 = match match_keyword_ci(line, p3, &KW_LENGTH_MEASURE) {
        Some(p) => p,
        None => {
            return None;
        },
    };
    let p5 = skip_whitespace(line, p4);
    if p5 >= line.len() || line[p5] != 40 {
        return None;
    }
    let p6 = skip_whitespace(line, p5 + 1);
    let mut v_end: usize = p6;
    #[verifier::loop_isolation(false)]
    while v_end < line.len() && line[v_end] != 41
        invariant
            p6 <= v_end <= lv.len(),
            forall|k: int| p6 <= k < v_end ==> lv[k] != 41,
        decreases lv.len() - v_end,
    {
        v_end = v_end + 1;
    }
    proof {
        lemma_find_byte2_exact(lv, 41, 41, p6 as int, v_end as int);
    }
    if v_end >= line.len() {
        return None;
    }
    let val = trim_range(line, p6, v_end);
    parse_uncert_value(&val)
}

/// First uncertainty declaration anywhere in one line.
fn uncert_line(line: &Vec<u8>) -> (r: Option<u32>)
    ensures
        match r {
            Some(v) => spec_uncert_line(line@, 0) == Some(v as nat),
            None => spec_uncert_line(line@, 0) is None,
        },
{
    let mut start: usize = 0;
    #[verifier::loop_isolation(false)]
    while start < line.len()
        invariant
            start <= line@.len(),
            spec_uncert_line(line@, 0) == spec_uncert_line(line@, start as int),
        decreases line@.len() - start,
    {
        match uncert_at(line, start) {
            Some(v) => {
                return Some(v);
            },
            None => {
                start = start + 1;
            },
        }
    }
    None
}

/// Derive the number of significant decimal places from the file's
/// `UNCERTAINTY_MEASURE_WITH_UNIT(LENGTH_MEASURE(<value>))` declarations:
/// the first value in line order that parses as a positive decimal literal.
pub fn extract_uncertainty(data_lines: &Vec<Vec<u8>>) -> (r: Option<u32>)
    ensures
        match r {
            Some(v) => spec_extract_uncertainty(views_of(data_lines@), 0) == Some(v as nat),
            None => spec_extract_uncertainty(views_of(data_lines@), 0) is None,
        },
{
    let ghost lv = views_of(data_lines@);
    let mut i: usize = 0;
    #[verifier::loop_isolation(false)]
    while i < data_lines.len()
        invariant
            i <= lv.len(),
            lv.len() == data_lines@.len(),
            spec_extract_uncertainty(lv, 0) == spec_extract_uncertainty(lv, i as int),
        decreases lv.len() - i,
    {
        proof {
            assert(lv[i as int] == data_lines@[i as int]@);
        }
        match uncert_line(&data_lines[i]) {
            Some(v) => {
                return Some(v);
            },
            None => {
                i = i + 1;
            },
        }
    }
    None
}

} // verus!
