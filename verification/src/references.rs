//! Entity-reference tokens: every maximal `#` + digits run whose value fits
//! an id is a reference. The scanner finds them, the remapper rewrites them
//! through an id-to-id table, leaving unmapped tokens byte-for-byte unchanged.

use vstd::prelude::*;

use crate::bytes::{
    digits_len, digits_val, dec_rep, is_digit, lemma_digits_len, lemma_digits_len_exact,
    parse_u32_range, push_range, spec_trim, u32_to_dec,
};
use crate::table::{IdMap, IdSet};

verus! {

/// One byte past the digit run of a candidate reference starting at `pos`.
pub open spec fn ref_end(s: Seq<u8>, pos: int) -> int {
    pos + 1 + digits_len(s, pos + 1)
}

/// Value of the candidate reference starting at `pos`.
pub open spec fn ref_val(s: Seq<u8>, pos: int) -> nat {
    digits_val(s.subrange(pos + 1, ref_end(s, pos)))
}

/// A reference token starts at `pos`: a `#`, at least one digit, and a value
/// that fits in an id.
pub open spec fn ref_at(s: Seq<u8>, pos: int) -> bool {
    &&& 0 <= pos < s.len()
    &&& s[pos] == 35
    &&& digits_len(s, pos + 1) > 0
    &&& ref_val(s, pos) <= u32::MAX
}

/// All reference tokens at or after `pos`, in text order, as
/// (start, end, value) triples.
pub open spec fn scan_refs(s: Seq<u8>, pos: int) -> Seq<(int, int, nat)>
    decreases s.len() - pos,
    via scan_refs_dec
{
    if pos < 0 || pos >= s.len() {
        Seq::empty()
    } else if ref_at(s, pos) {
        seq![(pos, ref_end(s, pos), ref_val(s, pos))] + scan_refs(s, ref_end(s, pos))
    } else {
        scan_refs(s, pos + 1)
    }
}

#[via_fn]
proof fn scan_refs_dec(s: Seq<u8>, pos: int) {
    if 0 <= pos < s.len() {
        lemma_digits_len(s, pos + 1);
    }
}

/// The set of reference values appearing in `s`.
pub open spec fn spec_refs_of(s: Seq<u8>) -> Set<nat> {
    scan_refs(s, 0).map_values(|t: (int, int, nat)| t.2).to_set()
}

/// `s` with every reference token whose value the table maps rewritten to
/// `#` followed by the mapped value in canonical decimal form.
pub open spec fn spec_remap(s: Seq<u8>, m: Map<nat, nat>, pos: int) -> Seq<u8>
    decreases s.len() - pos,
    via spec_remap_dec
{
    if pos < 0 || pos >= s.len() {
        Seq::empty()
    } else if ref_at(s, pos) {
        (if m.dom().contains(ref_val(s, pos)) {
            seq![35u8] + dec_rep(m[ref_val(s, pos)])
        } else {
            s.subrange(pos, ref_end(s, pos))
        }) + spec_remap(s, m, ref_end(s, pos))
    } else {
        seq![s[pos]] + spec_remap(s, m, pos + 1)
    }
}

#[via_fn]
proof fn spec_remap_dec(s: Seq<u8>, m: Map<nat, nat>, pos: int) {
    if 0 <= pos < s.len() {
        lemma_digits_len(s, pos + 1);
    }
}

/// Just the values of the reference tokens at or after `pos`.
pub open spec fn scan_vals(s: Seq<u8>, pos: int) -> Seq<nat> {
    scan_refs(s, pos).map_values(|t: (int, int, nat)| t.2)
}

/// The value a reference token carries after remapping.
pub open spec fn apply_map(m: Map<nat, nat>, v: nat) -> nat {
    if m.dom().contains(v) {
        m[v]
    } else {
        v
    }
}

/// Digit runs look the same from inside a concatenation.
proof fn lemma_digits_len_concat(x: Seq<u8>, y: Seq<u8>, q: int)
    requires
        0 <= q <= y.len(),
    ensures
        digits_len(x + y, x.len() + q) == digits_len(y, q),
    decreases y.len() - q,
{
    if q < y.len() {
        assert((x + y)[x.len() + q] == y[q]);
        if is_digit(y[q]) {
            lemma_digits_len_concat(x, y, q + 1);
        }
    }
}

/// Scanning the tail of a concatenation yields the tail's own token values.
proof fn lemma_scan_vals_concat(x: Seq<u8>, y: Seq<u8>, q: int)
    requires
        0 <= q <= y.len(),
    ensures
        scan_vals(x + y, x.len() + q) == scan_vals(y, q),
    decreases y.len() - q,
{
    let s = x + y;
    let p = x.len() + q;
    if q >= y.len() {
        assert(scan_vals(s, p) =~= scan_vals(y, q));
    } else {
        assert(s[p] == y[q]);
        lemma_digits_len_concat(x, y, q + 1);
        if ref_at(y, q) {
            lemma_digits_len(y, q + 1);
            assert(s.subrange(p + 1, ref_end(s, p)) =~= y.subrange(q + 1, ref_end(y, q)));
            assert(ref_val(s, p) == ref_val(y, q));
            assert(ref_at(s, p));
            lemma_scan_vals_concat(x, y, ref_end(y, q));
            assert(scan_vals(s, p) =~= seq![ref_val(s, p)] + scan_vals(s, ref_end(s, p)));
            assert(scan_vals(y, q) =~= seq![ref_val(y, q)] + scan_vals(y, ref_end(y, q)));
        } else {
            if ref_at(s, p) {
                lemma_digits_len(y, q + 1);
                assert(s.subrange(p + 1, ref_end(s, p)) =~= y.subrange(q + 1, ref_end(y, q)));
                assert(ref_val(s, p) == ref_val(y, q));
                assert(ref_at(y, q));
            }
            lemma_scan_vals_concat(x, y, q + 1);
            assert(scan_vals(s, p) =~= scan_vals(s, p + 1));
            assert(scan_vals(y, q) =~= scan_vals(y, q + 1));
        }
    }
}

/// The rewritten text is never shorter than a byte per position, and starts
/// with either a token hash or the original byte.
proof fn lemma_remap_head(s: Seq<u8>, m: Map<nat, nat>, p: int)
    requires
        0 <= p,
    ensures
        p >= s.len() ==> spec_remap(s, m, p).len() == 0,
        p < s.len() ==> spec_remap(s, m, p).len() > 0 && (spec_remap(s, m, p)[0] == 35
            || spec_remap(s, m, p)[0] == s[p]),
{
    if p < s.len() && ref_at(s, p) {
        lemma_digits_len(s, p + 1);
        if m.dom().contains(ref_val(s, p)) {
            crate::bytes::lemma_dec_rep_digits(m[ref_val(s, p)]);
        }
    }
}

/// Rewriting leaves a digit run untouched.
proof fn lemma_remap_digit_run(s: Seq<u8>, m: Map<nat, nat>, p: int, k: int)
    requires
        0 <= p,
        0 <= k,
        p + k <= s.len(),
        forall|j: int| p <= j < p + k ==> is_digit(s[j]),
    ensures
        spec_remap(s, m, p) == s.subrange(p, p + k) + spec_remap(s, m, p + k),
    decreases k,
{
    if k == 0 {
        assert(s.subrange(p, p) =~= Seq::<u8>::empty());
        assert(spec_remap(s, m, p) =~= s.subrange(p, p) + spec_remap(s, m, p));
    } else {
        assert(!ref_at(s, p));
        lemma_remap_digit_run(s, m, p + 1, k - 1);
        assert(spec_remap(s, m, p) =~= s.subrange(p, p + k) + spec_remap(s, m, p + k));
    }
}

/// Rewriting preserves the token structure: the rewritten text's reference
/// values are exactly the original values, each sent through the table.
pub proof fn lemma_remap_scan_vals(s: Seq<u8>, m: Map<nat, nat>, pos: int)
    requires
        0 <= pos <= s.len(),
        forall|v: nat| #[trigger] m.dom().contains(v) ==> m[v] <= u32::MAX,
    ensures
        scan_vals(spec_remap(s, m, pos), 0) == scan_vals(s, pos).map_values(
            |v: nat| apply_map(m, v),
        ),
    decreases s.len() - pos,
{
    let out = spec_remap(s, m, pos);
    if pos >= s.len() {
        assert(scan_vals(out, 0) =~= scan_vals(s, pos).map_values(|v: nat| apply_map(m, v)));
    } else if ref_at(s, pos) {
        let e = ref_end(s, pos);
        let v = ref_val(s, pos);
        lemma_digits_len(s, pos + 1);
        let rest = spec_remap(s, m, e);
        lemma_remap_scan_vals(s, m, e);
        let chunk = if m.dom().contains(v) {
            seq![35u8] + dec_rep(m[v])
        } else {
            s.subrange(pos, e)
        };
        let dd = if m.dom().contains(v) {
            dec_rep(m[v])
        } else {
            s.subrange(pos + 1, e)
        };
        assert(chunk =~= seq![35u8] + dd);
        if m.dom().contains(v) {
            crate::bytes::lemma_dec_rep_digits(m[v]);
            crate::bytes::lemma_dec_rep_val(m[v]);
        } else {
            assert(digits_val(dd) == v);
        }
        assert(dd.len() >= 1);
        assert(forall|k: int| 0 <= k < dd.len() ==> is_digit(#[trigger] dd[k]));
        lemma_remap_head(s, m, e);
        assert(out =~= chunk + rest);
        assert(out[0] == 35);
        assert forall|k: int| 1 <= k < 1 + dd.len() implies is_digit(out[k]) by {
            assert(out[k] == dd[k - 1]);
        }
        if 1 + dd.len() < out.len() {
            assert(out[1 + dd.len() as int] == rest[0]);
            assert(e < s.len() ==> !is_digit(s[e]));
            assert(!is_digit(out[1 + dd.len() as int]));
        }
        proof_digits_exact(out, 1 + dd.len() as int);
        assert(out.subrange(1, 1 + dd.len() as int) =~= dd);
        assert(ref_val(out, 0) == digits_val(dd));
        assert(ref_at(out, 0));
        assert(ref_end(out, 0) == chunk.len());
        lemma_scan_vals_concat(chunk, rest, 0);
        assert(scan_vals(out, chunk.len() as int) == scan_vals(rest, 0));
        assert(scan_vals(out, 0) =~= seq![ref_val(out, 0)] + scan_vals(out, chunk.len() as int));
        assert(scan_vals(s, pos) =~= seq![v] + scan_vals(s, e));
        assert(scan_vals(s, pos).map_values(|vv: nat| apply_map(m, vv)) =~= seq![
            apply_map(m, v),
        ] + scan_vals(s, e).map_values(|vv: nat| apply_map(m, vv)));
        assert(ref_val(out, 0) == apply_map(m, v));
    } else {
        let rest = spec_remap(s, m, pos + 1);
        lemma_remap_scan_vals(s, m, pos + 1);
        assert(out =~= seq![s[pos]] + rest);
        if s[pos] == 35 {
            let dl = digits_len(s, pos + 1) as int;
            lemma_digits_len(s, pos + 1);
            if dl == 0 {
                lemma_remap_head(s, m, pos + 1);
                if out.len() > 1 {
                    assert(out[1] == rest[0]);
                    assert(pos + 1 < s.len() ==> !is_digit(s[pos + 1]));
                    assert(!is_digit(out[1]));
                }
                proof_digits_exact(out, 1);
                assert(!ref_at(out, 0));
            } else {
                let e2 = pos + 1 + dl;
                lemma_remap_digit_run(s, m, pos + 1, dl);
                lemma_remap_head(s, m, e2);
                assert(out =~= (seq![s[pos]] + s.subrange(pos + 1, e2)) + spec_remap(s, m, e2));
                assert forall|k: int| 1 <= k < 1 + dl implies is_digit(out[k]) by {
                    assert(out[k] == s[pos + k]);
                }
                if 1 + dl < out.len() {
                    assert(out[1 + dl] == spec_remap(s, m, e2)[0]);
                    assert(e2 < s.len() ==> !is_digit(s[e2]));
                    assert(!is_digit(out[1 + dl]));
                }
                proof_digits_exact(out, 1 + dl);
                assert(out.subrange(1, 1 + dl) =~= s.subrange(pos + 1, e2));
                assert(ref_val(out, 0) == ref_val(s, pos));
                assert(ref_val(s, pos) > u32::MAX);
                assert(!ref_at(out, 0));
            }
        } else {
            assert(!ref_at(out, 0));
        }
        lemma_scan_vals_concat(seq![s[pos]], rest, 0);
        assert(scan_vals(out, 0) =~= scan_vals(out, 1));
        assert(scan_vals(out, 1) == scan_vals(rest, 0));
        assert(scan_vals(s, pos) =~= scan_vals(s, pos + 1));
    }
}

/// The digit run after a leading hash ends exactly at `e`.
proof fn proof_digits_exact(out: Seq<u8>, e: int)
    requires
        1 <= e <= out.len(),
        forall|k: int| 1 <= k < e ==> is_digit(out[k]),
        e < out.len() ==> !is_digit(out[e]),
    ensures
        digits_len(out, 1) == e - 1,
{
    crate::bytes::lemma_digits_len_exact(out, 1, e);
}

/// Cutting off a token-free tail changes no token values.
proof fn lemma_scan_vals_take(s: Seq<u8>, b: int, p: int)
    requires
        0 <= p <= s.len(),
        0 <= b <= s.len(),
        forall|k: int| b <= k < s.len() ==> s[k] != 35 && !is_digit(s[k]),
    ensures
        scan_vals(s.subrange(0, b), p) == scan_vals(s, p),
    decreases s.len() - p,
{
    let sub = s.subrange(0, b);
    if p >= s.len() {
        assert(scan_vals(sub, p) =~= scan_vals(s, p));
    } else if p >= b {
        assert(s[p] != 35);
        assert(!ref_at(s, p));
        lemma_scan_vals_take(s, b, p + 1);
        assert(scan_vals(s, p) =~= scan_vals(s, p + 1));
        assert(scan_vals(sub, p) =~= scan_vals(sub, p + 1));
    } else {
        assert(sub[p] == s[p]);
        lemma_digits_len_take(s, b, p + 1);
        if ref_at(s, p) {
            lemma_digits_len(s, p + 1);
            assert(sub.subrange(p + 1, ref_end(sub, p)) =~= s.subrange(p + 1, ref_end(s, p)));
            assert(ref_val(sub, p) == ref_val(s, p));
            assert(ref_at(sub, p));
            lemma_scan_vals_take(s, b, ref_end(s, p));
            assert(scan_vals(s, p) =~= seq![ref_val(s, p)] + scan_vals(s, ref_end(s, p)));
            assert(scan_vals(sub, p) =~= seq![ref_val(sub, p)] + scan_vals(sub, ref_end(sub, p)));
        } else {
            if ref_at(sub, p) {
                lemma_digits_len(s, p + 1);
                assert(sub.subrange(p + 1, ref_end(sub, p)) =~= s.subrange(p + 1, ref_end(s, p)));
                assert(ref_at(s, p));
            }
            lemma_scan_vals_take(s, b, p + 1);
            assert(scan_vals(s, p) =~= scan_vals(s, p + 1));
            assert(scan_vals(sub, p) =~= scan_vals(sub, p + 1));
        }
    }
}

/// Digit runs are unaffected by cutting at a non-digit boundary.
proof fn lemma_digits_len_take(s: Seq<u8>, b: int, p: int)
    requires
        0 <= p <= b <= s.len(),
        forall|k: int| b <= k < s.len() ==> !is_digit(s[k]),
    ensures
        digits_len(s.subrange(0, b), p) == digits_len(s, p),
    decreases b - p,
{
    let sub = s.subrange(0, b);
    if p < b {
        assert(sub[p] == s[p]);
        if is_digit(s[p]) {
            lemma_digits_len_take(s, b, p + 1);
        }
    }
}

/// Positions that hold no hash contribute no tokens.
proof fn lemma_scan_vals_ws_prefix(s: Seq<u8>, p: int, a: int)
    requires
        0 <= p <= a <= s.len(),
        forall|k: int| p <= k < a ==> s[k] != 35,
    ensures
        scan_vals(s, p) == scan_vals(s, a),
    decreases a - p,
{
    if p < a {
        assert(!ref_at(s, p));
        lemma_scan_vals_ws_prefix(s, p + 1, a);
        assert(scan_vals(s, p) =~= scan_vals(s, p + 1));
    }
}

/// Trimming whitespace from the ends of a text changes no token values.
pub proof fn lemma_scan_vals_trim(s: Seq<u8>)
    ensures
        scan_vals(spec_trim(s), 0) == scan_vals(s, 0),
{
    let a = crate::bytes::trim_start_idx(s, 0);
    let b = crate::bytes::trim_end_idx(s, s.len() as int);
    crate::bytes::lemma_trim_start_idx_bounds(s, 0);
    crate::bytes::lemma_trim_end_idx_bounds(s, s.len() as int);
    if a >= b {
        assert forall|k: int| 0 <= k < s.len() implies s[k] != 35 by {
            if k < a {
                assert(crate::bytes::is_trim_space(s[k]));
            } else {
                assert(crate::bytes::is_trim_space(s[k]));
            }
        }
        lemma_scan_vals_ws_prefix(s, 0, s.len() as int);
        assert(scan_vals(s, s.len() as int) =~= Seq::<nat>::empty());
        assert(scan_vals(spec_trim(s), 0) =~= Seq::<nat>::empty());
    } else {
        let x = s.subrange(0, a);
        let y = s.subrange(a, s.len() as int);
        assert(s =~= x + y);
        lemma_scan_vals_concat(x, y, 0);
        assert(scan_vals(s, a) == scan_vals(y, 0));
        lemma_scan_vals_ws_prefix(s, 0, a);
        assert(y.subrange(0, b - a) =~= s.subrange(a, b));
        assert forall|k: int| b - a <= k < y.len() implies y[k] != 35 && !is_digit(y[k]) by {
            assert(y[k] == s[a + k]);
            assert(crate::bytes::is_trim_space(s[a + k]));
        }
        lemma_scan_vals_take(y, b - a, 0);
    }
}

/// A single reference match inside a byte string.
pub struct RefMatch {
    /// Offset of `#` in the source string.
    pub start: usize,
    /// Offset one past the last digit.
    pub end: usize,
    /// The parsed numeric value.
    pub value: u32,
}

/// The (start, end, value) triples described by a list of matches.
pub open spec fn ref_match_views(ms: Seq<RefMatch>) -> Seq<(int, int, nat)> {
    ms.map_values(|m: RefMatch| (m.start as int, m.end as int, m.value as nat))
}

/// Scan `v` for all of its reference tokens.
pub fn ref_matches(v: &Vec<u8>) -> (r: Vec<RefMatch>)
    ensures
        ref_match_views(r@) == scan_refs(v@, 0),
{
    let mut r: Vec<RefMatch> = Vec::new();
    let mut pos: usize = 0;
    #[verifier::loop_isolation(false)]
    while pos < v.len()
        invariant
            pos <= v@.len(),
            ref_match_views(r@) + scan_refs(v@, pos as int) =~= scan_refs(v@, 0),
        decreases v@.len() - pos,
    {
        let ghost prev = r@;
        if v[pos] == 35 {
            let mut e: usize = pos + 1;
            #[verifier::loop_isolation(false)]
            while e < v.len() && v[e] >= 48 && v[e] <= 57
                invariant
                    pos + 1 <= e <= v@.len(),
                    forall|k: int| pos + 1 <= k < e ==> is_digit(v@[k]),
                decreases v@.len() - e,
            {
                e = e + 1;
            }
            proof {
                lemma_digits_len_exact(v@, pos + 1, e as int);
            }
            if e > pos + 1 {
                match parse_u32_range(v, pos + 1, e) {
                    Some(value) => {
                        r.push(RefMatch { start: pos, end: e, value });
                        proof {
                            assert(ref_match_views(r@) =~= ref_match_views(prev) + seq![
                                (pos as int, e as int, value as nat),
                            ]);
                        }
                        pos = e;
                    },
                    None => {
                        assert(!ref_at(v@, pos as int));
                        pos = pos + 1;
                    },
                }
            } else {
                assert(!ref_at(v@, pos as int));
                pos = pos + 1;
            }
        } else {
            assert(!ref_at(v@, pos as int));
            pos = pos + 1;
        }
    }
    r
}

/// Collect the set of entity ids referenced from a right-hand side.
pub fn collect_references(rhs: &Vec<u8>) -> (r: IdSet)
    ensures
        r@ == spec_refs_of(rhs@),
        r.wf(),
{
    let ms = ref_matches(rhs);
    let ghost vals = scan_refs(rhs@, 0).map_values(|t: (int, int, nat)| t.2);
    let mut r = IdSet::new();
    let mut i: usize = 0;
    #[verifier::loop_isolation(false)]
    while i < ms.len()
        invariant
            i <= ms@.len(),
            ms@.len() == vals.len(),
            forall|j: int| 0 <= j < ms@.len() ==> (#[trigger] ms@[j]).value as nat == vals[j],
            r.wf(),
            r@ =~= vals.subrange(0, i as int).to_set(),
        decreases ms@.len() - i,
    {
        let ghost pre = vals.subrange(0, i as int);
        let ghost post = vals.subrange(0, i + 1 as int);
        proof {
            assert(post.drop_last() =~= pre);
            assert forall|x: nat| post.to_set().contains(x) implies pre.to_set().insert(
                vals[i as int],
            ).contains(x) by {
                let j = choose|j: int| 0 <= j < post.len() && post[j] == x;
                if j < pre.len() {
                    assert(pre[j] == x);
                }
            }
            assert forall|x: nat| pre.to_set().insert(vals[i as int]).contains(x) implies post
                .to_set().contains(x) by {
                if x == vals[i as int] {
                    assert(post[post.len() - 1] == x);
                } else {
                    let j = choose|j: int| 0 <= j < pre.len() && pre[j] == x;
                    assert(post[j] == x);
                }
            }
            assert(post.to_set() =~= pre.to_set().insert(vals[i as int]));
        }
        let value = ms[i].value;
        if !r.contains(value) {
            r.insert(value);
        }
        i = i + 1;
    }
    proof {
        assert(vals.subrange(0, vals.len() as int) =~= vals);
    }
    r
}

/// Rewrite every mapped reference token in `rhs` through `lookup`.
pub fn remap_references(rhs: &Vec<u8>, lookup: &IdMap) -> (r: Vec<u8>)
    ensures
        r@ == spec_remap(rhs@, lookup@, 0),
{
    let mut out: Vec<u8> = Vec::new();
    let mut pos: usize = 0;
    #[verifier::loop_isolation(false)]
    while pos < rhs.len()
        invariant
            pos <= rhs@.len(),
            out@ + spec_remap(rhs@, lookup@, pos as int) =~= spec_remap(rhs@, lookup@, 0),
        decreases rhs@.len() - pos,
    {
        let ghost prev = out@;
        if rhs[pos] == 35 {
            let mut e: usize = pos + 1;
            #[verifier::loop_isolation(false)]
            while e < rhs.len() && rhs[e] >= 48 && rhs[e] <= 57
                invariant
                    pos + 1 <= e <= rhs@.len(),
                    forall|k: int| pos + 1 <= k < e ==> is_digit(rhs@[k]),
                decreases rhs@.len() - e,
            {
                e = e + 1;
            }
            proof {
                lemma_digits_len_exact(rhs@, pos + 1, e as int);
            }
            let mut token_done = false;
            if e > pos + 1 {
                match parse_u32_range(rhs, pos + 1, e) {
                    Some(value) => {
                        assert(ref_at(rhs@, pos as int));
                        match lookup.get(value) {
                            Some(new_val) => {
                                out.push(35);
                                let mut digits = u32_to_dec(new_val);
                                out.append(&mut digits);
                                proof {
                                    assert(out@ =~= prev + (seq![35u8] + dec_rep(
                                        lookup@[value as nat],
                                    )));
                                }
                            },
                            None => {
                                push_range(&mut out, rhs, pos, e);
                            },
                        }
                        token_done = true;
                    },
                    None => {
                        assert(!ref_at(rhs@, pos as int));
                    },
                }
            } else {
                assert(!ref_at(rhs@, pos as int));
            }
            if token_done {
                pos = e;
            } else {
                out.push(rhs[pos]);
                proof {
                    assert(out@ =~= prev + seq![rhs@[pos as int]]);
                }
                pos = pos + 1;
            }
        } else {
            assert(!ref_at(rhs@, pos as int));
            out.push(rhs[pos]);
            proof {
                assert(out@ =~= prev + seq![rhs@[pos as int]]);
            }
            pos = pos + 1;
        }
    }
    out
}

} // verus!
