//! Mark/sweep removal of unreachable ("orphan") entities: a work-list walk
//! over the reference graph from the root-type entities, tolerant of cycles,
//! followed by renumbering and reference rewriting. With no roots present the
//! input is returned unchanged.

use vstd::prelude::*;

use crate::bytes::{copy_lines, dec_rep, eq_keyword, u32_to_dec, views_of};
use crate::deduplicate::{get_entity_type, spec_entity_type, spec_split_entity,
    split_entity_line};
use crate::references::{collect_references, remap_references, spec_refs_of, spec_remap};
use crate::table::{IdMap, IdSet};

verus! {

pub const RT_APPLICATION_CONTEXT: [u8; 19] = ['A' as u8, 'P' as u8, 'P' as u8, 'L' as u8, 'I' as u8, 'C' as u8, 'A' as u8, 'T' as u8, 'I' as u8, 'O' as u8, 'N' as u8, '_' as u8, 'C' as u8, 'O' as u8, 'N' as u8, 'T' as u8, 'E' as u8, 'X' as u8, 'T' as u8];

pub const RT_APPLICATION_PROTOCOL_DEFINITION: [u8; 31] = ['A' as u8, 'P' as u8, 'P' as u8, 'L' as u8, 'I' as u8, 'C' as u8, 'A' as u8, 'T' as u8, 'I' as u8, 'O' as u8, 'N' as u8, '_' as u8, 'P' as u8, 'R' as u8, 'O' as u8, 'T' as u8, 'O' as u8, 'C' as u8, 'O' as u8, 'L' as u8, '_' as u8, 'D' as u8, 'E' as u8, 'F' as u8, 'I' as u8, 'N' as u8, 'I' as u8, 'T' as u8, 'I' as u8, 'O' as u8, 'N' as u8];

pub const RT_CONTEXT_DEPENDENT_SHAPE_REPRESENTATION: [u8; 38] = ['C' as u8, 'O' as u8, 'N' as u8, 'T' as u8, 'E' as u8, 'X' as u8, 'T' as u8, '_' as u8, 'D' as u8, 'E' as u8, 'P' as u8, 'E' as u8, 'N' as u8, 'D' as u8, 'E' as u8, 'N' as u8, 'T' as u8, '_' as u8, 'S' as u8, 'H' as u8, 'A' as u8, 'P' as u8, 'E' as u8, '_' as u8, 'R' as u8, 'E' as u8, 'P' as u8, 'R' as u8, 'E' as u8, 'S' as u8, 'E' as u8, 'N' as u8, 'T' as u8, 'A' as u8, 'T' as u8, 'I' as u8, 'O' as u8, 'N' as u8];

pub const RT_DRAUGHTING_MODEL: [u8; 16] = ['D' as u8, 'R' as u8, 'A' as u8, 'U' as u8, 'G' as u8, 'H' as u8, 'T' as u8, 'I' as u8, 'N' as u8, 'G' as u8, '_' as u8, 'M' as u8, 'O' as u8, 'D' as u8, 'E' as u8, 'L' as u8];

pub const RT_MECHANICAL_DESIGN_GEOMETRIC_PRESENTATION_REPRESENTATION: [u8; 55] = ['M' as u8, 'E' as u8, 'C' as u8, 'H' as u8, 'A' as u8, 'N' as u8, 'I' as u8, 'C' as u8, 'A' as u8, 'L' as u8, '_' as u8, 'D' as u8, 'E' as u8, 'S' as u8, 'I' as u8, 'G' as u8, 'N' as u8, '_' as u8, 'G' as u8, 'E' as u8, 'O' as u8, 'M' as u8, 'E' as u8, 'T' as u8, 'R' as u8, 'I' as u8, 'C' as u8, '_' as u8, 'P' as u8, 'R' as u8, 'E' as u8, 'S' as u8, 'E' as u8, 'N' as u8, 'T' as u8, 'A' as u8, 'T' as u8, 'I' as u8, 'O' as u8, 'N' as u8, '_' as u8, 'R' as u8, 'E' as u8, 'P' as u8, 'R' as u8, 'E' as u8, 'S' as u8, 'E' as u8, 'N' as u8, 'T' as u8, 'A' as u8, 'T' as u8, 'I' as u8, 'O' as u8, 'N' as u8];

pub const RT_PRESENTATION_LAYER_ASSIGNMENT: [u8; 29] = ['P' as u8, 'R' as u8, 'E' as u8, 'S' as u8, 'E' as u8, 'N' as u8, 'T' as u8, 'A' as u8, 'T' as u8, 'I' as u8, 'O' as u8, 'N' as u8, '_' as u8, 'L' as u8, 'A' as u8, 'Y' as u8, 'E' as u8, 'R' as u8, '_' as u8, 'A' as u8, 'S' as u8, 'S' as u8, 'I' as u8, 'G' as u8, 'N' as u8, 'M' as u8, 'E' as u8, 'N' as u8, 'T' as u8];

pub const RT_PRODUCT_DEFINITION: [u8; 18] = ['P' as u8, 'R' as u8, 'O' as u8, 'D' as u8, 'U' as u8, 'C' as u8, 'T' as u8, '_' as u8, 'D' as u8, 'E' as u8, 'F' as u8, 'I' as u8, 'N' as u8, 'I' as u8, 'T' as u8, 'I' as u8, 'O' as u8, 'N' as u8];

pub const RT_SHAPE_DEFINITION_REPRESENTATION: [u8; 31] = ['S' as u8, 'H' as u8, 'A' as u8, 'P' as u8, 'E' as u8, '_' as u8, 'D' as u8, 'E' as u8, 'F' as u8, 'I' as u8, 'N' as u8, 'I' as u8, 'T' as u8, 'I' as u8, 'O' as u8, 'N' as u8, '_' as u8, 'R' as u8, 'E' as u8, 'P' as u8, 'R' as u8, 'E' as u8, 'S' as u8, 'E' as u8, 'N' as u8, 'T' as u8, 'A' as u8, 'T' as u8, 'I' as u8, 'O' as u8, 'N' as u8];

pub const RT_SHAPE_REPRESENTATION_RELATIONSHIP: [u8; 33] = ['S' as u8, 'H' as u8, 'A' as u8, 'P' as u8, 'E' as u8, '_' as u8, 'R' as u8, 'E' as u8, 'P' as u8, 'R' as u8, 'E' as u8, 'S' as u8, 'E' as u8, 'N' as u8, 'T' as u8, 'A' as u8, 'T' as u8, 'I' as u8, 'O' as u8, 'N' as u8, '_' as u8, 'R' as u8, 'E' as u8, 'L' as u8, 'A' as u8, 'T' as u8, 'I' as u8, 'O' as u8, 'N' as u8, 'S' as u8, 'H' as u8, 'I' as u8, 'P' as u8];

/// STEP entity types that serve as reachability roots. Any entity reachable
/// from one of these (transitively via `#NNN` references) is kept.
pub open spec fn spec_is_root_type(t: Seq<u8>) -> bool {
    ||| t == RT_APPLICATION_CONTEXT@
    ||| t == RT_APPLICATION_PROTOCOL_DEFINITION@
    ||| t == RT_CONTEXT_DEPENDENT_SHAPE_REPRESENTATION@
    ||| t == RT_DRAUGHTING_MODEL@
    ||| t == RT_MECHANICAL_DESIGN_GEOMETRIC_PRESENTATION_REPRESENTATION@
    ||| t == RT_PRESENTATION_LAYER_ASSIGNMENT@
    ||| t == RT_PRODUCT_DEFINITION@
    ||| t == RT_SHAPE_DEFINITION_REPRESENTATION@
    ||| t == RT_SHAPE_REPRESENTATION_RELATIONSHIP@
}

/// Runtime membership test for the root-type list.
pub fn is_root_entity(entity_type: &Vec<u8>) -> (r: bool)
    ensures
        r == spec_is_root_type(entity_type@),
{
    eq_keyword(entity_type, &RT_APPLICATION_CONTEXT)
        || eq_keyword(entity_type, &RT_APPLICATION_PROTOCOL_DEFINITION)
        || eq_keyword(entity_type, &RT_CONTEXT_DEPENDENT_SHAPE_REPRESENTATION)
        || eq_keyword(entity_type, &RT_DRAUGHTING_MODEL)
        || eq_keyword(entity_type, &RT_MECHANICAL_DESIGN_GEOMETRIC_PRESENTATION_REPRESENTATION)
        || eq_keyword(entity_type, &RT_PRESENTATION_LAYER_ASSIGNMENT)
        || eq_keyword(entity_type, &RT_PRODUCT_DEFINITION)
        || eq_keyword(entity_type, &RT_SHAPE_DEFINITION_REPRESENTATION)
        || eq_keyword(entity_type, &RT_SHAPE_REPRESENTATION_RELATIONSHIP)
}

/// Content and reference maps after the first `i` lines; a later line with
/// the same id overrides an earlier one.
pub open spec fn orph_maps_upto(lines: Seq<Seq<u8>>, i: int) -> (
    Map<nat, Seq<u8>>,
    Map<nat, Set<nat>>,
)
    decreases i,
{
    if i <= 0 {
        (Map::empty(), Map::empty())
    } else {
        let m = orph_maps_upto(lines, i - 1);
        match spec_split_entity(lines[i - 1]) {
            None => m,
            Some(pr) => (m.0.insert(pr.0, pr.1), m.1.insert(pr.0, spec_refs_of(pr.1))),
        }
    }
}

/// Ids whose entity carries a root type.
pub open spec fn spec_roots(ent: Map<nat, Seq<u8>>) -> Set<nat> {
    Set::new(|id: nat| ent.dom().contains(id) && spec_is_root_type(spec_entity_type(ent[id])))
}

/// `v` is reachable from the roots in at most `n` reference steps.
pub open spec fn reach_n(
    dom: Set<nat>,
    refs: Map<nat, Set<nat>>,
    roots: Set<nat>,
    v: nat,
    n: nat,
) -> bool
    decreases n,
{
    ||| roots.contains(v)
    ||| (n > 0 && dom.contains(v) && exists|u: nat|
        reach_n(dom, refs, roots, u, (n - 1) as nat) && dom.contains(u) && (#[trigger] refs[
            u
        ]).contains(v))
}

/// `v` is transitively reachable from some root.
pub open spec fn spec_reachable(
    dom: Set<nat>,
    refs: Map<nat, Set<nat>>,
    roots: Set<nat>,
    v: nat,
) -> bool {
    exists|n: nat| reach_n(dom, refs, roots, v, n)
}

/// All references of `u` that resolve inside `dom` land in `rset`.
pub open spec fn ref_closed(
    refs: Map<nat, Set<nat>>,
    dom: Set<nat>,
    rset: Set<nat>,
    u: nat,
) -> bool {
    forall|r: nat| #[trigger] refs[u].contains(r) && dom.contains(r) ==> rset.contains(r)
}

/// One reference step preserves reachability.
proof fn lemma_reach_step(
    dom: Set<nat>,
    refs: Map<nat, Set<nat>>,
    roots: Set<nat>,
    u: nat,
    v: nat,
)
    requires
        spec_reachable(dom, refs, roots, u),
        dom.contains(u),
        refs[u].contains(v),
        dom.contains(v),
    ensures
        spec_reachable(dom, refs, roots, v),
{
    let n = choose|n: nat| reach_n(dom, refs, roots, u, n);
    assert(reach_n(dom, refs, roots, v, (n + 1) as nat));
}

/// Without roots nothing is reachable.
proof fn lemma_no_roots_no_reach(
    dom: Set<nat>,
    refs: Map<nat, Set<nat>>,
    roots: Set<nat>,
    v: nat,
    n: nat,
)
    requires
        forall|x: nat| !roots.contains(x),
    ensures
        !reach_n(dom, refs, roots, v, n),
    decreases n,
{
    if reach_n(dom, refs, roots, v, n) {
        assert(!roots.contains(v));
        let u = choose|u: nat|
            reach_n(dom, refs, roots, u, (n - 1) as nat) && dom.contains(u) && (#[trigger] refs[
                u
            ]).contains(v);
        lemma_no_roots_no_reach(dom, refs, roots, u, (n - 1) as nat);
    }
}

/// A set that holds the roots and is closed under resolving references holds
/// everything reachable.
proof fn lemma_closed_complete(
    dom: Set<nat>,
    refs: Map<nat, Set<nat>>,
    roots: Set<nat>,
    rset: Set<nat>,
    v: nat,
    n: nat,
)
    requires
        forall|x: nat| roots.contains(x) ==> rset.contains(x),
        forall|u: nat| #[trigger] rset.contains(u) ==> ref_closed(refs, dom, rset, u),
    ensures
        reach_n(dom, refs, roots, v, n) ==> rset.contains(v),
    decreases n,
{
    if reach_n(dom, refs, roots, v, n) && !roots.contains(v) {
        let u = choose|u: nat|
            reach_n(dom, refs, roots, u, (n - 1) as nat) && dom.contains(u) && (#[trigger] refs[
                u
            ]).contains(v);
        lemma_closed_complete(dom, refs, roots, rset, u, (n - 1) as nat);
        assert(ref_closed(refs, dom, rset, u));
        assert(refs[u].contains(v) && dom.contains(v));
    }
}

/// Every id in the content map comes from some well-formed line.
proof fn lemma_maps_dom(lines: Seq<Seq<u8>>, i: int, id: nat)
    requires
        0 <= i <= lines.len(),
        orph_maps_upto(lines, i).0.dom().contains(id),
    ensures
        exists|j: int|
            0 <= j < i && (#[trigger] spec_split_entity(lines[j])) is Some && spec_split_entity(
                lines[j],
            ).unwrap().0 == id,
    decreases i,
{
    if i > 0 {
        let m = orph_maps_upto(lines, i - 1);
        match spec_split_entity(lines[i - 1]) {
            None => {
                lemma_maps_dom(lines, i - 1, id);
            },
            Some(pr) => {
                if pr.0 == id {
                    assert(spec_split_entity(lines[i - 1]) is Some);
                } else {
                    lemma_maps_dom(lines, i - 1, id);
                }
            },
        }
    }
}

/// A well-formed line's id is in the content map from that point on.
proof fn lemma_maps_dom_has(lines: Seq<Seq<u8>>, i: int, j: int)
    requires
        0 <= j < i <= lines.len(),
        spec_split_entity(lines[j]) is Some,
    ensures
        orph_maps_upto(lines, i).0.dom().contains(spec_split_entity(lines[j]).unwrap().0),
    decreases i,
{
    if j == i - 1 {
    } else {
        lemma_maps_dom_has(lines, i - 1, j);
    }
}

/// Renumber table and kept entities after filtering the first `i` lines to
/// the keep set.
pub open spec fn orph_keep_upto(lines: Seq<Seq<u8>>, keep: Set<nat>, i: int) -> (
    Map<nat, nat>,
    Seq<(nat, Seq<u8>)>,
)
    decreases i,
{
    if i <= 0 {
        (Map::empty(), Seq::empty())
    } else {
        let m = orph_keep_upto(lines, keep, i - 1);
        match spec_split_entity(lines[i - 1]) {
            None => m,
            Some(pr) => {
                if keep.contains(pr.0) {
                    (m.0.insert(pr.0, m.1.len() + 1), m.1.push((m.1.len() + 1, pr.1)))
                } else {
                    m
                }
            },
        }
    }
}

/// Result of the orphan phase: the input unchanged when no root entity
/// exists, otherwise exactly the reachable entities in their original order,
/// renumbered sequentially and with references rewritten.
pub open spec fn spec_remove_orphans(lines: Seq<Seq<u8>>) -> Seq<Seq<u8>> {
    let maps = orph_maps_upto(lines, lines.len() as int);
    let roots = spec_roots(maps.0);
    if forall|x: nat| !roots.contains(x) {
        lines
    } else {
        let keep = Set::new(|v: nat| spec_reachable(maps.0.dom(), maps.1, roots, v));
        let kept = orph_keep_upto(lines, keep, lines.len() as int);
        Seq::new(
            kept.1.len(),
            |i: int| seq![35u8] + dec_rep(kept.1[i].0) + seq![61u8] + spec_remap(
                kept.1[i].1,
                kept.0,
                0,
            ),
        )
    }
}

/// The content map seen through the index table and backing stores.
pub open spec fn store_map(idx: Map<nat, nat>, store: Seq<Vec<u8>>) -> Map<nat, Seq<u8>> {
    Map::new(|id: nat| idx.dom().contains(id), |id: nat| store[idx[id] as int]@)
}

/// The reference map seen through the index table and backing stores.
pub open spec fn store_refs(idx: Map<nat, nat>, store: Seq<IdSet>) -> Map<nat, Set<nat>> {
    Map::new(|id: nat| idx.dom().contains(id), |id: nat| store[idx[id] as int]@)
}

/// `v` occurs in the work list.
pub open spec fn stack_has(st: Seq<u32>, v: nat) -> bool {
    exists|k: int| 0 <= k < st.len() && (#[trigger] st[k]) as nat == v
}

/// Visit every reference of one popped entity: mark and push the ids that
/// resolve and are not yet marked.
#[verifier::rlimit(50)]
fn process_refs(
    reachable: &mut IdSet,
    stack: &mut Vec<u32>,
    rset: &IdSet,
    lookup: &IdMap,
    Ghost(dom): Ghost<Set<nat>>,
    Ghost(refsm): Ghost<Map<nat, Set<nat>>>,
    Ghost(roots): Ghost<Set<nat>>,
    Ghost(u): Ghost<nat>,
)
    requires
        old(reachable).wf(),
        lookup@.dom() == dom,
        rset@ == refsm[u],
        dom.contains(u),
        spec_reachable(dom, refsm, roots, u),
        forall|v: nat| #[trigger] old(reachable)@.contains(v) ==> dom.contains(v),
        forall|v: nat|
            #[trigger] old(reachable)@.contains(v) ==> spec_reachable(dom, refsm, roots, v),
    ensures
        final(reachable).wf(),
        forall|v: nat| old(reachable)@.contains(v) ==> final(reachable)@.contains(v),
        forall|v: nat| #[trigger] final(reachable)@.contains(v) ==> dom.contains(v),
        forall|v: nat|
            #[trigger] final(reachable)@.contains(v) ==> spec_reachable(dom, refsm, roots, v),
        forall|v: nat|
            #[trigger] final(reachable)@.contains(v) ==> old(reachable)@.contains(v) || (
            rset@.contains(v) && dom.contains(v)),
        forall|r: nat|
            #[trigger] rset@.contains(r) && dom.contains(r) ==> final(reachable)@.contains(r),
        forall|v: nat| stack_has(old(stack)@, v) ==> stack_has(final(stack)@, v),
        forall|k: int|
            0 <= k < final(stack)@.len() ==> old(stack)@.len() <= k || final(stack)@[k]
                == old(stack)@[k],
        forall|k: int|
            old(stack)@.len() <= k < final(stack)@.len() ==> final(reachable)@.contains(
                (#[trigger] final(stack)@[k]) as nat,
            ) && !old(reachable)@.contains(final(stack)@[k] as nat),
        forall|v: nat|
            #[trigger] final(reachable)@.contains(v) && !old(reachable)@.contains(v) ==> stack_has(
                final(stack)@,
                v,
            ),
        final(reachable)@.finite(),
        old(reachable)@.finite(),
        final(stack)@.len() >= old(stack)@.len(),
        final(stack)@.len() - old(stack)@.len() == final(reachable)@.len()
            - old(reachable)@.len(),
{
    proof {
        old(reachable).lemma_finite();
    }
    let items = rset.as_vec();
    let mut m: usize = 0;
    #[verifier::loop_isolation(false)]
    while m < items.len()
        invariant
            m <= items@.len(),
            reachable.wf(),
            reachable@.finite(),
            forall|v: nat| old(reachable)@.contains(v) ==> reachable@.contains(v),
            forall|v: nat| #[trigger] reachable@.contains(v) ==> dom.contains(v),
            forall|v: nat|
                #[trigger] reachable@.contains(v) ==> spec_reachable(dom, refsm, roots, v),
            forall|v: nat|
                #[trigger] reachable@.contains(v) ==> old(reachable)@.contains(v) || (
                rset@.contains(v) && dom.contains(v)),
            forall|j: int|
                0 <= j < m ==> !dom.contains(#[trigger] items@[j] as nat) || reachable@.contains(
                    items@[j] as nat,
                ),
            forall|v: nat| stack_has(old(stack)@, v) ==> stack_has(stack@, v),
            stack@.len() >= old(stack)@.len(),
            forall|k: int|
                0 <= k < stack@.len() ==> old(stack)@.len() <= k || stack@[k] == old(stack)@[k],
            forall|k: int|
                old(stack)@.len() <= k < stack@.len() ==> reachable@.contains(
                    (#[trigger] stack@[k]) as nat,
                ) && !old(reachable)@.contains(stack@[k] as nat),
            forall|v: nat|
                #[trigger] reachable@.contains(v) && !old(reachable)@.contains(v) ==> stack_has(
                    stack@,
                    v,
                ),
            stack@.len() - old(stack)@.len() == reachable@.len() - old(reachable)@.len(),
        decreases items@.len() - m,
    {
        let r = items[m];
        let already = reachable.contains(r);
        if !already {
            if lookup.contains_key(r) {
                let ghost pre_stack = stack@;
                proof {
                    lemma_reach_step(dom, refsm, roots, u, r as nat);
                }
                reachable.insert(r);
                stack.push(r);
                proof {
                    assert(stack@[stack@.len() - 1] as nat == r as nat);
                    assert forall|v: nat| stack_has(pre_stack, v) implies stack_has(
                        stack@,
                        v,
                    ) by {
                        let k = choose|k: int|
                            0 <= k < pre_stack.len() && (#[trigger] pre_stack[k]) as nat == v;
                        assert(stack@[k] as nat == v);
                    }
                    assert forall|v: nat|
                        reachable@.contains(v) && !old(reachable)@.contains(v) implies stack_has(
                        stack@,
                        v,
                    ) by {
                        if v == r as nat {
                            assert(stack@[stack@.len() - 1] as nat == v);
                        } else {
                            let k = choose|k: int|
                                0 <= k < pre_stack.len() && (#[trigger] pre_stack[k]) as nat == v;
                            assert(stack@[k] as nat == v);
                        }
                    }
                }
            }
        }
        m = m + 1;
    }
    proof {
        assert forall|r: nat| rset@.contains(r) && dom.contains(r) implies reachable@.contains(
            r,
        ) by {
            let items_v = items@.map_values(|x: u32| x as nat);
            let j = choose|j: int| 0 <= j < items_v.len() && items_v[j] == r;
            assert(items@[j] as nat == r);
        }
    }
}

/// Remove unreachable entities from the data section.
///
/// Starting from the root-type entities, a forward-reference walk marks all
/// transitively reachable entities; the rest are dropped and the survivors
/// renumbered from one. If no roots are found, all lines are returned
/// unchanged.
#[verifier::rlimit(100)]
pub fn remove_orphans(lines: &Vec<Vec<u8>>) -> (r: Vec<Vec<u8>>)
    requires
        lines@.len() < u32::MAX,
    ensures
        views_of(r@) == spec_remove_orphans(views_of(lines@)),
{
    let ghost lv = views_of(lines@);
    let mut idx = IdMap::new();
    let mut rhs_store: Vec<Vec<u8>> = Vec::new();
    let mut refs_store: Vec<IdSet> = Vec::new();
    let mut i: usize = 0;
    proof {
        assert(store_map(idx@, rhs_store@) =~= orph_maps_upto(lv, 0).0);
        assert(store_refs(idx@, refs_store@) =~= orph_maps_upto(lv, 0).1);
    }
    #[verifier::loop_isolation(false)]
    while i < lines.len()
        invariant
            i <= lv.len(),
            lv.len() == lines@.len(),
            rhs_store@.len() == refs_store@.len(),
            rhs_store@.len() <= i,
            forall|id: nat| #[trigger] idx@.dom().contains(id) ==> idx@[id] < rhs_store@.len(),
            store_map(idx@, rhs_store@) == orph_maps_upto(lv, i as int).0,
            store_refs(idx@, refs_store@) == orph_maps_upto(lv, i as int).1,
        decreases lv.len() - i,
    {
        proof {
            assert(lv[i as int] == lines@[i as int]@);
        }
        match split_entity_line(&lines[i]) {
            None => {},
            Some(pair) => {
                let id = pair.0;
                let rhs = pair.1;
                let rset = collect_references(&rhs);
                let slot = rhs_store.len() as u32;
                rhs_store.push(rhs);
                refs_store.push(rset);
                idx.insert(id, slot);
                proof {
                    assert(store_map(idx@, rhs_store@) =~= orph_maps_upto(
                        lv,
                        i as int,
                    ).0.insert(id as nat, rhs_store@.last()@));
                    assert(store_refs(idx@, refs_store@) =~= orph_maps_upto(
                        lv,
                        i as int,
                    ).1.insert(id as nat, refs_store@.last()@));
                }
            },
        }
        i = i + 1;
    }
    let ghost entmap = orph_maps_upto(lv, lv.len() as int).0;
    let ghost refsm = orph_maps_upto(lv, lv.len() as int).1;
    let ghost dom = entmap.dom();
    let ghost roots = spec_roots(entmap);
    proof {
        idx.lemma_dom_finite();
        assert(dom =~= idx@.dom());
        assert(refsm.dom() =~= idx@.dom());
    }
    // Seed the reachable set from root-type entities.
    let mut reachable = IdSet::new();
    let mut stack: Vec<u32> = Vec::new();
    let mut j: usize = 0;
    #[verifier::loop_isolation(false)]
    while j < lines.len()
        invariant
            j <= lv.len(),
            lv.len() == lines@.len(),
            reachable.wf(),
            reachable@.finite(),
            forall|v: nat| #[trigger] reachable@.contains(v) ==> roots.contains(v),
            forall|jj: int|
                0 <= jj < j && (#[trigger] spec_split_entity(lv[jj])) is Some && roots.contains(
                    spec_split_entity(lv[jj]).unwrap().0,
                ) ==> reachable@.contains(spec_split_entity(lv[jj]).unwrap().0),
            forall|k: int|
                0 <= k < stack@.len() ==> reachable@.contains((#[trigger] stack@[k]) as nat),
            forall|v: nat| #[trigger] reachable@.contains(v) ==> stack_has(stack@, v),
        decreases lv.len() - j,
    {
        proof {
            assert(lv[j as int] == lines@[j as int]@);
        }
        match split_entity_line(&lines[j]) {
            None => {},
            Some(pair) => {
                let id = pair.0;
                match idx.get(id) {
                    None => {
                        proof {
                            lemma_maps_dom_has(lv, lv.len() as int, j as int);
                            assert(idx@.dom().contains(id as nat));
                        }
                    },
                    Some(slot) => {
                        let ty = get_entity_type(&rhs_store[slot as usize]);
                        proof {
                            assert(entmap[id as nat] == rhs_store@[slot as int]@);
                        }
                        if is_root_entity(&ty) {
                            if !reachable.contains(id) {
                                let ghost pre_stack = stack@;
                                reachable.insert(id);
                                stack.push(id);
                                proof {
                                    assert(stack@[stack@.len() - 1] as nat == id as nat);
                                    assert forall|v: nat|
                                        reachable@.contains(v) implies stack_has(stack@, v) by {
                                        if v == id as nat {
                                            assert(stack@[stack@.len() - 1] as nat == v);
                                        } else {
                                            let k = choose|k: int|
                                                0 <= k < pre_stack.len() && (#[trigger] pre_stack[
                                                    k
                                                ]) as nat == v;
                                            assert(stack@[k] as nat == v);
                                        }
                                    }
                                }
                            }
                        }
                    },
                }
            },
        }
        j = j + 1;
    }
    proof {
        assert forall|v: nat| roots.contains(v) implies reachable@.contains(v) by {
            lemma_maps_dom(lv, lv.len() as int, v);
            let jj = choose|jj: int|
                0 <= jj < lv.len() && (#[trigger] spec_split_entity(lv[jj])) is Some
                    && spec_split_entity(lv[jj]).unwrap().0 == v;
            assert(reachable@.contains(spec_split_entity(lv[jj]).unwrap().0));
        }
        assert forall|v: nat| #[trigger] reachable@.contains(v) implies spec_reachable(
            dom,
            refsm,
            roots,
            v,
        ) by {
            assert(reach_n(dom, refsm, roots, v, 0));
        }
        assert forall|v: nat| #[trigger] reachable@.contains(v) implies dom.contains(v) by {
            assert(roots.contains(v));
        }
        lemma_len_subset_helper(reachable@, dom);
    }
    // Walk forward references.
    #[verifier::loop_isolation(false)]
    while stack.len() > 0
        invariant
            reachable.wf(),
            reachable@.finite(),
            dom.finite(),
            reachable@.len() <= dom.len(),
            forall|v: nat| #[trigger] reachable@.contains(v) ==> dom.contains(v),
            forall|v: nat|
                #[trigger] reachable@.contains(v) ==> spec_reachable(dom, refsm, roots, v),
            forall|v: nat| roots.contains(v) ==> reachable@.contains(v),
            forall|k: int|
                0 <= k < stack@.len() ==> reachable@.contains((#[trigger] stack@[k]) as nat),
            forall|u: nat|
                #[trigger] reachable@.contains(u) && !stack_has(stack@, u) ==> ref_closed(
                    refsm,
                    dom,
                    reachable@,
                    u,
                ),
        decreases dom.len() - reachable@.len(), stack@.len(),
    {
        let ghost pre_reach = reachable@;
        let ghost pre_stack = stack@;
        let eid = stack.pop().unwrap();
        proof {
            assert(pre_stack[pre_stack.len() - 1] == eid);
            assert(reachable@.contains(eid as nat));
        }
        match idx.get(eid) {
            None => {
                proof {
                    assert(dom.contains(eid as nat));
                }
            },
            Some(slot) => {
                proof {
                    assert(refsm[eid as nat] == refs_store@[slot as int]@);
                }
                let rset_ref = &refs_store[slot as usize];
                process_refs(
                    &mut reachable,
                    &mut stack,
                    rset_ref,
                    &idx,
                    Ghost(dom),
                    Ghost(refsm),
                    Ghost(roots),
                    Ghost(eid as nat),
                );
                proof {
                    lemma_len_subset_helper(reachable@, dom);
                    assert forall|u: nat|
                        #[trigger] reachable@.contains(u) && !stack_has(stack@, u) implies
                        ref_closed(refsm, dom, reachable@, u) by {
                        if u == eid as nat {
                            assert forall|rr: nat|
                                #[trigger] refsm[u].contains(rr) && dom.contains(rr) implies
                                reachable@.contains(rr) by {}
                        } else if pre_reach.contains(u) {
                            if stack_has(pre_stack, u) {
                                let k = choose|k: int|
                                    0 <= k < pre_stack.len() && (#[trigger] pre_stack[k]) as nat
                                        == u;
                                assert(k != pre_stack.len() - 1);
                                assert(stack@.len() >= pre_stack.len() - 1);
                                assert(stack@[k] as nat == u);
                                assert(stack_has(stack@, u));
                                assert(false);
                            }
                            assert(ref_closed(refsm, dom, pre_reach, u));
                            assert forall|rr: nat|
                                #[trigger] refsm[u].contains(rr) && dom.contains(rr) implies
                                reachable@.contains(rr) by {
                                assert(pre_reach.contains(rr));
                            }
                        } else {
                            assert(stack_has(stack@, u));
                            assert(false);
                        }
                    }
                }
            },
        }
    }
    // The reachable set is final and closed.
    let ghost keep = Set::new(|v: nat| spec_reachable(dom, refsm, roots, v));
    let is_empty = reachable.len() == 0;
    if is_empty {
        proof {
            assert forall|x: nat| !roots.contains(x) by {
                if roots.contains(x) {
                    assert(reachable@.contains(x));
                    reachable.lemma_finite();
                    assert(false);
                }
            }
        }
        let out = copy_lines(lines);
        proof {
            assert(views_of(out@) =~= spec_remove_orphans(lv));
        }
        return out;
    }
    proof {
        assert(reachable@.len() != 0);
        assert(!(forall|x: nat| !roots.contains(x))) by {
            if forall|x: nat| !roots.contains(x) {
                assert forall|v: nat| !reachable@.contains(v) by {
                    if reachable@.contains(v) {
                        let n = choose|n: nat| reach_n(dom, refsm, roots, v, n);
                        lemma_no_roots_no_reach(dom, refsm, roots, v, n);
                    }
                }
                assert(reachable@ =~= Set::<nat>::empty());
                assert(false);
            }
        }
        assert forall|v: nat| #[trigger] keep.contains(v) implies reachable@.contains(v) by {
            let n = choose|n: nat| reach_n(dom, refsm, roots, v, n);
            lemma_closed_complete(dom, refsm, roots, reachable@, v, n);
        }
        assert(reachable@ =~= keep);
    }
    // Rebuild with only reachable entities, renumbered.
    let mut renumber = IdMap::new();
    let mut kept: Vec<(u32, Vec<u8>)> = Vec::new();
    let mut p: usize = 0;
    #[verifier::loop_isolation(false)]
    while p < lines.len()
        invariant
            p <= lv.len(),
            lv.len() == lines@.len(),
            kept@.len() <= p,
            renumber@ == orph_keep_upto(lv, keep, p as int).0,
            crate::deduplicate::kept_views(kept@) == orph_keep_upto(lv, keep, p as int).1,
            reachable@ == keep,
        decreases lv.len() - p,
    {
        proof {
            assert(lv[p as int] == lines@[p as int]@);
        }
        match split_entity_line(&lines[p]) {
            None => {},
            Some(pair) => {
                let id = pair.0;
                let rhs = pair.1;
                if reachable.contains(id) {
                    let new_id: u32 = (kept.len() as u32) + 1;
                    renumber.insert(id, new_id);
                    kept.push((new_id, rhs));
                    proof {
                        assert(crate::deduplicate::kept_views(kept@) =~= orph_keep_upto(
                            lv,
                            keep,
                            p as int,
                        ).1.push((new_id as nat, kept@.last().1@)));
                    }
                }
            },
        }
        p = p + 1;
    }
    let ghost keptf = orph_keep_upto(lv, keep, lv.len() as int);
    let ghost target = spec_remove_orphans(lv);
    proof {
        assert(target == Seq::new(
            keptf.1.len(),
            |i: int| seq![35u8] + dec_rep(keptf.1[i].0) + seq![61u8] + spec_remap(
                keptf.1[i].1,
                keptf.0,
                0,
            ),
        ));
    }
    let mut out: Vec<Vec<u8>> = Vec::new();
    let mut k: usize = 0;
    #[verifier::loop_isolation(false)]
    while k < kept.len()
        invariant
            k <= kept@.len(),
            out@.len() == k,
            target.len() == kept@.len(),
            crate::deduplicate::kept_views(kept@) == keptf.1,
            renumber@ == keptf.0,
            forall|jj: int| 0 <= jj < k ==> (#[trigger] out@[jj])@ == target[jj],
        decreases kept@.len() - k,
    {
        let mut line: Vec<u8> = Vec::new();
        line.push(35);
        let mut digits = u32_to_dec(kept[k].0);
        line.append(&mut digits);
        line.push(61);
        let mut rewritten = remap_references(&kept[k].1, &renumber);
        line.append(&mut rewritten);
        proof {
            assert(crate::deduplicate::kept_views(kept@)[k as int] == (
                kept@[k as int].0 as nat,
                kept@[k as int].1@,
            ));
            assert(line@ =~= seq![35u8] + dec_rep(keptf.1[k as int].0) + seq![61u8] + spec_remap(
                keptf.1[k as int].1,
                keptf.0,
                0,
            ));
        }
        out.push(line);
        k = k + 1;
    }
    proof {
        assert(views_of(out@) =~= target);
    }
    out
}

/// The content map's ids are exactly the ids of the well-formed lines.
proof fn lemma_maps_dom_eq_line_ids(lines: Seq<Seq<u8>>, i: int)
    requires
        0 <= i <= lines.len(),
    ensures
        orph_maps_upto(lines, i).0.dom() =~= crate::deduplicate::line_ids_upto(lines, i),
    decreases i,
{
    if i > 0 {
        lemma_maps_dom_eq_line_ids(lines, i - 1);
    }
}

/// With unique ids, a line's id maps to that line's own content.
proof fn lemma_unique_maps(lines: Seq<Seq<u8>>, i: int, j: int)
    requires
        0 <= j < i <= lines.len(),
        spec_split_entity(lines[j]) is Some,
        forall|k: int, l: int|
            0 <= k < l < lines.len() && (#[trigger] spec_split_entity(lines[k])) is Some && (
            #[trigger] spec_split_entity(lines[l])) is Some ==> spec_split_entity(
                lines[k],
            ).unwrap().0 != spec_split_entity(lines[l]).unwrap().0,
    ensures
        orph_maps_upto(lines, i).0.dom().contains(spec_split_entity(lines[j]).unwrap().0),
        orph_maps_upto(lines, i).0[spec_split_entity(lines[j]).unwrap().0] == spec_split_entity(
            lines[j],
        ).unwrap().1,
        orph_maps_upto(lines, i).1[spec_split_entity(lines[j]).unwrap().0] == spec_refs_of(
            spec_split_entity(lines[j]).unwrap().1,
        ),
    decreases i,
{
    if j == i - 1 {
    } else {
        lemma_unique_maps(lines, i - 1, j);
        if spec_split_entity(lines[i - 1]) is Some {
            assert(spec_split_entity(lines[i - 1]).unwrap().0 != spec_split_entity(
                lines[j],
            ).unwrap().0);
        }
    }
}

/// Renumber-table facts after filtering the first `i` lines: kept ids are
/// sequential, the table's domain is the kept line ids, and its values stay
/// within the kept count.
proof fn lemma_keep_bounds(lines: Seq<Seq<u8>>, keep: Set<nat>, i: int)
    requires
        0 <= i <= lines.len(),
    ensures
        orph_keep_upto(lines, keep, i).1.len() <= i,
        forall|n: int|
            0 <= n < orph_keep_upto(lines, keep, i).1.len() ==> (#[trigger] orph_keep_upto(
                lines,
                keep,
                i,
            ).1[n]).0 == n + 1,
        forall|id: nat| #[trigger]
            orph_keep_upto(lines, keep, i).0.dom().contains(id) <==> (
            crate::deduplicate::line_ids_upto(lines, i).contains(id) && keep.contains(id)),
        forall|id: nat| #[trigger]
            orph_keep_upto(lines, keep, i).0.dom().contains(id) ==> 1 <= orph_keep_upto(
                lines,
                keep,
                i,
            ).0[id] <= orph_keep_upto(lines, keep, i).1.len(),
    decreases i,
{
    if i > 0 {
        lemma_keep_bounds(lines, keep, i - 1);
    }
}

/// Every kept entity is the content of some well-formed line whose id is in
/// the keep set.
proof fn lemma_keep_provenance(lines: Seq<Seq<u8>>, keep: Set<nat>, i: int, n: int)
    requires
        0 <= i <= lines.len(),
        0 <= n < orph_keep_upto(lines, keep, i).1.len(),
    ensures
        exists|j: int|
            0 <= j < i && (#[trigger] spec_split_entity(lines[j])) is Some && keep.contains(
                spec_split_entity(lines[j]).unwrap().0,
            ) && orph_keep_upto(lines, keep, i).1[n].1 == spec_split_entity(lines[j]).unwrap().1,
    decreases i,
{
    if i > 0 {
        let m = orph_keep_upto(lines, keep, i - 1);
        if n < m.1.len() {
            lemma_keep_provenance(lines, keep, i - 1, n);
            let j = choose|j: int|
                0 <= j < i - 1 && (#[trigger] spec_split_entity(lines[j])) is Some
                    && keep.contains(spec_split_entity(lines[j]).unwrap().0) && m.1[n].1
                    == spec_split_entity(lines[j]).unwrap().1;
            assert(spec_split_entity(lines[j]) is Some);
        } else {
            assert(spec_split_entity(lines[i - 1]) is Some);
        }
    }
}

/// Reference integrity is preserved by the orphan phase: when the input's
/// references resolve and its ids are unique, every reference token in the
/// surviving content resolves to an id present in the surviving set.
pub proof fn lemma_orphans_integrity(lines: Seq<Seq<u8>>)
    requires
        crate::deduplicate::refs_resolve(lines),
        lines.len() < u32::MAX,
        forall|k: int, l: int|
            0 <= k < l < lines.len() && (#[trigger] spec_split_entity(lines[k])) is Some && (
            #[trigger] spec_split_entity(lines[l])) is Some ==> spec_split_entity(
                lines[k],
            ).unwrap().0 != spec_split_entity(lines[l]).unwrap().0,
    ensures
        crate::deduplicate::refs_resolve(spec_remove_orphans(lines)),
{
    let maps = orph_maps_upto(lines, lines.len() as int);
    let roots = spec_roots(maps.0);
    let out = spec_remove_orphans(lines);
    if forall|x: nat| !roots.contains(x) {
    } else {
        let dom = maps.0.dom();
        let keep = Set::new(|v: nat| spec_reachable(dom, maps.1, roots, v));
        let kept = orph_keep_upto(lines, keep, lines.len() as int);
        lemma_keep_bounds(lines, keep, lines.len() as int);
        lemma_maps_dom_eq_line_ids(lines, lines.len() as int);
        assert forall|i: int|
            0 <= i < out.len() implies (#[trigger] spec_split_entity(out[i])) is Some
            && spec_split_entity(out[i]).unwrap().0 == i + 1 by {
            assert(kept.1[i].0 == i + 1);
            crate::deduplicate::lemma_split_constructed(
                (i + 1) as nat,
                spec_remap(kept.1[i].1, kept.0, 0),
            );
        }
        crate::deduplicate::lemma_sequential_line_ids(out, out.len() as int);
        assert forall|j: int|
            0 <= j < out.len() && (#[trigger] spec_split_entity(out[j])) is Some implies
        spec_refs_of(spec_split_entity(out[j]).unwrap().1).subset_of(
            crate::deduplicate::line_ids(out),
        ) by {
            assert(kept.1[j].0 == j + 1);
            crate::deduplicate::lemma_split_constructed(
                (j + 1) as nat,
                spec_remap(kept.1[j].1, kept.0, 0),
            );
            let content = kept.1[j].1;
            let rhs_out = spec_split_entity(out[j]).unwrap().1;
            assert(rhs_out == spec_remap(content, kept.0, 0));
            crate::references::lemma_remap_scan_vals(content, kept.0, 0);
            let outv = crate::references::scan_vals(rhs_out, 0);
            let inv = crate::references::scan_vals(content, 0);
            lemma_keep_provenance(lines, keep, lines.len() as int, j);
            let src = choose|jj: int|
                0 <= jj < lines.len() && (#[trigger] spec_split_entity(lines[jj])) is Some
                    && keep.contains(spec_split_entity(lines[jj]).unwrap().0) && content
                    == spec_split_entity(lines[jj]).unwrap().1;
            let old_id = spec_split_entity(lines[src]).unwrap().0;
            lemma_unique_maps(lines, lines.len() as int, src);
            assert forall|r: nat|
                spec_refs_of(rhs_out).contains(r) implies crate::deduplicate::line_ids(
                out,
            ).contains(r) by {
                let idx = choose|idx: int| 0 <= idx < outv.len() && outv[idx] == r;
                let v = inv[idx];
                assert(outv[idx] == crate::references::apply_map(kept.0, v));
                assert(spec_refs_of(content).contains(v));
                assert(crate::deduplicate::line_ids(lines).contains(v));
                assert(dom.contains(v));
                assert(maps.1[old_id].contains(v));
                assert(spec_reachable(dom, maps.1, roots, old_id));
                lemma_reach_step(dom, maps.1, roots, old_id, v);
                assert(keep.contains(v));
                assert(kept.0.dom().contains(v));
                assert(1 <= kept.0[v] <= out.len());
            }
        }
    }
}

/// Reference integrity across the whole reduction: after both the
/// deduplication and the orphan phases, every reference token in surviving
/// content resolves to an id present in the surviving entity set.
pub proof fn lemma_reference_integrity(data: Seq<Seq<u8>>, md: Option<u32>)
    requires
        crate::deduplicate::refs_resolve(data),
        data.len() < u32::MAX,
    ensures
        crate::deduplicate::refs_resolve(
            spec_remove_orphans(crate::deduplicate::spec_deduplicate(data, md)),
        ),
{
    let dd = crate::deduplicate::spec_deduplicate(data, md);
    crate::deduplicate::lemma_deduplicate_integrity(data, md);
    lemma_orphans_integrity(dd);
}

/// Cardinality bound for a subset of a finite set.
proof fn lemma_len_subset_helper(s1: Set<nat>, s2: Set<nat>)
    requires
        s2.finite(),
        forall|v: nat| #[trigger] s1.contains(v) ==> s2.contains(v),
    ensures
        s1.len() <= s2.len(),
        s1.finite(),
{
    assert(s1.subset_of(s2));
    vstd::set_lib::lemma_len_subset(s1, s2);
}

} // verus!
