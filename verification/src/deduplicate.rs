//! Iterative fixed-point entity deduplication: entities whose canonical
//! (normalized, name-stripped) content coincides are merged, references to a
//! removed entity are rewritten to its survivor, and passes repeat until the
//! entity count stops shrinking. Identity-bearing entity types are never
//! merged.

use vstd::prelude::*;

use crate::bytes::{
    all_digits, copy_lines, copy_range, dec_rep, digits_val, eq_keyword, find_byte2, is_digit,
    lemma_find_byte2_exact, parse_u32_range, spec_trim, trim_range, u32_to_dec, views_of,
};
use crate::normalize::{
    normalize_entity_name, normalize_numbers_in_line, spec_normalize_line, spec_strip_name,
};
use crate::references::{remap_references, spec_remap};
use crate::table::{IdMap, KeyMap};

verus! {

pub const ID_PRODUCT: [u8; 7] = ['P' as u8, 'R' as u8, 'O' as u8, 'D' as u8, 'U' as u8, 'C' as u8, 'T' as u8];

pub const ID_PRODUCT_DEFINITION: [u8; 18] = ['P' as u8, 'R' as u8, 'O' as u8, 'D' as u8, 'U' as u8, 'C' as u8, 'T' as u8, '_' as u8, 'D' as u8, 'E' as u8, 'F' as u8, 'I' as u8, 'N' as u8, 'I' as u8, 'T' as u8, 'I' as u8, 'O' as u8, 'N' as u8];

pub const ID_PRODUCT_DEFINITION_FORMATION: [u8; 28] = ['P' as u8, 'R' as u8, 'O' as u8, 'D' as u8, 'U' as u8, 'C' as u8, 'T' as u8, '_' as u8, 'D' as u8, 'E' as u8, 'F' as u8, 'I' as u8, 'N' as u8, 'I' as u8, 'T' as u8, 'I' as u8, 'O' as u8, 'N' as u8, '_' as u8, 'F' as u8, 'O' as u8, 'R' as u8, 'M' as u8, 'A' as u8, 'T' as u8, 'I' as u8, 'O' as u8, 'N' as u8];

pub const ID_PRODUCT_DEFINITION_FORMATION_WITH_SPECIFIED_SOURCE: [u8; 50] = ['P' as u8, 'R' as u8, 'O' as u8, 'D' as u8, 'U' as u8, 'C' as u8, 'T' as u8, '_' as u8, 'D' as u8, 'E' as u8, 'F' as u8, 'I' as u8, 'N' as u8, 'I' as u8, 'T' as u8, 'I' as u8, 'O' as u8, 'N' as u8, '_' as u8, 'F' as u8, 'O' as u8, 'R' as u8, 'M' as u8, 'A' as u8, 'T' as u8, 'I' as u8, 'O' as u8, 'N' as u8, '_' as u8, 'W' as u8, 'I' as u8, 'T' as u8, 'H' as u8, '_' as u8, 'S' as u8, 'P' as u8, 'E' as u8, 'C' as u8, 'I' as u8, 'F' as u8, 'I' as u8, 'E' as u8, 'D' as u8, '_' as u8, 'S' as u8, 'O' as u8, 'U' as u8, 'R' as u8, 'C' as u8, 'E' as u8];

pub const ID_PRODUCT_DEFINITION_SHAPE: [u8; 24] = ['P' as u8, 'R' as u8, 'O' as u8, 'D' as u8, 'U' as u8, 'C' as u8, 'T' as u8, '_' as u8, 'D' as u8, 'E' as u8, 'F' as u8, 'I' as u8, 'N' as u8, 'I' as u8, 'T' as u8, 'I' as u8, 'O' as u8, 'N' as u8, '_' as u8, 'S' as u8, 'H' as u8, 'A' as u8, 'P' as u8, 'E' as u8];

pub const ID_PRODUCT_DEFINITION_CONTEXT: [u8; 26] = ['P' as u8, 'R' as u8, 'O' as u8, 'D' as u8, 'U' as u8, 'C' as u8, 'T' as u8, '_' as u8, 'D' as u8, 'E' as u8, 'F' as u8, 'I' as u8, 'N' as u8, 'I' as u8, 'T' as u8, 'I' as u8, 'O' as u8, 'N' as u8, '_' as u8, 'C' as u8, 'O' as u8, 'N' as u8, 'T' as u8, 'E' as u8, 'X' as u8, 'T' as u8];

pub const ID_PRODUCT_DEFINITION_WITH_ASSOCIATED_DOCUMENTS: [u8; 44] = ['P' as u8, 'R' as u8, 'O' as u8, 'D' as u8, 'U' as u8, 'C' as u8, 'T' as u8, '_' as u8, 'D' as u8, 'E' as u8, 'F' as u8, 'I' as u8, 'N' as u8, 'I' as u8, 'T' as u8, 'I' as u8, 'O' as u8, 'N' as u8, '_' as u8, 'W' as u8, 'I' as u8, 'T' as u8, 'H' as u8, '_' as u8, 'A' as u8, 'S' as u8, 'S' as u8, 'O' as u8, 'C' as u8, 'I' as u8, 'A' as u8, 'T' as u8, 'E' as u8, 'D' as u8, '_' as u8, 'D' as u8, 'O' as u8, 'C' as u8, 'U' as u8, 'M' as u8, 'E' as u8, 'N' as u8, 'T' as u8, 'S' as u8];

pub const ID_PRODUCT_RELATED_PRODUCT_CATEGORY: [u8; 32] = ['P' as u8, 'R' as u8, 'O' as u8, 'D' as u8, 'U' as u8, 'C' as u8, 'T' as u8, '_' as u8, 'R' as u8, 'E' as u8, 'L' as u8, 'A' as u8, 'T' as u8, 'E' as u8, 'D' as u8, '_' as u8, 'P' as u8, 'R' as u8, 'O' as u8, 'D' as u8, 'U' as u8, 'C' as u8, 'T' as u8, '_' as u8, 'C' as u8, 'A' as u8, 'T' as u8, 'E' as u8, 'G' as u8, 'O' as u8, 'R' as u8, 'Y' as u8];

pub const ID_SHAPE_DEFINITION_REPRESENTATION: [u8; 31] = ['S' as u8, 'H' as u8, 'A' as u8, 'P' as u8, 'E' as u8, '_' as u8, 'D' as u8, 'E' as u8, 'F' as u8, 'I' as u8, 'N' as u8, 'I' as u8, 'T' as u8, 'I' as u8, 'O' as u8, 'N' as u8, '_' as u8, 'R' as u8, 'E' as u8, 'P' as u8, 'R' as u8, 'E' as u8, 'S' as u8, 'E' as u8, 'N' as u8, 'T' as u8, 'A' as u8, 'T' as u8, 'I' as u8, 'O' as u8, 'N' as u8];

pub const ID_SHAPE_REPRESENTATION: [u8; 20] = ['S' as u8, 'H' as u8, 'A' as u8, 'P' as u8, 'E' as u8, '_' as u8, 'R' as u8, 'E' as u8, 'P' as u8, 'R' as u8, 'E' as u8, 'S' as u8, 'E' as u8, 'N' as u8, 'T' as u8, 'A' as u8, 'T' as u8, 'I' as u8, 'O' as u8, 'N' as u8];

pub const ID_SHAPE_REPRESENTATION_RELATIONSHIP: [u8; 33] = ['S' as u8, 'H' as u8, 'A' as u8, 'P' as u8, 'E' as u8, '_' as u8, 'R' as u8, 'E' as u8, 'P' as u8, 'R' as u8, 'E' as u8, 'S' as u8, 'E' as u8, 'N' as u8, 'T' as u8, 'A' as u8, 'T' as u8, 'I' as u8, 'O' as u8, 'N' as u8, '_' as u8, 'R' as u8, 'E' as u8, 'L' as u8, 'A' as u8, 'T' as u8, 'I' as u8, 'O' as u8, 'N' as u8, 'S' as u8, 'H' as u8, 'I' as u8, 'P' as u8];

pub const ID_ADVANCED_BREP_SHAPE_REPRESENTATION: [u8; 34] = ['A' as u8, 'D' as u8, 'V' as u8, 'A' as u8, 'N' as u8, 'C' as u8, 'E' as u8, 'D' as u8, '_' as u8, 'B' as u8, 'R' as u8, 'E' as u8, 'P' as u8, '_' as u8, 'S' as u8, 'H' as u8, 'A' as u8, 'P' as u8, 'E' as u8, '_' as u8, 'R' as u8, 'E' as u8, 'P' as u8, 'R' as u8, 'E' as u8, 'S' as u8, 'E' as u8, 'N' as u8, 'T' as u8, 'A' as u8, 'T' as u8, 'I' as u8, 'O' as u8, 'N' as u8];

pub const ID_MANIFOLD_SOLID_BREP: [u8; 19] = ['M' as u8, 'A' as u8, 'N' as u8, 'I' as u8, 'F' as u8, 'O' as u8, 'L' as u8, 'D' as u8, '_' as u8, 'S' as u8, 'O' as u8, 'L' as u8, 'I' as u8, 'D' as u8, '_' as u8, 'B' as u8, 'R' as u8, 'E' as u8, 'P' as u8];

pub const ID_MANIFOLD_SURFACE_SHAPE_REPRESENTATION: [u8; 37] = ['M' as u8, 'A' as u8, 'N' as u8, 'I' as u8, 'F' as u8, 'O' as u8, 'L' as u8, 'D' as u8, '_' as u8, 'S' as u8, 'U' as u8, 'R' as u8, 'F' as u8, 'A' as u8, 'C' as u8, 'E' as u8, '_' as u8, 'S' as u8, 'H' as u8, 'A' as u8, 'P' as u8, 'E' as u8, '_' as u8, 'R' as u8, 'E' as u8, 'P' as u8, 'R' as u8, 'E' as u8, 'S' as u8, 'E' as u8, 'N' as u8, 'T' as u8, 'A' as u8, 'T' as u8, 'I' as u8, 'O' as u8, 'N' as u8];

pub const ID_GEOMETRICALLY_BOUNDED_SURFACE_SHAPE_REPRESENTATION: [u8; 50] = ['G' as u8, 'E' as u8, 'O' as u8, 'M' as u8, 'E' as u8, 'T' as u8, 'R' as u8, 'I' as u8, 'C' as u8, 'A' as u8, 'L' as u8, 'L' as u8, 'Y' as u8, '_' as u8, 'B' as u8, 'O' as u8, 'U' as u8, 'N' as u8, 'D' as u8, 'E' as u8, 'D' as u8, '_' as u8, 'S' as u8, 'U' as u8, 'R' as u8, 'F' as u8, 'A' as u8, 'C' as u8, 'E' as u8, '_' as u8, 'S' as u8, 'H' as u8, 'A' as u8, 'P' as u8, 'E' as u8, '_' as u8, 'R' as u8, 'E' as u8, 'P' as u8, 'R' as u8, 'E' as u8, 'S' as u8, 'E' as u8, 'N' as u8, 'T' as u8, 'A' as u8, 'T' as u8, 'I' as u8, 'O' as u8, 'N' as u8];

pub const ID_GEOMETRICALLY_BOUNDED_WIREFRAME_SHAPE_REPRESENTATION: [u8; 52] = ['G' as u8, 'E' as u8, 'O' as u8, 'M' as u8, 'E' as u8, 'T' as u8, 'R' as u8, 'I' as u8, 'C' as u8, 'A' as u8, 'L' as u8, 'L' as u8, 'Y' as u8, '_' as u8, 'B' as u8, 'O' as u8, 'U' as u8, 'N' as u8, 'D' as u8, 'E' as u8, 'D' as u8, '_' as u8, 'W' as u8, 'I' as u8, 'R' as u8, 'E' as u8, 'F' as u8, 'R' as u8, 'A' as u8, 'M' as u8, 'E' as u8, '_' as u8, 'S' as u8, 'H' as u8, 'A' as u8, 'P' as u8, 'E' as u8, '_' as u8, 'R' as u8, 'E' as u8, 'P' as u8, 'R' as u8, 'E' as u8, 'S' as u8, 'E' as u8, 'N' as u8, 'T' as u8, 'A' as u8, 'T' as u8, 'I' as u8, 'O' as u8, 'N' as u8];

pub const ID_STYLED_ITEM: [u8; 11] = ['S' as u8, 'T' as u8, 'Y' as u8, 'L' as u8, 'E' as u8, 'D' as u8, '_' as u8, 'I' as u8, 'T' as u8, 'E' as u8, 'M' as u8];

pub const ID_OVER_RIDING_STYLED_ITEM: [u8; 23] = ['O' as u8, 'V' as u8, 'E' as u8, 'R' as u8, '_' as u8, 'R' as u8, 'I' as u8, 'D' as u8, 'I' as u8, 'N' as u8, 'G' as u8, '_' as u8, 'S' as u8, 'T' as u8, 'Y' as u8, 'L' as u8, 'E' as u8, 'D' as u8, '_' as u8, 'I' as u8, 'T' as u8, 'E' as u8, 'M' as u8];

pub const ID_PRESENTATION_LAYER_ASSIGNMENT: [u8; 29] = ['P' as u8, 'R' as u8, 'E' as u8, 'S' as u8, 'E' as u8, 'N' as u8, 'T' as u8, 'A' as u8, 'T' as u8, 'I' as u8, 'O' as u8, 'N' as u8, '_' as u8, 'L' as u8, 'A' as u8, 'Y' as u8, 'E' as u8, 'R' as u8, '_' as u8, 'A' as u8, 'S' as u8, 'S' as u8, 'I' as u8, 'G' as u8, 'N' as u8, 'M' as u8, 'E' as u8, 'N' as u8, 'T' as u8];

pub const ID_APPLICATION_CONTEXT: [u8; 19] = ['A' as u8, 'P' as u8, 'P' as u8, 'L' as u8, 'I' as u8, 'C' as u8, 'A' as u8, 'T' as u8, 'I' as u8, 'O' as u8, 'N' as u8, '_' as u8, 'C' as u8, 'O' as u8, 'N' as u8, 'T' as u8, 'E' as u8, 'X' as u8, 'T' as u8];

pub const ID_APPLICATION_PROTOCOL_DEFINITION: [u8; 31] = ['A' as u8, 'P' as u8, 'P' as u8, 'L' as u8, 'I' as u8, 'C' as u8, 'A' as u8, 'T' as u8, 'I' as u8, 'O' as u8, 'N' as u8, '_' as u8, 'P' as u8, 'R' as u8, 'O' as u8, 'T' as u8, 'O' as u8, 'C' as u8, 'O' as u8, 'L' as u8, '_' as u8, 'D' as u8, 'E' as u8, 'F' as u8, 'I' as u8, 'N' as u8, 'I' as u8, 'T' as u8, 'I' as u8, 'O' as u8, 'N' as u8];

pub const ID_PRODUCT_CONTEXT: [u8; 15] = ['P' as u8, 'R' as u8, 'O' as u8, 'D' as u8, 'U' as u8, 'C' as u8, 'T' as u8, '_' as u8, 'C' as u8, 'O' as u8, 'N' as u8, 'T' as u8, 'E' as u8, 'X' as u8, 'T' as u8];

pub const ID_DESIGN_CONTEXT: [u8; 14] = ['D' as u8, 'E' as u8, 'S' as u8, 'I' as u8, 'G' as u8, 'N' as u8, '_' as u8, 'C' as u8, 'O' as u8, 'N' as u8, 'T' as u8, 'E' as u8, 'X' as u8, 'T' as u8];

/// STEP entity types that carry identity and must never be deduplicated,
/// even if their normalized content is identical.
pub open spec fn spec_is_identity_type(t: Seq<u8>) -> bool {
    ||| t == ID_PRODUCT@
    ||| t == ID_PRODUCT_DEFINITION@
    ||| t == ID_PRODUCT_DEFINITION_FORMATION@
    ||| t == ID_PRODUCT_DEFINITION_FORMATION_WITH_SPECIFIED_SOURCE@
    ||| t == ID_PRODUCT_DEFINITION_SHAPE@
    ||| t == ID_PRODUCT_DEFINITION_CONTEXT@
    ||| t == ID_PRODUCT_DEFINITION_WITH_ASSOCIATED_DOCUMENTS@
    ||| t == ID_PRODUCT_RELATED_PRODUCT_CATEGORY@
    ||| t == ID_SHAPE_DEFINITION_REPRESENTATION@
    ||| t == ID_SHAPE_REPRESENTATION@
    ||| t == ID_SHAPE_REPRESENTATION_RELATIONSHIP@
    ||| t == ID_ADVANCED_BREP_SHAPE_REPRESENTATION@
    ||| t == ID_MANIFOLD_SOLID_BREP@
    ||| t == ID_MANIFOLD_SURFACE_SHAPE_REPRESENTATION@
    ||| t == ID_GEOMETRICALLY_BOUNDED_SURFACE_SHAPE_REPRESENTATION@
    ||| t == ID_GEOMETRICALLY_BOUNDED_WIREFRAME_SHAPE_REPRESENTATION@
    ||| t == ID_STYLED_ITEM@
    ||| t == ID_OVER_RIDING_STYLED_ITEM@
    ||| t == ID_PRESENTATION_LAYER_ASSIGNMENT@
    ||| t == ID_APPLICATION_CONTEXT@
    ||| t == ID_APPLICATION_PROTOCOL_DEFINITION@
    ||| t == ID_PRODUCT_CONTEXT@
    ||| t == ID_DESIGN_CONTEXT@
}

/// Runtime membership test for the identity-type list.
pub fn is_identity_entity(entity_type: &Vec<u8>) -> (r: bool)
    ensures
        r == spec_is_identity_type(entity_type@),
{
    eq_keyword(entity_type, &ID_PRODUCT)
        || eq_keyword(entity_type, &ID_PRODUCT_DEFINITION)
        || eq_keyword(entity_type, &ID_PRODUCT_DEFINITION_FORMATION)
        || eq_keyword(entity_type, &ID_PRODUCT_DEFINITION_FORMATION_WITH_SPECIFIED_SOURCE)
        || eq_keyword(entity_type, &ID_PRODUCT_DEFINITION_SHAPE)
        || eq_keyword(entity_type, &ID_PRODUCT_DEFINITION_CONTEXT)
        || eq_keyword(entity_type, &ID_PRODUCT_DEFINITION_WITH_ASSOCIATED_DOCUMENTS)
        || eq_keyword(entity_type, &ID_PRODUCT_RELATED_PRODUCT_CATEGORY)
        || eq_keyword(entity_type, &ID_SHAPE_DEFINITION_REPRESENTATION)
        || eq_keyword(entity_type, &ID_SHAPE_REPRESENTATION)
        || eq_keyword(entity_type, &ID_SHAPE_REPRESENTATION_RELATIONSHIP)
        || eq_keyword(entity_type, &ID_ADVANCED_BREP_SHAPE_REPRESENTATION)
        || eq_keyword(entity_type, &ID_MANIFOLD_SOLID_BREP)
        || eq_keyword(entity_type, &ID_MANIFOLD_SURFACE_SHAPE_REPRESENTATION)
        || eq_keyword(entity_type, &ID_GEOMETRICALLY_BOUNDED_SURFACE_SHAPE_REPRESENTATION)
        || eq_keyword(entity_type, &ID_GEOMETRICALLY_BOUNDED_WIREFRAME_SHAPE_REPRESENTATION)
        || eq_keyword(entity_type, &ID_STYLED_ITEM)
        || eq_keyword(entity_type, &ID_OVER_RIDING_STYLED_ITEM)
        || eq_keyword(entity_type, &ID_PRESENTATION_LAYER_ASSIGNMENT)
        || eq_keyword(entity_type, &ID_APPLICATION_CONTEXT)
        || eq_keyword(entity_type, &ID_APPLICATION_PROTOCOL_DEFINITION)
        || eq_keyword(entity_type, &ID_PRODUCT_CONTEXT)
        || eq_keyword(entity_type, &ID_DESIGN_CONTEXT)
}

/// Leading type name of a right-hand side: the trimmed text before the first
/// opening parenthesis, or the whole trimmed text.
pub open spec fn spec_entity_type(rhs: Seq<u8>) -> Seq<u8> {
    let t = spec_trim(rhs);
    let p = find_byte2(t, 40, 40, 0);
    if p < t.len() {
        spec_trim(t.subrange(0, p))
    } else {
        t
    }
}

/// Extract the entity type name from a right-hand side string.
///
/// For `PRODUCT('name',#1,#2)` this returns `PRODUCT`; for a bare identifier
/// the trimmed text itself.
pub fn get_entity_type(rhs: &Vec<u8>) -> (r: Vec<u8>)
    ensures
        r@ == spec_entity_type(rhs@),
{
    let t = trim_range(rhs, 0, rhs.len());
    proof {
        assert(rhs@.subrange(0, rhs@.len() as int) =~= rhs@);
    }
    let mut p: usize = 0;
    #[verifier::loop_isolation(false)]
    while p < t.len() && t[p] != 40
        invariant
            p <= t@.len(),
            forall|k: int| 0 <= k < p ==> t@[k] != 40,
        decreases t@.len() - p,
    {
        p = p + 1;
    }
    proof {
        lemma_find_byte2_exact(t@, 40, 40, 0, p as int);
    }
    if p < t.len() {
        trim_range(&t, 0, p)
    } else {
        t
    }
}

/// A well-formed data line `#<digits>=<rhs>`: its id and its raw (untrimmed)
/// right-hand side. Anything else is skipped by the phases.
pub open spec fn spec_split_entity(line: Seq<u8>) -> Option<(nat, Seq<u8>)> {
    let eq = find_byte2(line, 61, 61, 0);
    if eq >= line.len() {
        None
    } else if line[0] != 35 {
        None
    } else if eq < 2 {
        None
    } else if !all_digits(line.subrange(1, eq)) {
        None
    } else if digits_val(line.subrange(1, eq)) > u32::MAX {
        None
    } else {
        Some((digits_val(line.subrange(1, eq)), line.subrange(eq + 1, line.len() as int)))
    }
}

/// Split a data line into its id and right-hand side, if well-formed.
pub fn split_entity_line(line: &Vec<u8>) -> (r: Option<(u32, Vec<u8>)>)
    ensures
        match r {
            Some(p) => spec_split_entity(line@) == Some((p.0 as nat, p.1@)),
            None => spec_split_entity(line@) is None,
        },
{
    let ghost lv = line@;
    let mut eq: usize = 0;
    #[verifier::loop_isolation(false)]
    while eq < line.len() && line[eq] != 61
        invariant
            eq <= lv.len(),
            forall|k: int| 0 <= k < eq ==> lv[k] != 61,
        decreases lv.len() - eq,
    {
        eq = eq + 1;
    }
    proof {
        lemma_find_byte2_exact(lv, 61, 61, 0, eq as int);
    }
    if eq >= line.len() {
        return None;
    }
    if line[0] != 35 {
        return None;
    }
    if eq < 2 {
        return None;
    }
    let ghost ds = lv.subrange(1, eq as int);
    let mut k: usize = 1;
    #[verifier::loop_isolation(false)]
    while k < eq && line[k] >= 48 && line[k] <= 57
        invariant
            1 <= k <= eq,
            forall|m: int| 0 <= m < k - 1 ==> is_digit(#[trigger] ds[m]),
        decreases eq - k,
    {
        proof {
            assert(ds[k - 1] == lv[k as int]);
        }
        k = k + 1;
    }
    if k < eq {
        proof {
            assert(ds[k - 1] == lv[k as int]);
            assert(!all_digits(ds)) by {
                assert(!is_digit(ds[k - 1]));
            }
        }
        return None;
    }
    proof {
        assert(all_digits(ds));
    }
    match parse_u32_range(line, 1, eq) {
        None => None,
        Some(id) => {
            let rhs = copy_range(line, eq + 1, line.len());
            Some((id, rhs))
        },
    }
}

/// The canonical key of a right-hand side: numeric normalization (with the
/// optional comparison bound), then name stripping.
pub open spec fn canonical_key(rhs: Seq<u8>, md: Option<u32>) -> Seq<u8> {
    spec_strip_name(spec_normalize_line(rhs, md))
}

/// A run of `n` spaces, as appended to force identity keys apart.
pub open spec fn space_seq(n: nat) -> Seq<u8> {
    Seq::new(n, |i: int| 32u8)
}

/// Number of spaces that must be appended to `key` before it is absent from
/// `dom`, starting the search at `j` pads.
pub open spec fn pad_count(dom: Set<Seq<u8>>, key: Seq<u8>, j: nat) -> nat
    decreases dom.len() + 1 - j,
{
    if !dom.contains(key + space_seq(j)) {
        j
    } else if j >= dom.len() {
        j + 1
    } else {
        pad_count(dom, key, j + 1)
    }
}

/// Padded variants of one key are pairwise distinct, so a finite domain can
/// hold only so many of them.
proof fn lemma_distinct_padded(dom: Set<Seq<u8>>, key: Seq<u8>, j: nat)
    requires
        dom.finite(),
        forall|m: nat| m < j ==> dom.contains(key + #[trigger] space_seq(m)),
    ensures
        j <= dom.len(),
    decreases j,
{
    if j > 0 {
        let last = key + space_seq((j - 1) as nat);
        assert(dom.contains(last));
        let dom2 = dom.remove(last);
        assert forall|m: nat| m < j - 1 implies dom2.contains(key + #[trigger] space_seq(m)) by {
            assert(dom.contains(key + space_seq(m)));
            assert((key + space_seq(m)).len() == key.len() + m);
            assert(last.len() == key.len() + j - 1);
        }
        lemma_distinct_padded(dom2, key, (j - 1) as nat);
        assert(dom2.insert(last) =~= dom);
    }
}

/// The pad search returns exactly the least free pad count.
proof fn lemma_pad_count_exact(dom: Set<Seq<u8>>, key: Seq<u8>, i: nat, j: nat)
    requires
        dom.finite(),
        i <= j,
        forall|m: nat| m < j ==> dom.contains(key + #[trigger] space_seq(m)),
        !dom.contains(key + space_seq(j)),
    ensures
        pad_count(dom, key, i) == j,
    decreases j - i,
{
    if i < j {
        assert(dom.contains(key + space_seq(i)));
        lemma_distinct_padded(dom, key, j);
        lemma_pad_count_exact(dom, key, (i + 1) as nat, j);
    }
}

/// One merge decision: how one line transforms the pass state of key table,
/// id remap table and kept entities.
pub open spec fn pass_step(
    st: (Map<Seq<u8>, nat>, Map<nat, nat>, Seq<(nat, Seq<u8>)>),
    line: Seq<u8>,
    md: Option<u32>,
) -> (Map<Seq<u8>, nat>, Map<nat, nat>, Seq<(nat, Seq<u8>)>) {
    match spec_split_entity(line) {
        None => st,
        Some(pr) => {
            let id = pr.0;
            let rhs = spec_trim(pr.1);
            let key0 = canonical_key(rhs, md);
            let n = st.2.len();
            if spec_is_identity_type(spec_entity_type(rhs)) {
                let key = key0 + space_seq(pad_count(st.0.dom(), key0, 0));
                (st.0.insert(key, n + 1), st.1.insert(id, n + 1), st.2.push((n + 1, rhs)))
            } else if st.0.dom().contains(key0) {
                (st.0, st.1.insert(id, st.0[key0]), st.2)
            } else {
                (st.0.insert(key0, n + 1), st.1.insert(id, n + 1), st.2.push((n + 1, rhs)))
            }
        },
    }
}

/// Pass state after the first `i` lines.
pub open spec fn pass_upto(lines: Seq<Seq<u8>>, md: Option<u32>, i: int) -> (
    Map<Seq<u8>, nat>,
    Map<nat, nat>,
    Seq<(nat, Seq<u8>)>,
)
    decreases i,
{
    if i <= 0 {
        (Map::empty(), Map::empty(), Seq::empty())
    } else {
        pass_step(pass_upto(lines, md, i - 1), lines[i - 1], md)
    }
}

/// Output of one full pass: every kept entity, renumbered sequentially and
/// with its references rewritten through the pass remap table.
pub open spec fn spec_dedup_pass(lines: Seq<Seq<u8>>, md: Option<u32>) -> Seq<Seq<u8>> {
    let st = pass_upto(lines, md, lines.len() as int);
    Seq::new(
        st.2.len(),
        |i: int| seq![35u8] + dec_rep(st.2[i].0) + seq![61u8] + spec_remap(st.2[i].1, st.1, 0),
    )
}

/// Passes repeat until the entity count stops shrinking.
pub open spec fn spec_deduplicate(lines: Seq<Seq<u8>>, md: Option<u32>) -> Seq<Seq<u8>>
    decreases lines.len(),
{
    let out = spec_dedup_pass(lines, md);
    if out.len() >= lines.len() {
        out
    } else {
        spec_deduplicate(out, md)
    }
}

/// The key table of a pass state has a finite domain.
proof fn lemma_pass_uniques_finite(lines: Seq<Seq<u8>>, md: Option<u32>, i: int)
    ensures
        pass_upto(lines, md, i).0.dom().finite(),
    decreases i,
{
    if i > 0 {
        lemma_pass_uniques_finite(lines, md, i - 1);
    }
}

/// The pad search always lands on a key absent from a finite domain.
proof fn lemma_pad_count_free(dom: Set<Seq<u8>>, key: Seq<u8>, j: nat)
    requires
        dom.finite(),
        forall|m: nat| m < j ==> dom.contains(key + #[trigger] space_seq(m)),
    ensures
        !dom.contains(key + space_seq(pad_count(dom, key, j))),
    decreases dom.len() + 1 - j,
{
    if dom.contains(key + space_seq(j)) {
        lemma_distinct_padded(dom, key, (j + 1) as nat);
        lemma_pad_count_free(dom, key, (j + 1) as nat);
    }
}

/// Once a canonical key carries a survivor id, later lines never change it.
proof fn lemma_uniques_monotone(lines: Seq<Seq<u8>>, md: Option<u32>, i: int, j: int, key: Seq<u8>)
    requires
        0 <= i <= j,
        pass_upto(lines, md, i).0.dom().contains(key),
    ensures
        pass_upto(lines, md, j).0.dom().contains(key),
        pass_upto(lines, md, j).0[key] == pass_upto(lines, md, i).0[key],
    decreases j - i,
{
    if i < j {
        lemma_uniques_monotone(lines, md, i, j - 1, key);
        let st = pass_upto(lines, md, j - 1);
        match spec_split_entity(lines[j - 1]) {
            None => {},
            Some(pr) => {
                let rhs = spec_trim(pr.1);
                let key0 = canonical_key(rhs, md);
                if spec_is_identity_type(spec_entity_type(rhs)) {
                    lemma_pass_uniques_finite(lines, md, j - 1);
                    lemma_pad_count_free(st.0.dom(), key0, 0);
                }
            },
        }
    }
}

/// An id mapping set by line `i` survives to the end when no later line
/// carries the same id.
proof fn lemma_lookup_stable(lines: Seq<Seq<u8>>, md: Option<u32>, id: nat, i: int, j: int)
    requires
        0 <= i <= j <= lines.len(),
        pass_upto(lines, md, i).1.dom().contains(id),
        forall|k: int|
            i <= k < j && (#[trigger] spec_split_entity(lines[k])) is Some ==> spec_split_entity(
                lines[k],
            ).unwrap().0 != id,
    ensures
        pass_upto(lines, md, j).1.dom().contains(id),
        pass_upto(lines, md, j).1[id] == pass_upto(lines, md, i).1[id],
    decreases j - i,
{
    if i < j {
        lemma_lookup_stable(lines, md, id, i, j - 1);
        assert(spec_split_entity(lines[j - 1]) is Some ==> spec_split_entity(
            lines[j - 1],
        ).unwrap().0 != id);
    }
}

/// Kept entities only accumulate: an earlier pass state's entity list is a
/// prefix of every later one.
proof fn lemma_kept_monotone(lines: Seq<Seq<u8>>, md: Option<u32>, i: int, j: int, n: int)
    requires
        0 <= i <= j,
        0 <= n < pass_upto(lines, md, i).2.len(),
    ensures
        pass_upto(lines, md, j).2.len() >= pass_upto(lines, md, i).2.len(),
        pass_upto(lines, md, j).2[n] == pass_upto(lines, md, i).2[n],
    decreases j - i,
{
    if i < j {
        lemma_kept_monotone(lines, md, i, j - 1, n);
    }
}

/// Merge correctness: two well-formed data lines whose canonical keys are
/// byte-identical and whose types are not identity types collapse to one
/// surviving entity. The pass remap table sends both old ids to the same
/// survivor id — so every reference to the removed entity is rewritten to
/// its survivor — and the later line keeps no entity slot of its own.
pub proof fn lemma_merge_collapses(lines: Seq<Seq<u8>>, md: Option<u32>, i: int, j: int)
    requires
        0 <= i < j < lines.len(),
        spec_split_entity(lines[i]) is Some,
        spec_split_entity(lines[j]) is Some,
        canonical_key(spec_trim(spec_split_entity(lines[i]).unwrap().1), md) == canonical_key(
            spec_trim(spec_split_entity(lines[j]).unwrap().1),
            md,
        ),
        !spec_is_identity_type(spec_entity_type(spec_trim(spec_split_entity(lines[i]).unwrap().1))),
        !spec_is_identity_type(spec_entity_type(spec_trim(spec_split_entity(lines[j]).unwrap().1))),
        forall|k: int|
            0 <= k < lines.len() && k != i && (#[trigger] spec_split_entity(lines[k])) is Some
                ==> spec_split_entity(lines[k]).unwrap().0 != spec_split_entity(
                lines[i],
            ).unwrap().0,
        forall|k: int|
            0 <= k < lines.len() && k != j && (#[trigger] spec_split_entity(lines[k])) is Some
                ==> spec_split_entity(lines[k]).unwrap().0 != spec_split_entity(
                lines[j],
            ).unwrap().0,
    ensures
        ({
            let st = pass_upto(lines, md, lines.len() as int);
            let id_i = spec_split_entity(lines[i]).unwrap().0;
            let id_j = spec_split_entity(lines[j]).unwrap().0;
            st.1.dom().contains(id_i) && st.1.dom().contains(id_j) && st.1[id_i] == st.1[id_j]
        }),
        pass_upto(lines, md, j + 1).2 == pass_upto(lines, md, j).2,
{
    let id_i = spec_split_entity(lines[i]).unwrap().0;
    let id_j = spec_split_entity(lines[j]).unwrap().0;
    let key = canonical_key(spec_trim(spec_split_entity(lines[i]).unwrap().1), md);
    let st_i = pass_upto(lines, md, i);
    let st_i1 = pass_upto(lines, md, i + 1);
    let st_j = pass_upto(lines, md, j);
    let st_j1 = pass_upto(lines, md, j + 1);
    let stf = pass_upto(lines, md, lines.len() as int);
    assert(st_i1 == pass_step(st_i, lines[i], md));
    assert(st_j1 == pass_step(st_j, lines[j], md));
    // After line i the key is present, and its survivor value never changes.
    assert(st_i1.0.dom().contains(key));
    assert(st_i1.1.dom().contains(id_i));
    assert(st_i1.1[id_i] == st_i1.0[key]);
    lemma_uniques_monotone(lines, md, i + 1, lines.len() as int, key);
    lemma_uniques_monotone(lines, md, i + 1, j, key);
    // Line j therefore merges.
    assert(st_j.0.dom().contains(key));
    assert(st_j1.1[id_j] == st_j.0[key]);
    assert(st_j1.2 == st_j.2);
    // Both mappings survive to the end of the pass.
    lemma_lookup_stable(lines, md, id_i, i + 1, lines.len() as int);
    lemma_lookup_stable(lines, md, id_j, j + 1, lines.len() as int);
    assert(stf.1[id_i] == st_i1.0[key]);
    assert(stf.1[id_j] == st_j.0[key]);
}

/// Identity inviolability: a well-formed data line whose type is an identity
/// type always keeps an entity slot of its own, with its trimmed content,
/// whatever other entities' canonical keys look like. The slot persists to
/// the end of the pass, so the pass output carries the entity under its own
/// fresh id with only its references rewritten.
pub proof fn lemma_identity_kept(lines: Seq<Seq<u8>>, md: Option<u32>, i: int)
    requires
        0 <= i < lines.len(),
        spec_split_entity(lines[i]) is Some,
        spec_is_identity_type(spec_entity_type(spec_trim(spec_split_entity(lines[i]).unwrap().1))),
    ensures
        ({
            let st = pass_upto(lines, md, lines.len() as int);
            let n = pass_upto(lines, md, i).2.len() as int;
            let rhs = spec_trim(spec_split_entity(lines[i]).unwrap().1);
            n < st.2.len() && st.2[n] == ((n + 1) as nat, rhs) && spec_dedup_pass(lines, md)[n]
                == seq![35u8] + dec_rep((n + 1) as nat) + seq![61u8] + spec_remap(rhs, st.1, 0)
        }),
{
    let st_i = pass_upto(lines, md, i);
    let st_i1 = pass_upto(lines, md, i + 1);
    assert(st_i1 == pass_step(st_i, lines[i], md));
    let n = st_i.2.len() as int;
    let rhs = spec_trim(spec_split_entity(lines[i]).unwrap().1);
    assert(st_i1.2[n] == ((n + 1) as nat, rhs));
    lemma_kept_monotone(lines, md, i + 1, lines.len() as int, n);
}

/// Ids carried by the well-formed lines among the first `i`.
pub open spec fn line_ids_upto(lines: Seq<Seq<u8>>, i: int) -> Set<nat>
    decreases i,
{
    if i <= 0 {
        Set::empty()
    } else {
        match spec_split_entity(lines[i - 1]) {
            None => line_ids_upto(lines, i - 1),
            Some(pr) => line_ids_upto(lines, i - 1).insert(pr.0),
        }
    }
}

/// Ids carried by the well-formed lines of a data section.
pub open spec fn line_ids(lines: Seq<Seq<u8>>) -> Set<nat> {
    line_ids_upto(lines, lines.len() as int)
}

/// Reference integrity: every reference token in any well-formed line names
/// an id that some line of the same section carries.
pub open spec fn refs_resolve(lines: Seq<Seq<u8>>) -> bool {
    forall|j: int|
        0 <= j < lines.len() && (#[trigger] spec_split_entity(lines[j])) is Some
            ==> crate::references::spec_refs_of(
            spec_split_entity(lines[j]).unwrap().1,
        ).subset_of(line_ids(lines))
}

/// The pass remap table acquires exactly the ids of the well-formed lines.
proof fn lemma_lookup_dom(lines: Seq<Seq<u8>>, md: Option<u32>, i: int)
    requires
        0 <= i <= lines.len(),
    ensures
        pass_upto(lines, md, i).1.dom() =~= line_ids_upto(lines, i),
    decreases i,
{
    if i > 0 {
        lemma_lookup_dom(lines, md, i - 1);
    }
}

/// Table values stay within the kept-entity count, kept ids are sequential,
/// and the count never exceeds the number of lines.
proof fn lemma_pass_bounds(lines: Seq<Seq<u8>>, md: Option<u32>, i: int)
    requires
        0 <= i <= lines.len(),
    ensures
        pass_upto(lines, md, i).2.len() <= i,
        forall|key: Seq<u8>| #[trigger]
            pass_upto(lines, md, i).0.dom().contains(key) ==> 1 <= pass_upto(lines, md, i).0[key]
                <= pass_upto(lines, md, i).2.len(),
        forall|id: nat| #[trigger]
            pass_upto(lines, md, i).1.dom().contains(id) ==> 1 <= pass_upto(lines, md, i).1[id]
                <= pass_upto(lines, md, i).2.len(),
        forall|n: int|
            0 <= n < pass_upto(lines, md, i).2.len() ==> (#[trigger] pass_upto(
                lines,
                md,
                i,
            ).2[n]).0 == n + 1,
    decreases i,
{
    if i > 0 {
        lemma_pass_bounds(lines, md, i - 1);
    }
}

/// Every kept entity is the trimmed right-hand side of some input line.
proof fn lemma_kept_provenance(lines: Seq<Seq<u8>>, md: Option<u32>, i: int, n: int)
    requires
        0 <= i <= lines.len(),
        0 <= n < pass_upto(lines, md, i).2.len(),
    ensures
        exists|j: int|
            0 <= j < i && (#[trigger] spec_split_entity(lines[j])) is Some && pass_upto(
                lines,
                md,
                i,
            ).2[n].1 == spec_trim(spec_split_entity(lines[j]).unwrap().1),
    decreases i,
{
    if i > 0 {
        let st = pass_upto(lines, md, i - 1);
        if n < st.2.len() {
            lemma_kept_provenance(lines, md, i - 1, n);
            let j = choose|j: int|
                0 <= j < i - 1 && (#[trigger] spec_split_entity(lines[j])) is Some && st.2[n].1
                    == spec_trim(spec_split_entity(lines[j]).unwrap().1);
            assert(spec_split_entity(lines[j]) is Some);
        } else {
            assert(spec_split_entity(lines[i - 1]) is Some);
        }
    }
}

/// A constructed output line splits back into its id and content.
pub proof fn lemma_split_constructed(n: nat, rest: Seq<u8>)
    requires
        n <= u32::MAX,
    ensures
        spec_split_entity(seq![35u8] + dec_rep(n) + seq![61u8] + rest) == Some((n, rest)),
{
    let line = seq![35u8] + dec_rep(n) + seq![61u8] + rest;
    crate::bytes::lemma_dec_rep_digits(n);
    crate::bytes::lemma_dec_rep_val(n);
    let dl = dec_rep(n).len() as int;
    assert(line[0] == 35);
    assert(line[1 + dl] == 61);
    assert forall|k: int| 0 <= k < 1 + dl implies line[k] != 61 by {
        if k >= 1 {
            assert(line[k] == dec_rep(n)[k - 1]);
            assert(is_digit(line[k]));
        }
    }
    lemma_find_byte2_exact(line, 61, 61, 0, 1 + dl);
    assert(find_byte2(line, 61, 61, 0) == 1 + dl);
    assert(line.subrange(1, 1 + dl) =~= dec_rep(n));
    assert(all_digits(line.subrange(1, 1 + dl)));
    assert(digits_val(line.subrange(1, 1 + dl)) == n);
    assert(line.subrange(1 + dl + 1, line.len() as int) =~= rest);
}

/// The ids of a section whose `i`-th line carries id `i + 1` are exactly
/// `1..=len`.
pub proof fn lemma_sequential_line_ids(out: Seq<Seq<u8>>, i: int)
    requires
        0 <= i <= out.len(),
        forall|k: int|
            0 <= k < out.len() ==> (#[trigger] spec_split_entity(out[k])) is Some
                && spec_split_entity(out[k]).unwrap().0 == k + 1,
    ensures
        forall|v: nat| line_ids_upto(out, i).contains(v) <==> 1 <= v <= i,
    decreases i,
{
    if i > 0 {
        lemma_sequential_line_ids(out, i - 1);
        assert(spec_split_entity(out[i - 1]).unwrap().0 == i);
        assert forall|v: nat| line_ids_upto(out, i).contains(v) <==> 1 <= v <= i by {
            assert(line_ids_upto(out, i) == line_ids_upto(out, i - 1).insert(i as nat));
        }
    }
}

/// Reference integrity is preserved by one deduplication pass, and the pass
/// output numbers its lines sequentially from one.
pub proof fn lemma_dedup_pass_integrity(lines: Seq<Seq<u8>>, md: Option<u32>)
    requires
        refs_resolve(lines),
        lines.len() < u32::MAX,
    ensures
        refs_resolve(spec_dedup_pass(lines, md)),
        spec_dedup_pass(lines, md).len() <= lines.len(),
        forall|i: int|
            0 <= i < spec_dedup_pass(lines, md).len() ==> (#[trigger] spec_split_entity(
                spec_dedup_pass(lines, md)[i],
            )) is Some && spec_split_entity(spec_dedup_pass(lines, md)[i]).unwrap().0 == i + 1,
{
    let out = spec_dedup_pass(lines, md);
    let st = pass_upto(lines, md, lines.len() as int);
    lemma_pass_bounds(lines, md, lines.len() as int);
    lemma_lookup_dom(lines, md, lines.len() as int);
    assert forall|i: int|
        0 <= i < out.len() implies (#[trigger] spec_split_entity(out[i])) is Some
        && spec_split_entity(out[i]).unwrap().0 == i + 1 by {
        assert(st.2[i].0 == i + 1);
        lemma_split_constructed((i + 1) as nat, spec_remap(st.2[i].1, st.1, 0));
    }
    lemma_sequential_line_ids(out, out.len() as int);
    assert forall|j: int|
        0 <= j < out.len() && (#[trigger] spec_split_entity(out[j])) is Some implies
        crate::references::spec_refs_of(spec_split_entity(out[j]).unwrap().1).subset_of(
        line_ids(out),
    ) by {
        let rhs_out = spec_split_entity(out[j]).unwrap().1;
        assert(st.2[j].0 == j + 1);
        lemma_split_constructed((j + 1) as nat, spec_remap(st.2[j].1, st.1, 0));
        assert(rhs_out == spec_remap(st.2[j].1, st.1, 0));
        let content = st.2[j].1;
        crate::references::lemma_remap_scan_vals(content, st.1, 0);
        let outv = crate::references::scan_vals(rhs_out, 0);
        let inv = crate::references::scan_vals(content, 0);
        lemma_kept_provenance(lines, md, lines.len() as int, j);
        let src = choose|jj: int|
            0 <= jj < lines.len() && (#[trigger] spec_split_entity(lines[jj])) is Some && content
                == spec_trim(spec_split_entity(lines[jj]).unwrap().1);
        let rhs_in = spec_split_entity(lines[src]).unwrap().1;
        crate::references::lemma_scan_vals_trim(rhs_in);
        assert(inv == crate::references::scan_vals(rhs_in, 0));
        assert forall|r: nat|
            crate::references::spec_refs_of(rhs_out).contains(r) implies line_ids(out).contains(
            r,
        ) by {
            let idx = choose|idx: int| 0 <= idx < outv.len() && outv[idx] == r;
            let v = inv[idx];
            assert(outv[idx] == crate::references::apply_map(st.1, v));
            assert(crate::references::scan_vals(rhs_in, 0)[idx] == v);
            assert(crate::references::spec_refs_of(rhs_in).contains(v));
            assert(line_ids(lines).contains(v));
            assert(st.1.dom().contains(v));
            assert(1 <= st.1[v] <= out.len());
        }
    }
}

/// Reference integrity is preserved by the whole fixed-point deduplication,
/// whose output also numbers its lines sequentially from one.
pub proof fn lemma_deduplicate_integrity(lines: Seq<Seq<u8>>, md: Option<u32>)
    requires
        refs_resolve(lines),
        lines.len() < u32::MAX,
    ensures
        refs_resolve(spec_deduplicate(lines, md)),
        spec_deduplicate(lines, md).len() <= lines.len(),
        forall|i: int|
            0 <= i < spec_deduplicate(lines, md).len() ==> (#[trigger] spec_split_entity(
                spec_deduplicate(lines, md)[i],
            )) is Some && spec_split_entity(spec_deduplicate(lines, md)[i]).unwrap().0 == i + 1,
    decreases lines.len(),
{
    let out = spec_dedup_pass(lines, md);
    lemma_dedup_pass_integrity(lines, md);
    if out.len() < lines.len() {
        lemma_deduplicate_integrity(out, md);
    }
}

/// The (id, content) pairs described by the kept-entity vector.
pub open spec fn kept_views(ks: Seq<(u32, Vec<u8>)>) -> Seq<(nat, Seq<u8>)> {
    ks.map_values(|e: (u32, Vec<u8>)| (e.0 as nat, e.1@))
}

/// One deduplication pass over the data lines.
#[verifier::rlimit(50)]
fn dedup_pass(in_lines: &Vec<Vec<u8>>, max_decimals: Option<u32>) -> (r: Vec<Vec<u8>>)
    requires
        in_lines@.len() < u32::MAX,
    ensures
        views_of(r@) == spec_dedup_pass(views_of(in_lines@), max_decimals),
        r@.len() <= in_lines@.len(),
{
    let ghost lv = views_of(in_lines@);
    let mut uniques = KeyMap::new();
    let mut lookup = IdMap::new();
    let mut kept: Vec<(u32, Vec<u8>)> = Vec::new();
    let mut i: usize = 0;
    proof {
        assert(kept_views(kept@) =~= pass_upto(lv, max_decimals, 0).2);
    }
    #[verifier::loop_isolation(false)]
    while i < in_lines.len()
        invariant
            i <= lv.len(),
            lv.len() == in_lines@.len(),
            kept@.len() <= i,
            uniques@ == pass_upto(lv, max_decimals, i as int).0,
            lookup@ == pass_upto(lv, max_decimals, i as int).1,
            kept_views(kept@) == pass_upto(lv, max_decimals, i as int).2,
            uniques@.dom().finite(),
        decreases lv.len() - i,
    {
        let ghost st = pass_upto(lv, max_decimals, i as int);
        let ghost st2 = pass_upto(lv, max_decimals, i + 1 as int);
        proof {
            assert(st2 == pass_step(st, lv[i as int], max_decimals));
            assert(lv[i as int] == in_lines@[i as int]@);
            assert(st.2.len() == kept@.len());
        }
        match split_entity_line(&in_lines[i]) {
            None => {
                proof {
                    assert(st2 == st);
                }
            },
            Some(pair) => {
                let id = pair.0;
                let rhs_un = pair.1;
                let rhs = trim_range(&rhs_un, 0, rhs_un.len());
                proof {
                    assert(rhs_un@.subrange(0, rhs_un@.len() as int) =~= rhs_un@);
                }
                let norm = normalize_numbers_in_line(&rhs, max_decimals);
                let key0 = normalize_entity_name(&norm);
                proof {
                    assert(key0@ == canonical_key(rhs@, max_decimals));
                }
                let ty = get_entity_type(&rhs);
                let new_id: u32 = (kept.len() as u32) + 1;
                if is_identity_entity(&ty) {
                    let ghost gkey0 = key0@;
                    let mut key = key0;
                    #[verifier::loop_isolation(false)]
                    while uniques.contains_key(&key)
                        invariant
                            key@.len() >= gkey0.len(),
                            key@ == gkey0 + space_seq((key@.len() - gkey0.len()) as nat),
                            forall|m: nat|
                                m < key@.len() - gkey0.len() ==> uniques@.dom().contains(
                                    gkey0 + #[trigger] space_seq(m),
                                ),
                        decreases uniques.spec_max_key_len() + 1 - key@.len(),
                    {
                        proof {
                            uniques.lemma_contains_len(key@);
                        }
                        let ghost n = (key@.len() - gkey0.len()) as nat;
                        key.push(32);
                        proof {
                            assert(key@ =~= gkey0 + space_seq((n + 1) as nat));
                        }
                    }
                    proof {
                        let j = (key@.len() - gkey0.len()) as nat;
                        lemma_pad_count_exact(uniques@.dom(), gkey0, 0, j);
                        assert(key@ == gkey0 + space_seq(pad_count(uniques@.dom(), gkey0, 0)));
                    }
                    uniques.insert(key, new_id);
                    lookup.insert(id, new_id);
                    kept.push((new_id, rhs));
                    proof {
                        assert(kept_views(kept@) =~= st.2.push((new_id as nat, kept@.last().1@)));
                        assert(kept_views(kept@) == st2.2);
                        assert(uniques@ == st2.0);
                        assert(lookup@ == st2.1);
                    }
                } else {
                    match uniques.get(&key0) {
                        Some(existing) => {
                            lookup.insert(id, existing);
                            proof {
                                assert(uniques@ == st2.0);
                                assert(lookup@ == st2.1);
                                assert(kept_views(kept@) == st2.2);
                            }
                        },
                        None => {
                            uniques.insert(key0, new_id);
                            lookup.insert(id, new_id);
                            kept.push((new_id, rhs));
                            proof {
                                assert(kept_views(kept@) =~= st.2.push(
                                    (new_id as nat, kept@.last().1@),
                                ));
                                assert(kept_views(kept@) == st2.2);
                                assert(uniques@ == st2.0);
                                assert(lookup@ == st2.1);
                            }
                        },
                    }
                }
            },
        }
        i = i + 1;
    }
    let ghost stf = pass_upto(lv, max_decimals, lv.len() as int);
    let ghost target = spec_dedup_pass(lv, max_decimals);
    let mut out: Vec<Vec<u8>> = Vec::new();
    let mut k: usize = 0;
    #[verifier::loop_isolation(false)]
    while k < kept.len()
        invariant
            k <= kept@.len(),
            out@.len() == k,
            target.len() == kept@.len(),
            kept_views(kept@) == stf.2,
            lookup@ == stf.1,
            forall|j: int| 0 <= j < k ==> (#[trigger] out@[j])@ == target[j],
        decreases kept@.len() - k,
    {
        let mut line: Vec<u8> = Vec::new();
        line.push(35);
        let mut digits = u32_to_dec(kept[k].0);
        line.append(&mut digits);
        line.push(61);
        let mut rewritten = remap_references(&kept[k].1, &lookup);
        line.append(&mut rewritten);
        proof {
            assert(kept_views(kept@)[k as int] == (kept@[k as int].0 as nat, kept@[k as int].1@));
            assert(line@ =~= seq![35u8] + dec_rep(stf.2[k as int].0) + seq![61u8] + spec_remap(
                stf.2[k as int].1,
                stf.1,
                0,
            ));
        }
        out.push(line);
        k = k + 1;
    }
    proof {
        assert(views_of(out@) =~= target);
    }
    out
}

/// Iteratively deduplicate STEP data lines.
///
/// Entities with identical canonical content are merged (the duplicate is
/// removed and all references to it are remapped to the surviving entity),
/// and the loop repeats until a fixed point is reached.
pub fn deduplicate(data_lines: &Vec<Vec<u8>>, max_decimals: Option<u32>) -> (r: Vec<Vec<u8>>)
    requires
        data_lines@.len() < u32::MAX,
    ensures
        views_of(r@) == spec_deduplicate(views_of(data_lines@), max_decimals),
        r@.len() <= data_lines@.len(),
{
    let ghost lv = views_of(data_lines@);
    let mut cur = copy_lines(data_lines);
    #[verifier::loop_isolation(false)]
    loop
        invariant
            cur@.len() == views_of(cur@).len(),
            cur@.len() <= data_lines@.len(),
            cur@.len() < u32::MAX,
            spec_deduplicate(views_of(cur@), max_decimals) == spec_deduplicate(lv, max_decimals),
        decreases cur@.len(),
    {
        let next = dedup_pass(&cur, max_decimals);
        if next.len() >= cur.len() {
            return next;
        }
        cur = next;
    }
}

} // verus!
