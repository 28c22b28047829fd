use stepreduce::deduplicate::{deduplicate, get_entity_type, is_identity_entity};

fn bv(s: &str) -> Vec<u8> {
    s.as_bytes().to_vec()
}

fn sv(v: Vec<u8>) -> String {
    String::from_utf8(v).unwrap()
}

fn contains_sub(hay: &[u8], needle: &[u8]) -> bool {
    hay.windows(needle.len()).any(|w| w == needle)
}

#[test]
fn with_parens() {
    assert_eq!(sv(get_entity_type(&bv("PRODUCT('foo',#1)"))), "PRODUCT");
}

#[test]
fn bare() {
    assert_eq!(sv(get_entity_type(&bv("  FOO_BAR  "))), "FOO_BAR");
}

#[test]
fn removes_duplicates() {
    let lines = vec![
        bv("#1=CARTESIAN_POINT('',0.,0.,0.)"),
        bv("#2=CARTESIAN_POINT('',0.,0.,0.)"),
        bv("#3=DIRECTION('',1.,0.,0.)"),
        bv("#4=AXIS2_PLACEMENT_3D('',#1,#3,#3)"),
        bv("#5=AXIS2_PLACEMENT_3D('',#2,#3,#3)"),
    ];
    let result = deduplicate(&lines, None);
    // #2 should be merged into #1, and #5 into #4.
    assert!(result.len() < lines.len());
}

#[test]
fn preserves_identity_entities() {
    let lines = vec![
        bv("#1=PRODUCT('a','a',$,(#3))"),
        bv("#2=PRODUCT('b','b',$,(#3))"),
        bv("#3=PRODUCT_CONTEXT('',#4,'design')"),
    ];
    let result = deduplicate(&lines, None);
    // Both PRODUCTs should survive (identity entities).
    let product_count = result.iter().filter(|l| contains_sub(l, b"PRODUCT(")).count();
    assert_eq!(product_count, 2);
}

#[test]
fn chained_merges_reach_fixed_point() {
    // #4 and #5 only become identical once #1 and #2 have been merged.
    let lines = vec![
        bv("#1=CARTESIAN_POINT('',0.,0.,0.)"),
        bv("#2=CARTESIAN_POINT('',0.,0.,0.)"),
        bv("#3=DIRECTION('',1.,0.,0.)"),
        bv("#4=AXIS2_PLACEMENT_3D('',#1,#3,#3)"),
        bv("#5=AXIS2_PLACEMENT_3D('',#2,#3,#3)"),
    ];
    let result = deduplicate(&lines, None);
    assert_eq!(result.len(), 3);
    assert_eq!(sv(result[0].clone()), "#1=CARTESIAN_POINT('',0.,0.,0.)");
    assert_eq!(sv(result[1].clone()), "#2=DIRECTION('',1.,0.,0.)");
    assert_eq!(sv(result[2].clone()), "#3=AXIS2_PLACEMENT_3D('',#1,#2,#2)");
}

#[test]
fn identical_identity_entities_stay_separate() {
    // Byte-identical PRODUCTs must both survive.
    let lines = vec![bv("#1=PRODUCT('a','a',$,(#3))"), bv("#2=PRODUCT('a','a',$,(#3))")];
    let result = deduplicate(&lines, None);
    assert_eq!(result.len(), 2);
}

#[test]
fn name_differences_do_not_block_merges() {
    // Non-identity entities differing only in their quoted name merge.
    let lines = vec![bv("#1=CARTESIAN_POINT('a',1.,2.)"), bv("#2=CARTESIAN_POINT('b',1.,2.)")];
    let result = deduplicate(&lines, None);
    assert_eq!(result.len(), 1);
}

#[test]
fn malformed_lines_are_skipped() {
    let lines = vec![bv("garbage without equals"), bv("#1=DIRECTION('',1.,0.,0.)")];
    let result = deduplicate(&lines, None);
    assert_eq!(result.len(), 1);
    assert_eq!(sv(result[0].clone()), "#1=DIRECTION('',1.,0.,0.)");
}

#[test]
fn oversized_ids_are_treated_as_malformed() {
    // An id that does not fit the id space is skipped, not mangled.
    let lines = vec![bv("#99999999999999999999=FOO()"), bv("#1=DIRECTION('',1.,0.,0.)")];
    let result = deduplicate(&lines, None);
    assert_eq!(result.len(), 1);
    assert_eq!(sv(result[0].clone()), "#1=DIRECTION('',1.,0.,0.)");
}

#[test]
fn identity_list_membership() {
    assert!(is_identity_entity(&bv("PRODUCT")));
    assert!(is_identity_entity(&bv("APPLICATION_CONTEXT")));
    assert!(is_identity_entity(&bv("MANIFOLD_SOLID_BREP")));
    assert!(!is_identity_entity(&bv("CARTESIAN_POINT")));
    assert!(!is_identity_entity(&bv("DIRECTION")));
}
