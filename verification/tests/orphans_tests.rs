use stepreduce::orphans::remove_orphans;

fn bv(s: &str) -> Vec<u8> {
    s.as_bytes().to_vec()
}

fn contains_sub(hay: &[u8], needle: &[u8]) -> bool {
    hay.windows(needle.len()).any(|w| w == needle)
}

#[test]
fn removes_unreachable() {
    let lines = vec![
        bv("#1=APPLICATION_CONTEXT('core')"),
        bv("#2=PRODUCT_DEFINITION('pd',#1)"),
        bv("#3=CARTESIAN_POINT('',0.,0.,0.)"), // orphan
    ];
    let result = remove_orphans(&lines);
    assert_eq!(result.len(), 2);
    // The orphan CARTESIAN_POINT should be gone.
    assert!(!result.iter().any(|l| contains_sub(l, b"CARTESIAN_POINT")));
}

#[test]
fn keeps_transitively_reachable() {
    let lines = vec![
        bv("#1=APPLICATION_CONTEXT('core')"),
        bv("#2=PRODUCT_DEFINITION('pd',#3)"),
        bv("#3=CARTESIAN_POINT('',0.,0.,0.)"), // reachable via #2
    ];
    let result = remove_orphans(&lines);
    assert_eq!(result.len(), 3);
}

#[test]
fn no_roots_returns_all() {
    let lines = vec![bv("#1=CARTESIAN_POINT('',0.,0.,0.)"), bv("#2=DIRECTION('',1.,0.,0.)")];
    let result = remove_orphans(&lines);
    assert_eq!(result.len(), 2);
}

#[test]
fn keeps_shape_representation_relationship_as_root() {
    // SHAPE_REPRESENTATION_RELATIONSHIP is a top-level structural link
    // between a SHAPE_REPRESENTATION and an
    // ADVANCED_BREP_SHAPE_REPRESENTATION. Nothing references it by ID;
    // it must be a reachability root so the BREP subtree is preserved.
    let lines = vec![
        bv("#1=SHAPE_DEFINITION_REPRESENTATION(#2,#3)"),
        bv("#2=PRODUCT_DEFINITION_SHAPE('','',#10)"),
        bv("#3=SHAPE_REPRESENTATION('',(#11),#12)"),
        bv("#4=SHAPE_REPRESENTATION_RELATIONSHIP('','',#3,#5)"),
        bv("#5=ADVANCED_BREP_SHAPE_REPRESENTATION('',(#6),#12)"),
        bv("#6=MANIFOLD_SOLID_BREP('',#7)"),
        bv("#7=CLOSED_SHELL('',(#8))"),
        bv("#8=ADVANCED_FACE('',(#9),#13,.T.)"),
        bv("#9=FACE_BOUND('',#14,.T.)"),
        bv("#10=PRODUCT_DEFINITION('pd','',#15,#16)"),
        bv("#11=AXIS2_PLACEMENT_3D('',#17,#18,#19)"),
        bv("#12=REPRESENTATION_CONTEXT('','')"),
        bv("#13=PLANE('',#11)"),
        bv("#14=EDGE_LOOP('',(#20))"),
        bv("#15=PRODUCT_DEFINITION_FORMATION('','',#21)"),
        bv("#16=APPLICATION_CONTEXT('core')"),
        bv("#17=CARTESIAN_POINT('',0.,0.,0.)"),
        bv("#18=DIRECTION('',0.,0.,1.)"),
        bv("#19=DIRECTION('',1.,0.,0.)"),
        bv("#20=ORIENTED_EDGE('',*,*,#22,.T.)"),
        bv("#21=PRODUCT('p','','',(#23))"),
        bv("#22=EDGE_CURVE('',#24,#24,#25,.T.)"),
        bv("#23=PRODUCT_CONTEXT('',#16,'')"),
        bv("#24=VERTEX_POINT('',#17)"),
        bv("#25=LINE('',#17,#26)"),
        bv("#26=VECTOR('',#18,1.)"),
    ];
    let result = remove_orphans(&lines);
    // The ADVANCED_BREP_SHAPE_REPRESENTATION subtree must survive
    // because SHAPE_REPRESENTATION_RELATIONSHIP is a reachability root.
    assert!(
        result.iter().any(|l| contains_sub(l, b"ADVANCED_BREP_SHAPE_REPRESENTATION")),
        "ADVANCED_BREP_SHAPE_REPRESENTATION must be kept via SHAPE_REPRESENTATION_RELATIONSHIP root"
    );
    assert!(
        result.iter().any(|l| contains_sub(l, b"MANIFOLD_SOLID_BREP")),
        "MANIFOLD_SOLID_BREP must be reachable from SHAPE_REPRESENTATION_RELATIONSHIP"
    );
    assert_eq!(result.len(), lines.len());
}

#[test]
fn cycle_is_tolerated() {
    // Two entities referencing each other must not loop the collector.
    let lines = vec![
        bv("#1=PRODUCT_DEFINITION('pd',#2)"),
        bv("#2=WIDGET('',#3)"),
        bv("#3=WIDGET('',#2)"),
    ];
    let result = remove_orphans(&lines);
    assert_eq!(result.len(), 3);
}

#[test]
fn survivors_are_renumbered_and_remapped() {
    let lines = vec![
        bv("#7=CARTESIAN_POINT('',0.,0.,0.)"),
        bv("#9=PRODUCT_DEFINITION('pd',#12)"),
        bv("#12=DIRECTION('',1.,0.,0.)"),
    ];
    let result = remove_orphans(&lines);
    assert_eq!(result.len(), 2);
    assert_eq!(String::from_utf8(result[0].clone()).unwrap(), "#1=PRODUCT_DEFINITION('pd',#2)");
    assert_eq!(String::from_utf8(result[1].clone()).unwrap(), "#2=DIRECTION('',1.,0.,0.)");
}
