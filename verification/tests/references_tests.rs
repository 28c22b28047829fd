use stepreduce::references::{collect_references, remap_references};
use stepreduce::table::IdMap;

fn bv(s: &str) -> Vec<u8> {
    s.as_bytes().to_vec()
}

fn sv(v: Vec<u8>) -> String {
    String::from_utf8(v).unwrap()
}

#[test]
fn basic() {
    let refs = collect_references(&bv("FOO(#1,#2,#3)"));
    assert_eq!(refs.len(), 3);
    assert!(refs.contains(1));
    assert!(refs.contains(2));
    assert!(refs.contains(3));
}

#[test]
fn no_refs() {
    let refs = collect_references(&bv("CARTESIAN_POINT('',0.,1.,2.)"));
    assert_eq!(refs.len(), 0);
}

#[test]
fn references_basic() {
    let mut lookup = IdMap::new();
    lookup.insert(1, 10);
    lookup.insert(3, 30);
    let result = remap_references(&bv("FOO(#1,#2,#3)"), &lookup);
    assert_eq!(sv(result), "FOO(#10,#2,#30)");
}

#[test]
fn no_matches() {
    let lookup = IdMap::new();
    let result = remap_references(&bv("FOO(#1,#2)"), &lookup);
    assert_eq!(sv(result), "FOO(#1,#2)");
}

#[test]
fn duplicate_references_collected_once() {
    let refs = collect_references(&bv("FOO(#5,#5,#5)"));
    assert_eq!(refs.len(), 1);
    assert!(refs.contains(5));
}

#[test]
fn hash_without_digits_is_not_a_reference() {
    let refs = collect_references(&bv("FOO(#,'#x',#7)"));
    assert_eq!(refs.len(), 1);
    assert!(refs.contains(7));
}

#[test]
fn unmapped_tokens_keep_their_exact_bytes() {
    let mut lookup = IdMap::new();
    lookup.insert(1, 2);
    let result = remap_references(&bv("FOO(#1,#007)"), &lookup);
    assert_eq!(sv(result), "FOO(#2,#007)");
}
