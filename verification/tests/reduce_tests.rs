use stepreduce::references::collect_references;
use stepreduce::{reduce, ReduceError, ReduceOptions};

fn bv(s: &str) -> Vec<u8> {
    s.as_bytes().to_vec()
}

fn sv(v: Vec<u8>) -> String {
    String::from_utf8(v).unwrap()
}

fn default_options() -> ReduceOptions {
    ReduceOptions { verbose: false, max_decimals: None, use_step_precision: false }
}

#[test]
fn end_to_end_merges_chained_duplicates() {
    let input = "\
HEADER;
DATA;
#1=CARTESIAN_POINT('',0.,0.,0.);
#2=CARTESIAN_POINT('',0.,0.,0.);
#3=DIRECTION('',1.,0.,0.);
#4=AXIS2_PLACEMENT_3D('',#1,#3,#3);
#5=AXIS2_PLACEMENT_3D('',#2,#3,#3);
ENDSEC;
";
    let output = reduce(&bv(input), &default_options()).unwrap();
    let expected = "\
HEADER;
DATA;
#1=CARTESIAN_POINT('',0.,0.,0.);
#2=DIRECTION('',1.,0.,0.);
#3=AXIS2_PLACEMENT_3D('',#1,#2,#2);
ENDSEC;
";
    assert_eq!(sv(output), expected);
}

#[test]
fn end_to_end_derives_precision_from_uncertainty() {
    let input = "\
DATA;
#1=UNCERTAINTY_MEASURE_WITH_UNIT(LENGTH_MEASURE(0.001));
#2=CARTESIAN_POINT('',1.00001);
#3=CARTESIAN_POINT('',1.00002);
ENDSEC;
";
    let options =
        ReduceOptions { verbose: false, max_decimals: None, use_step_precision: true };
    let output = reduce(&bv(input), &options).unwrap();
    // With four derived decimal places the two points compare equal, and the
    // survivor keeps its original raw content.
    let expected = "\
DATA;
#1=UNCERTAINTY_MEASURE_WITH_UNIT(LENGTH_MEASURE(0.001));
#2=CARTESIAN_POINT('',1.00001);
ENDSEC;
";
    assert_eq!(sv(output), expected);
}

#[test]
fn end_to_end_preserves_identity_entities() {
    let input = "\
DATA;
#1=PRODUCT('a','a',$,(#3));
#2=PRODUCT('b','b',$,(#3));
#3=PRODUCT_CONTEXT('',#4,'design');
ENDSEC;
";
    let output = reduce(&bv(input), &default_options()).unwrap();
    let text = sv(output);
    let products = text.lines().filter(|l| l.contains("PRODUCT(")).count();
    assert_eq!(products, 2);
}

#[test]
fn reduction_is_idempotent_on_sample() {
    let input = "\
HEADER;
DATA;
#1=APPLICATION_CONTEXT('core');
#2=PRODUCT_DEFINITION('pd',#4);
#3=CARTESIAN_POINT('',1.,2.,3.);
#4=CARTESIAN_POINT('',0.50,0.,0.);
#5=CARTESIAN_POINT('',5.0E-1,0.,0.);
ENDSEC;
";
    let once = reduce(&bv(input), &default_options()).unwrap();
    let twice = reduce(&once, &default_options()).unwrap();
    assert_eq!(once, twice);
}

#[test]
fn surviving_references_resolve() {
    let input = "\
DATA;
#1=SHAPE_DEFINITION_REPRESENTATION(#2,#3);
#2=PRODUCT_DEFINITION_SHAPE('','',#10);
#3=SHAPE_REPRESENTATION('',(#11),#12);
#10=PRODUCT_DEFINITION('pd','',#15,#16);
#11=AXIS2_PLACEMENT_3D('',#17,#18,#18);
#12=REPRESENTATION_CONTEXT('','');
#15=PRODUCT_DEFINITION_FORMATION('','',#21);
#16=APPLICATION_CONTEXT('core');
#17=CARTESIAN_POINT('',0.,0.,0.);
#18=DIRECTION('',0.,0.,1.);
#21=PRODUCT('p','','',(#23));
#23=PRODUCT_CONTEXT('',#16,'');
#99=CARTESIAN_POINT('',9.,9.,9.);
ENDSEC;
";
    let output = reduce(&bv(input), &default_options()).unwrap();
    let text = sv(output);
    let data_lines: Vec<&str> = text
        .lines()
        .filter(|l| l.starts_with('#'))
        .collect();
    let count = data_lines.len() as u32;
    assert!(count > 0);
    // Every reference token in the surviving content names a surviving id.
    for line in &data_lines {
        let rhs = bv(line.split_once('=').unwrap().1);
        let refs = collect_references(&rhs);
        for &r in refs.as_vec() {
            assert!(r >= 1 && r <= count, "dangling reference #{r} in {line}");
        }
    }
    // The unreferenced point was dropped.
    assert!(!text.contains("9.,9.,9."));
}

#[test]
fn empty_input_reduces_to_empty_output() {
    let output = reduce(&bv(""), &default_options()).unwrap();
    assert_eq!(output.len(), 0);
}

#[test]
fn explicit_bound_wins_when_smaller() {
    let input = "\
DATA;
#1=UNCERTAINTY_MEASURE_WITH_UNIT(LENGTH_MEASURE(0.001));
#2=CARTESIAN_POINT('',1.004);
#3=CARTESIAN_POINT('',1.009);
ENDSEC;
";
    // Derived bound is 4, explicit bound 2 is smaller: both points truncate
    // to 1.00 and merge.
    let options =
        ReduceOptions { verbose: false, max_decimals: Some(2), use_step_precision: true };
    let output = reduce(&bv(input), &options).unwrap();
    let text = sv(output);
    let points = text.lines().filter(|l| l.contains("CARTESIAN_POINT")).count();
    assert_eq!(points, 1);
}

#[test]
fn error_carries_its_message() {
    let io = ReduceError::Io(String::from("file vanished"));
    assert_eq!(io.into_message(), "file vanished");
    let parse = ReduceError::Parse(String::from("bad section"));
    assert_eq!(parse.into_message(), "bad section");
}

#[test]
fn default_options_request_nothing() {
    let options = ReduceOptions::default();
    assert!(!options.verbose);
    assert!(options.max_decimals.is_none());
    assert!(!options.use_step_precision);
}
