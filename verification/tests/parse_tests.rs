use stepreduce::parse::parse_data_section;

fn bv(s: &str) -> Vec<u8> {
    s.as_bytes().to_vec()
}

fn sv(v: Vec<u8>) -> String {
    String::from_utf8(v).unwrap()
}

#[test]
fn basic_parse() {
    let input = "\
HEADER;
FILE_DESCRIPTION(('test'),'2;1');
ENDSEC;
DATA;
#1=PRODUCT('widget','widget',$,(#2));
#2=PRODUCT_CONTEXT('',#3,'design');
ENDSEC;
END-ISO-10303-21;
";
    let result = parse_data_section(&bv(input));
    assert_eq!(result.header.len(), 4); // HEADER; through DATA;
    assert_eq!(result.data.len(), 2);
    assert_eq!(result.footer.len(), 2); // ENDSEC; END-ISO...
    assert!(sv(result.data[0].clone()).starts_with("#1="));
}

#[test]
fn continuation_lines() {
    let input = "\
DATA;
#1=LONG_ENTITY('foo',
#2,#3,
#4);
#5=SHORT('bar');
ENDSEC;
";
    let result = parse_data_section(&bv(input));
    assert_eq!(result.data.len(), 2);
    assert!(sv(result.data[0].clone()).contains("#2,#3,"));
    assert!(sv(result.data[0].clone()).ends_with(';'));
}

#[test]
fn continuation_separator_only_before_letters() {
    // A continuation starting with an alphabetic character gets one space;
    // one starting with punctuation is appended directly.
    let input = "DATA;\n#1=THING('a',\nSECOND_PART);\n#2=OTHER(#1,\n#3);\nENDSEC;\n";
    let result = parse_data_section(&bv(input));
    assert_eq!(result.data.len(), 2);
    assert_eq!(sv(result.data[0].clone()), "#1=THING('a', SECOND_PART);");
    assert_eq!(sv(result.data[1].clone()), "#2=OTHER(#1,#3);");
}

#[test]
fn empty_input_has_no_sections() {
    let result = parse_data_section(&bv(""));
    assert_eq!(result.header.len(), 0);
    assert_eq!(result.data.len(), 0);
    assert_eq!(result.footer.len(), 0);
}

#[test]
fn carriage_returns_are_stripped_per_line() {
    let input = "DATA;\r\n#1=A();\r\nENDSEC;\r\n";
    let result = parse_data_section(&bv(input));
    assert_eq!(sv(result.header[0].clone()), "DATA;");
    assert_eq!(sv(result.data[0].clone()), "#1=A();");
    assert_eq!(sv(result.footer[0].clone()), "ENDSEC;");
}

#[test]
fn header_lines_lose_trailing_whitespace() {
    let input = "HEADER;   \nDATA;\t\n#1=A();\nENDSEC;\n";
    let result = parse_data_section(&bv(input));
    assert_eq!(sv(result.header[0].clone()), "HEADER;");
    assert_eq!(sv(result.header[1].clone()), "DATA;");
    assert_eq!(result.data.len(), 1);
}
