//! Structural parsing of a STEP exchange file into its header, data and
//! footer regions. Data statements may continue over several physical lines
//! until one ends with the statement terminator; header lines are kept with
//! trailing whitespace trimmed, footer lines verbatim.

use vstd::prelude::*;

use crate::bytes::{
    contains_keyword, contains_seq, copy_all, copy_range, is_alpha, is_trim_byte, is_trim_space,
    lemma_find_byte2, lemma_find_byte2_exact, lemma_trim_end_idx_exact, push_range, spec_trim,
    spec_trim_end, trim_range, views_of,
};

verus! {

pub const MARK_DATA: [u8; 5] = ['D' as u8, 'A' as u8, 'T' as u8, 'A' as u8, ';' as u8];

pub const MARK_ENDSEC: [u8; 7] = ['E' as u8, 'N' as u8, 'D' as u8, 'S' as u8, 'E' as u8, 'C' as u8, ';' as u8];

/// Physical lines of a byte stream: split at each line feed, with one
/// carriage return stripped from the end of every terminated line.
pub open spec fn spec_lines_from(s: Seq<u8>, pos: int) -> Seq<Seq<u8>>
    decreases s.len() - pos,
    via spec_lines_from_dec
{
    if pos < 0 || pos >= s.len() {
        Seq::empty()
    } else {
        let e = crate::bytes::find_byte2(s, 10, 10, pos);
        if e >= s.len() {
            seq![s.subrange(pos, s.len() as int)]
        } else {
            let raw = s.subrange(pos, e);
            let line = if raw.len() > 0 && raw.last() == 13 {
                raw.drop_last()
            } else {
                raw
            };
            seq![line] + spec_lines_from(s, e + 1)
        }
    }
}

#[via_fn]
proof fn spec_lines_from_dec(s: Seq<u8>, pos: int) {
    if 0 <= pos < s.len() {
        lemma_find_byte2(s, 10, 10, pos);
    }
}

/// Split raw file bytes into physical lines.
pub fn split_lines(input: &Vec<u8>) -> (r: Vec<Vec<u8>>)
    ensures
        views_of(r@) == spec_lines_from(input@, 0),
        r@.len() <= input@.len(),
{
    let ghost sv = input@;
    let mut out: Vec<Vec<u8>> = Vec::new();
    let mut pos: usize = 0;
    #[verifier::loop_isolation(false)]
    while pos < input.len()
        invariant
            pos <= sv.len(),
            out@.len() <= pos,
            views_of(out@) + spec_lines_from(sv, pos as int) =~= spec_lines_from(sv, 0),
        decreases sv.len() - pos,
    {
        let ghost prev = out@;
        let mut e: usize = pos;
        #[verifier::loop_isolation(false)]
        while e < input.len() && input[e] != 10
            invariant
                pos <= e <= sv.len(),
                forall|k: int| pos <= k < e ==> sv[k] != 10,
            decreases sv.len() - e,
        {
            e = e + 1;
        }
        proof {
            lemma_find_byte2_exact(sv, 10, 10, pos as int, e as int);
        }
        if e >= input.len() {
            let line = copy_range(input, pos, input.len());
            out.push(line);
            proof {
                assert(views_of(out@) =~= views_of(prev) + seq![sv.subrange(pos as int, sv.len() as int)]);
            }
            pos = input.len();
        } else {
            let to = if e > pos && input[e - 1] == 13 {
                e - 1
            } else {
                e
            };
            let line = copy_range(input, pos, to);
            proof {
                let raw = sv.subrange(pos as int, e as int);
                if raw.len() > 0 && raw.last() == 13 {
                    assert(line@ =~= raw.drop_last());
                } else {
                    assert(line@ =~= raw);
                }
            }
            out.push(line);
            proof {
                assert(views_of(out@) =~= views_of(prev) + seq![views_of(out@).last()]);
            }
            pos = e + 1;
        }
    }
    out
}

/// Parser state after some lines: the two section flags, the continuation
/// flag, and the three line groups.
pub open spec fn parse_step(
    st: (bool, bool, bool, Seq<Seq<u8>>, Seq<Seq<u8>>, Seq<Seq<u8>>),
    line: Seq<u8>,
) -> (bool, bool, bool, Seq<Seq<u8>>, Seq<Seq<u8>>, Seq<Seq<u8>>) {
    let past_header = st.0;
    let past_data = st.1;
    let continuing = st.2;
    if past_header {
        if past_data || contains_seq(line, MARK_ENDSEC@) {
            (past_header, true, continuing, st.3, st.4, st.5.push(line))
        } else {
            let trimmed = spec_trim(line);
            let joined_data = if continuing && st.4.len() > 0 {
                let last = st.4.last();
                let joined = if trimmed.len() > 0 && is_alpha(trimmed[0]) {
                    last + seq![32u8] + trimmed
                } else {
                    last + trimmed
                };
                st.4.update(st.4.len() - 1, joined)
            } else {
                st.4.push(trimmed)
            };
            let te = spec_trim_end(line);
            let next_continuing = !(te.len() > 0 && te.last() == 59);
            (past_header, past_data, next_continuing, st.3, joined_data, st.5)
        }
    } else {
        (
            contains_seq(line, MARK_DATA@),
            past_data,
            continuing,
            st.3.push(spec_trim_end(line)),
            st.4,
            st.5,
        )
    }
}

/// Parser state after the first `i` lines.
pub open spec fn parse_upto(lines: Seq<Seq<u8>>, i: int) -> (
    bool,
    bool,
    bool,
    Seq<Seq<u8>>,
    Seq<Seq<u8>>,
    Seq<Seq<u8>>,
)
    decreases i,
{
    if i <= 0 {
        (false, false, false, Seq::empty(), Seq::empty(), Seq::empty())
    } else {
        parse_step(parse_upto(lines, i - 1), lines[i - 1])
    }
}

/// The three sections of a STEP file: everything before and including the
/// data marker, the joined data statements, and everything from the section
/// end onward.
pub struct ParseResult {
    pub header: Vec<Vec<u8>>,
    pub data: Vec<Vec<u8>>,
    pub footer: Vec<Vec<u8>>,
}

/// Parse raw STEP file bytes into header, data and footer sections.
///
/// Multi-line data entities (lines not ending with the statement terminator)
/// are joined into a single statement. Header lines keep their text with
/// trailing whitespace trimmed; footer lines are kept verbatim.
#[verifier::rlimit(100)]
pub fn parse_data_section(input: &Vec<u8>) -> (r: ParseResult)
    ensures
        ({
            let st = parse_upto(spec_lines_from(input@, 0), spec_lines_from(input@, 0).len() as int);
            views_of(r.header@) == st.3 && views_of(r.data@) == st.4 && views_of(r.footer@) == st.5
        }),
        r.data@.len() <= input@.len(),
{
    let lines = split_lines(input);
    let ghost lv = views_of(lines@);
    let mut past_header = false;
    let mut past_data = false;
    let mut continuing = false;
    let mut header: Vec<Vec<u8>> = Vec::new();
    let mut data: Vec<Vec<u8>> = Vec::new();
    let mut footer: Vec<Vec<u8>> = Vec::new();
    let mut i: usize = 0;
    #[verifier::loop_isolation(false)]
    while i < lines.len()
        invariant
            i <= lv.len(),
            lv.len() == lines@.len(),
            data@.len() <= i,
            past_header == parse_upto(lv, i as int).0,
            past_data == parse_upto(lv, i as int).1,
            continuing == parse_upto(lv, i as int).2,
            views_of(header@) == parse_upto(lv, i as int).3,
            views_of(data@) == parse_upto(lv, i as int).4,
            views_of(footer@) == parse_upto(lv, i as int).5,
            continuing ==> data@.len() > 0,
        decreases lv.len() - i,
    {
        let ghost st = parse_upto(lv, i as int);
        let ghost st2 = parse_upto(lv, i + 1 as int);
        proof {
            assert(st2 == parse_step(st, lv[i as int]));
            assert(lv[i as int] == lines@[i as int]@);
        }
        let line = &lines[i];
        if past_header {
            if past_data || contains_keyword(line, &MARK_ENDSEC) {
                past_data = true;
                let copy = copy_all(line);
                footer.push(copy);
                proof {
                    assert(views_of(footer@) =~= st.5.push(lv[i as int]));
                }
            } else {
                let trimmed = trim_range(line, 0, line.len());
                proof {
                    assert(line@.subrange(0, line@.len() as int) =~= line@);
                }
                if continuing {
                    let mut last = data.pop().unwrap();
                    let ghost last0 = last@;
                    if trimmed.len() > 0 {
                        let b0 = trimmed[0];
                        if (b0 >= 65 && b0 <= 90) || (b0 >= 97 && b0 <= 122) {
                            last.push(32);
                        }
                    }
                    push_range(&mut last, &trimmed, 0, trimmed.len());
                    proof {
                        assert(trimmed@.subrange(0, trimmed@.len() as int) =~= trimmed@);
                        if trimmed@.len() > 0 && is_alpha(trimmed@[0]) {
                            assert(last@ =~= last0 + seq![32u8] + trimmed@);
                        } else {
                            assert(last@ =~= last0 + trimmed@);
                        }
                    }
                    data.push(last);
                    proof {
                        assert(views_of(data@) =~= st.4.update(st.4.len() - 1, last@));
                    }
                } else {
                    data.push(trimmed);
                    proof {
                        assert(views_of(data@) =~= st.4.push(spec_trim(lv[i as int])));
                    }
                }
                let mut b: usize = line.len();
                #[verifier::loop_isolation(false)]
                while b > 0 && is_trim_byte(line[b - 1])
                    invariant
                        b <= line@.len(),
                        forall|k: int| b <= k < line@.len() ==> is_trim_space(line@[k]),
                    decreases b,
                {
                    b = b - 1;
                }
                proof {
                    lemma_trim_end_idx_exact(line@, b as int, line@.len() as int);
                    assert(spec_trim_end(line@) == line@.subrange(0, b as int));
                }
                continuing = !(b > 0 && line[b - 1] == 59);
                proof {
                    let te = spec_trim_end(lv[i as int]);
                    if b > 0 {
                        assert(te.last() == lv[i as int][b - 1]);
                    }
                    assert(continuing == st2.2);
                }
            }
        } else {
            if contains_keyword(line, &MARK_DATA) {
                past_header = true;
            }
            let mut b: usize = line.len();
            #[verifier::loop_isolation(false)]
            while b > 0 && is_trim_byte(line[b - 1])
                invariant
                    b <= line@.len(),
                    forall|k: int| b <= k < line@.len() ==> is_trim_space(line@[k]),
                decreases b,
            {
                b = b - 1;
            }
            proof {
                lemma_trim_end_idx_exact(line@, b as int, line@.len() as int);
            }
            let trimmed = copy_range(line, 0, b);
            header.push(trimmed);
            proof {
                assert(views_of(header@) =~= st.3.push(spec_trim_end(lv[i as int])));
            }
        }
        i = i + 1;
    }
    ParseResult { header, data, footer }
}

} // verus!
