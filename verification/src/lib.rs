//! Lossless size reduction for STEP (ISO 10303-21) CAD exchange files.
//!
//! The pipeline splits a file into header, data and footer regions, merges
//! structurally identical data entities, deletes entities unreachable from
//! the semantic roots, and reassembles the file byte for byte.

use vstd::prelude::*;

pub mod bytes;
pub mod deduplicate;
pub mod error;
pub mod find_numbers;
pub mod normalize;
pub mod orphans;
pub mod parse;
pub mod references;
pub mod table;

pub use crate::error::ReduceError;

use crate::bytes::{push_range, views_of};
use crate::deduplicate::spec_deduplicate;
use crate::normalize::spec_extract_uncertainty;
use crate::orphans::spec_remove_orphans;
use crate::parse::{parse_upto, spec_lines_from};

verus! {

/// Options controlling the reduction process.
pub struct ReduceOptions {
    /// Report reduction statistics at the caller's boundary.
    pub verbose: bool,
    /// Maximum number of decimal places for numeric comparison.
    ///
    /// `None` means no rounding: numbers are only normalized (scientific
    /// notation expanded, redundant zeros stripped).
    pub max_decimals: Option<u32>,
    /// Derive precision from the file's embedded uncertainty declaration.
    ///
    /// When both this and `max_decimals` apply, the smaller value wins.
    pub use_step_precision: bool,
}

impl Default for ReduceOptions {
    fn default() -> (r: ReduceOptions)
        ensures
            !r.verbose,
            r.max_decimals is None,
            !r.use_step_precision,
    {
        ReduceOptions { verbose: false, max_decimals: None, use_step_precision: false }
    }
}

/// The comparison bound in force: the explicit bound, tightened by the
/// file-derived bound when that derivation is requested and succeeds.
pub open spec fn spec_effective_decimals(options: ReduceOptions, data: Seq<Seq<u8>>) -> Option<
    u32,
> {
    let derived = spec_extract_uncertainty(data, 0);
    if options.use_step_precision && derived is Some {
        let d = derived.unwrap();
        match options.max_decimals {
            Some(cur) => if cur as nat <= d {
                Some(cur)
            } else {
                Some(d as u32)
            },
            None => Some(d as u32),
        }
    } else {
        options.max_decimals
    }
}

/// One line group flattened to bytes, each line followed by a line feed.
pub open spec fn join_lines(ls: Seq<Seq<u8>>) -> Seq<u8>
    decreases ls.len(),
{
    if ls.len() == 0 {
        Seq::empty()
    } else {
        join_lines(ls.drop_last()) + ls.last() + seq![10u8]
    }
}

/// The whole reduction: parse, derive the comparison bound, deduplicate,
/// collect orphans, and reassemble the three regions.
pub open spec fn spec_reduce(input: Seq<u8>, options: ReduceOptions) -> Seq<u8> {
    let lines = spec_lines_from(input, 0);
    let st = parse_upto(lines, lines.len() as int);
    let md = spec_effective_decimals(options, st.4);
    let reduced = spec_remove_orphans(spec_deduplicate(st.4, md));
    join_lines(st.3) + join_lines(reduced) + join_lines(st.5)
}

/// Append one line group to the output, each line followed by a line feed.
fn append_lines(out: &mut Vec<u8>, lines: &Vec<Vec<u8>>)
    ensures
        final(out)@ == old(out)@ + join_lines(views_of(lines@)),
{
    let ghost lv = views_of(lines@);
    let mut i: usize = 0;
    proof {
        assert(lv.subrange(0, 0) =~= Seq::<Seq<u8>>::empty());
        assert(out@ =~= old(out)@ + join_lines(lv.subrange(0, 0)));
    }
    #[verifier::loop_isolation(false)]
    while i < lines.len()
        invariant
            i <= lv.len(),
            lv.len() == lines@.len(),
            out@ == old(out)@ + join_lines(lv.subrange(0, i as int)),
        decreases lv.len() - i,
    {
        let line = &lines[i];
        push_range(out, line, 0, line.len());
        out.push(10);
        proof {
            assert(lv.subrange(0, i + 1 as int).drop_last() =~= lv.subrange(0, i as int));
            assert(lv.subrange(0, i + 1 as int).last() == lv[i as int]);
            assert(line@.subrange(0, line@.len() as int) =~= line@);
            assert(lv[i as int] == lines@[i as int]@);
            assert(out@ =~= old(out)@ + join_lines(lv.subrange(0, i + 1 as int)));
        }
        i = i + 1;
    }
    proof {
        assert(lv.subrange(0, lv.len() as int) =~= lv);
    }
}

/// Reduce a STEP file by deduplicating entities and removing orphans.
///
/// The transformation is a pure function of the input bytes and the options;
/// malformed data lines are tolerated, never a cause of failure, so the
/// result is always the reduced bytes.
pub fn reduce(input: &Vec<u8>, options: &ReduceOptions) -> (r: Result<Vec<u8>, ReduceError>)
    requires
        input@.len() < u32::MAX,
    ensures
        r matches Ok(out) && out@ == spec_reduce(input@, *options),
{
    let parsed = parse::parse_data_section(input);
    let max_decimals = if options.use_step_precision {
        match normalize::extract_uncertainty(&parsed.data) {
            Some(step_decimals) => match options.max_decimals {
                Some(current) => if current <= step_decimals {
                    Some(current)
                } else {
                    Some(step_decimals)
                },
                None => Some(step_decimals),
            },
            None => options.max_decimals,
        }
    } else {
        options.max_decimals
    };
    proof {
        let lines = spec_lines_from(input@, 0);
        let st = parse_upto(lines, lines.len() as int);
        assert(max_decimals == spec_effective_decimals(*options, st.4));
    }
    let deduplicated = deduplicate::deduplicate(&parsed.data, max_decimals);
    let reduced = orphans::remove_orphans(&deduplicated);
    let mut out: Vec<u8> = Vec::new();
    append_lines(&mut out, &parsed.header);
    append_lines(&mut out, &reduced);
    append_lines(&mut out, &parsed.footer);
    Ok(out)
}

} // verus!
