//! A compiler for a compact rhythm notation: text is parsed into a tree,
//! its cyclic constructs are unrolled into concrete measures, and the
//! measures are laid out on a fixed tick grid.

use vstd::prelude::*;
use vstd::string::StringSliceAdditionalSpecFns;

pub mod display;
pub mod error;
pub mod euclidean;
pub mod expansion;
pub mod frame;
pub mod generator;
pub mod grammar;
pub mod measure;
pub mod model;
pub mod note;
pub mod parsed_measure;
pub mod parser;
pub mod pattern;
pub mod primitives;
pub mod rhythm;
pub mod sequence;
pub mod text;
pub mod timing;
pub mod utils;

verus! {

/// What compiling the text `bytes` gives: the events of its sequence on
/// the grid, or the error for which the text is refused.
pub open spec fn transformed(bytes: Seq<u8>, subdivision: Option<u32>) -> Result<pattern::Score, error::Error> {
    match grammar::sequence(bytes) {
        Ok(text) => sequence::compiled(text, subdivision),
        Err(e) => Err(e),
    }
}

/// Compiles a text into a pattern on a grid of `subdivision` ticks to
/// the measure, or of 1920 where none is given.
pub fn transform(input: &str, subdivision: Option<u32>) -> (r: Result<pattern::Pattern, error::Error>)
    ensures
        match r {
            Ok(p) => transformed(input.spec_bytes(), subdivision) == Ok::<pattern::Score, error::Error>(p@),
            Err(e) => transformed(input.spec_bytes(), subdivision) == Err::<pattern::Score, error::Error>(e),
        },
        r matches Ok(p) ==> grammar::sequence(input.spec_bytes()) matches Ok(text) && sequence::orderly(
            p@,
            text,
            subdivision,
        ),
{
    match parser::parse(input) {
        Ok(parsed) => sequence::compile(&parsed, subdivision),
        Err(e) => Err(e),
    }
}

/// Compiles a text on the default grid into what is sent to a receiver:
/// the steps as text, and the length.
pub fn interpret(input: &str) -> (r: Result<pattern::Payload, error::Error>)
    ensures
        match r {
            Ok(p) => transformed(input.spec_bytes(), None) matches Ok(score) && p.steps@
                == pattern::steps_text(score.steps) && p.length as nat == score.length,
            Err(e) => transformed(input.spec_bytes(), None) == Err::<pattern::Score, error::Error>(e),
        },
{
    match transform(input, None) {
        Ok(p) => Ok(pattern::Payload { steps: p.format_steps(), length: p.length }),
        Err(e) => Err(e),
    }
}

} // verus!
