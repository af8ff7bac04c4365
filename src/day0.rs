//! The length of the puzzle text, in bytes.
use vstd::prelude::*;
use vstd::string::StringSliceAdditionalSpecFns;

verus! {

/// The length of `input` in bytes.
pub fn part1(input: &str) -> (r: u64)
    requires
        input.spec_bytes().len() <= usize::MAX,
    ensures
        r == input.spec_bytes().len(),
{
    input.len() as u64
}

/// The length of `input` in bytes.
pub fn part2(input: &str) -> (r: u64)
    requires
        input.spec_bytes().len() <= usize::MAX,
    ensures
        r == input.spec_bytes().len(),
{
    input.len() as u64
}

} // verus!
