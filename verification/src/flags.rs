//! Run options, encoded as single bits of a `u32` mask.

use vstd::prelude::*;

verus! {

/// One of the four independent options of a run.
///
/// Each flag occupies its own bit of a `u32` mask, so any combination of
/// options can be carried in one word.
#[derive(Clone, Copy, PartialEq, Eq, Debug)]
pub enum Flag {
    /// Run the one-way, additive copy operation instead of a full synchronize.
    CopyOnly,
    /// Keep destination entries that are absent from the source.
    NoDelete,
    /// Overwrite a file's bytes with filler before removing it.
    Secure,
    /// Emit progress diagnostics; never changes what the engine does.
    Verbose,
}

impl Flag {
    /// The bit this flag occupies in a mask.
    pub open spec fn spec_bits(self) -> u32 {
        match self {
            Flag::CopyOnly => 1u32,
            Flag::NoDelete => 2u32,
            Flag::Secure => 4u32,
            Flag::Verbose => 8u32,
        }
    }

    /// The bit this flag occupies in a mask.
    #[verifier::when_used_as_spec(spec_bits)]
    pub fn bits(self) -> (r: u32)
        ensures
            r == self.spec_bits(),
    {
        match self {
            Flag::CopyOnly => 1u32,
            Flag::NoDelete => 2u32,
            Flag::Secure => 4u32,
            Flag::Verbose => 8u32,
        }
    }
}

/// Whether `flag`'s bit is set in `bitfield`.
pub open spec fn flag_set(bitfield: u32, flag: Flag) -> bool {
    bitfield & flag.spec_bits() != 0
}

/// Whether `flag`'s bit is set in `bitfield`.
pub fn contains_flag(bitfield: u32, flag: Flag) -> (r: bool)
    ensures
        r == flag_set(bitfield, flag),
{
    (bitfield & flag.bits()) != 0
}

/// Builds a flags mask from the four validated options, so that each flag
/// is set in the result exactly when the matching argument is true.
pub fn make_flags(copy_only: bool, verbose: bool, nodelete: bool, secure: bool) -> (r: u32)
    ensures
        flag_set(r, Flag::CopyOnly) == copy_only,
        flag_set(r, Flag::Verbose) == verbose,
        flag_set(r, Flag::NoDelete) == nodelete,
        flag_set(r, Flag::Secure) == secure,
{
    let c: u32 = if copy_only { 1 } else { 0 };
    let n: u32 = if nodelete { 2 } else { 0 };
    let s: u32 = if secure { 4 } else { 0 };
    let v: u32 = if verbose { 8 } else { 0 };
    let r = c | n | s | v;
    proof {
        assert(((c | n | s | v) & 1u32 != 0) == (c == 1u32) && ((c | n | s | v) & 2u32 != 0) == (n
            == 2u32) && ((c | n | s | v) & 4u32 != 0) == (s == 4u32) && ((c | n | s | v) & 8u32
            != 0) == (v == 8u32)) by (bit_vector)
            requires
                c == 0u32 || c == 1u32,
                n == 0u32 || n == 2u32,
                s == 0u32 || s == 4u32,
                v == 0u32 || v == 8u32,
        ;
    }
    r
}

/// The validated inputs of one run: the two roots and the flags mask.
pub struct ParseResult<'a> {
    pub src: &'a str,
    pub dest: &'a str,
    pub flags: u32,
}

} // verus!
