//! Reading values from bytes.
use vstd::prelude::*;
use vstd::string::StringSliceAdditionalSpecFns;

verus! {

/// Types that can be read from the ASCII text of a number in some radix.
pub trait FromBytes: Sized {
    type Err;

    /// `r` is what reading `bytes` in `radix` gives.
    spec fn reads_as(bytes: Seq<u8>, radix: u32, r: Result<Self, Self::Err>) -> bool;

    fn from_bytes_radix(bytes: &[u8], radix: u32) -> (r: Result<Self, Self::Err>)
        requires
            bytes@.len() < usize::MAX / 8,
        ensures
            Self::reads_as(bytes@, radix, r),
    ;

    /// Reading in radix ten.
    fn from_bytes(bytes: &[u8]) -> (r: Result<Self, Self::Err>)
        requires
            bytes@.len() < usize::MAX / 8,
        ensures
            Self::reads_as(bytes@, 10, r),
    {
        Self::from_bytes_radix(bytes, 10)
    }

    /// Reading the bytes of `s`.
    fn from_str_radix(s: &str, radix: u32) -> (r: Result<Self, Self::Err>)
        requires
            s.spec_bytes().len() < usize::MAX / 8,
        ensures
            Self::reads_as(s.spec_bytes(), radix, r),
    {
        Self::from_bytes_radix(s.as_bytes(), radix)
    }
}

} // verus!
