//! A hardened JSON validator for untrusted payloads.
//!
//! The validator decides whether a byte stream is valid JSON and whether its
//! shape obeys configured limits (depth, string length, entries per array and
//! per object, key length, duplicate keys), without building the document and
//! without recursion. It can run to completion, or a bounded number of tokens
//! at a time.
pub mod grammar;
pub mod lexer;
pub mod read;
pub mod validator;

pub use lexer::LexerError;
pub use read::ReadError;
pub use validator::Validator;
pub use validator::ValidatorError as Error;

use read::{Read, SliceRead, StrRead};
use vstd::prelude::*;
use vstd::string::StringSliceAdditionalSpecFns;
use validator::{initial_frames, no_limits};

verus! {

/// The value that turns a limit off.
pub const NO_LIMIT: usize = usize::MAX;

/// A validator over `slice`, borrowed, with no limits.
pub fn from_slice<'a>(slice: &'a [u8]) -> (r: Validator<SliceRead<'a>>)
    requires
        slice@.len() < usize::MAX,
    ensures
        r.wf(),
        r.input() == slice@,
        r.at() == 0,
        r.frames() == initial_frames(),
        r.limits() == no_limits(),
{
    Validator::new(SliceRead::new(slice))
}

/// A validator over the bytes of `string`, borrowed, with no limits.
pub fn from_str<'a>(string: &'a str) -> (r: Validator<StrRead<'a>>)
    requires
        string.spec_bytes().len() < usize::MAX,
    ensures
        r.wf(),
        r.input() == string.spec_bytes(),
        r.at() == 0,
        r.frames() == initial_frames(),
        r.limits() == no_limits(),
{
    Validator::new(StrRead::new(string))
}

} // verus!
