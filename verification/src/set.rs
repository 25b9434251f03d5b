//! The argument tail of a SET command: existence constraint, expiry, and
//! the return-old-value flag, with its parser.
//!
//! The parser recognises only the `NX` flag; every other token is a syntax
//! error.  The data model anticipates `XX`, `EX`/`PX` and `GET`, but the
//! parser does not produce them, and the engine never consults the
//! existence constraint: that gap is kept as the observed behaviour.

use vstd::prelude::*;
use crate::storage_result::{StorageError, StorageResult};
use crate::text::{ci_equal, join_spec, eq_ignore_case, join_with_spaces};

verus! {

/// Restricts a SET to only-if-absent (`NX`) or only-if-present (`XX`).
#[derive(Debug, Clone, Copy, PartialEq, Eq, Structural)]
pub enum KeyExistence {
    NX,
    XX,
}

/// A time-to-live given in seconds (`EX`) or milliseconds (`PX`).
#[derive(Debug, Clone, Copy, PartialEq, Eq, Structural)]
pub enum KeyExpiry {
    EX(u64),
    PX(u64),
}

/// Parsed SET options.
#[derive(Debug, Clone, Copy, PartialEq)]
pub struct SetArgs {
    pub expiry: Option<KeyExpiry>,
    pub existence: Option<KeyExistence>,
    pub get: bool,
}

impl SetArgs {
    /// No options at all.
    pub fn new() -> (r: SetArgs)
        ensures
            r.expiry is None,
            r.existence is None,
            r.get == false,
    {
        SetArgs { expiry: None, existence: None, get: false }
    }
}

/// What the parser accepts: every token must be `nx` up to ASCII case, and
/// the result then carries the existence flag and nothing else.
pub open spec fn spec_parse_set(args: Seq<Seq<char>>) -> Option<SetArgs> {
    if forall|i: int| 0 <= i < args.len() ==> ci_equal(#[trigger] args[i], "nx"@) {
        Some(
            SetArgs {
                expiry: None,
                existence: if args.len() > 0 {
                    Some(KeyExistence::NX)
                } else {
                    None
                },
                get: false,
            },
        )
    } else {
        None
    }
}

/// Parses the argument tail of a SET invocation.  A token other than `nx`
/// is a syntax error quoting the whole tail.
pub fn parse_set_arguments(arguments: &Vec<String>) -> (r: StorageResult<SetArgs>)
    ensures
        match spec_parse_set(arguments.deep_view()) {
            Some(a) => r matches Ok(b) && b == a,
            None => ({
                &&& r matches Err(e)
                &&& e matches StorageError::CommandSyntaxError(s)
                &&& s@ == join_spec(arguments.deep_view(), " "@)
            }),
        },
{
    let mut args = SetArgs::new();
    let mut idx: usize = 0;
    while idx < arguments.len()
        invariant
            idx <= arguments@.len(),
            forall|j: int|
                0 <= j < idx ==> ci_equal(#[trigger] arguments.deep_view()[j], "nx"@),
            args.expiry is None,
            args.get == false,
            args.existence == (if idx > 0 {
                Some(KeyExistence::NX)
            } else {
                None::<KeyExistence>
            }),
        decreases arguments@.len() - idx,
    {
        if eq_ignore_case(&arguments[idx], "nx") {
            proof {
                assert(arguments.deep_view()[idx as int] == arguments@[idx as int]@);
            }
            if matches!(args.existence, Some(KeyExistence::XX)) {
                return Err(StorageError::CommandSyntaxError(join_with_spaces(arguments)));
            }
            args.existence = Some(KeyExistence::NX);
            idx = idx + 1;
        } else {
            proof {
                assert(arguments.deep_view()[idx as int] == arguments@[idx as int]@);
                assert(!ci_equal(arguments.deep_view()[idx as int], "nx"@));
            }
            return Err(StorageError::CommandSyntaxError(join_with_spaces(arguments)));
        }
    }
    proof {
        assert(arguments.deep_view().len() == arguments@.len());
    }
    Ok(args)
}

} // verus!
