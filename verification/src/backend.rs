//! The development backend's one rule: which response a path asks for.

use crate::octets::same_octets;
use crate::service::text_octets;
use crate::text::{parse_decimal, parsed};
use vstd::prelude::*;

verus! {

/// Ceiling on a sized response, so a stray URL cannot ask the process to
/// allocate the machine.
pub const MAX_SIZED_RESPONSE: usize = 268_435_456;

/// The length that `/bytes/<n>` asks for, held at the ceiling; `None` for any
/// other path, and for a number that does not fit the machine.
pub open spec fn sized_response(path: Seq<u8>) -> Option<nat> {
    let prefix = text_octets("/bytes/"@);
    if path.len() >= prefix.len() && path.take(prefix.len() as int) == prefix {
        match parsed(path.skip(prefix.len() as int), usize::MAX as nat) {
            Some(n) => Some(
                if n > MAX_SIZED_RESPONSE {
                    MAX_SIZED_RESPONSE as nat
                } else {
                    n
                },
            ),
            None => None,
        }
    } else {
        None
    }
}

/// Parses `/bytes/<n>`.
pub fn sized_path(path: &str) -> (r: Option<usize>)
    ensures
        match r {
            Some(n) => sized_response(text_octets(path@)) == Some(n as nat),
            None => sized_response(text_octets(path@)) is None,
        },
{
    let path = path.as_bytes();
    let prefix = "/bytes/".as_bytes();
    if path.len() < prefix.len() {
        return None;
    }
    let head = vstd::slice::slice_subrange(path, 0, prefix.len());
    assert(path@.take(prefix@.len() as int) =~= head@);
    if !same_octets(head, prefix) {
        return None;
    }
    let rest = vstd::slice::slice_subrange(path, prefix.len(), path.len());
    assert(path@.skip(prefix@.len() as int) =~= rest@);
    match parse_decimal(rest, usize::MAX as u64) {
        Some(n) => if n > MAX_SIZED_RESPONSE as u64 {
            Some(MAX_SIZED_RESPONSE)
        } else {
            Some(n as usize)
        },
        None => None,
    }
}

} // verus!
