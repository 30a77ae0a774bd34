//! What a running program throws, and how a message names the chunk it was raised in.
use vstd::prelude::*;

use crate::value::Value;

verus! {

/// A value on its way out of the program.
/// Lua errors are values, not a Rust error type: `error({code = 1})` has to survive the trip.
#[derive(Debug)]
pub struct Error {
    pub value: Value,
}

/// The most a message shows of a chunk's name.
pub const SHOWN: usize = 59;

/// How a chunk names itself in a message: the name after its mark, whole when it is short,
/// and otherwise its tail behind `...` for a file (`@`) or its head for anything else.
pub open spec fn chunk_of(name: Seq<u8>) -> Seq<u8> {
    let rest = name.drop_first();
    if rest.len() <= SHOWN {
        rest
    } else if name[0] == 0x40 {
        seq![0x2eu8, 0x2eu8, 0x2eu8] + rest.subrange(rest.len() - (SHOWN - 3), rest.len() as int)
    } else {
        rest.subrange(0, SHOWN as int)
    }
}

/// How a chunk names itself in a message. A leading `=` means the rest is the name as written;
/// a leading `@` means a file, which is trimmed from the front so the tail shows.
pub fn chunk(name: &[u8]) -> (shown: Vec<u8>)
    requires
        name@.len() >= 1,
    ensures
        shown@ == chunk_of(name@),
{
    let mark = name[0];
    let rest = &name[1..name.len()];
    proof {
        assert(rest@ =~= name@.drop_first());
    }
    if rest.len() <= SHOWN {
        return vstd::slice::slice_to_vec(rest);
    }
    if mark == 0x40 {
        let mut out: Vec<u8> = Vec::new();
        out.push(0x2e);
        out.push(0x2e);
        out.push(0x2e);
        let tail = &rest[rest.len() - (SHOWN - 3)..rest.len()];
        let mut copied = vstd::slice::slice_to_vec(tail);
        out.append(&mut copied);
        proof {
            assert(out@ =~= seq![0x2eu8, 0x2eu8, 0x2eu8] + rest@.subrange(rest@.len() - (SHOWN - 3), rest@.len() as int));
        }
        out
    } else {
        let head = &rest[0..SHOWN];
        vstd::slice::slice_to_vec(head)
    }
}

} // verus!
