//! Turning numbers into the text Lua shows: the part that works on the digits once they are
//! written.
use vstd::prelude::*;

verus! {

/// `text` without the copies of `byte` it ends with.
pub open spec fn strip_trailing(text: Seq<u8>, byte: u8) -> Seq<u8>
    decreases text.len(),
{
    if text.len() > 0 && text.last() == byte {
        strip_trailing(text.drop_last(), byte)
    } else {
        text
    }
}

/// A fixed-point numeral without the zeros a fixed precision leaves after its point, and
/// without the point itself if nothing is left after it. Text with no point is left alone.
pub open spec fn trim_of(text: Seq<u8>) -> Seq<u8> {
    if text.contains(0x2eu8) {
        strip_trailing(strip_trailing(text, 0x30), 0x2e)
    } else {
        text
    }
}

/// How many bytes are left once the trailing copies of `byte` are gone.
fn kept_before(text: &[u8], end: usize, byte: u8) -> (kept: usize)
    requires
        end <= text.len(),
    ensures
        kept <= end,
        text@.subrange(0, kept as int) == strip_trailing(text@.subrange(0, end as int), byte),
{
    let mut kept = end;
    while kept > 0 && text[kept - 1] == byte
        invariant
            kept <= end <= text.len(),
            strip_trailing(text@.subrange(0, end as int), byte) == strip_trailing(
                text@.subrange(0, kept as int),
                byte,
            ),
        decreases kept,
    {
        proof {
            assert(text@.subrange(0, kept as int).drop_last() =~= text@.subrange(0, kept - 1));
        }
        kept -= 1;
    }
    kept
}

pub fn trim(text: &[u8]) -> (trimmed: Vec<u8>)
    ensures
        trimmed@ == trim_of(text@),
{
    let mut has_point = false;
    let mut i: usize = 0;
    while i < text.len()
        invariant
            i <= text.len(),
            has_point == exists|k: int| 0 <= k < i && text@[k] == 0x2e,
        decreases text.len() - i,
    {
        if text[i] == 0x2e {
            has_point = true;
        }
        i += 1;
    }
    proof {
        assert(text@.subrange(0, text@.len() as int) =~= text@);
        if has_point {
            let k = choose|k: int| 0 <= k < text.len() && text@[k] == 0x2e;
            assert(text@[k] == 0x2e);
        } else {
            assert forall|k: int| 0 <= k < text@.len() implies text@[k] != 0x2e by {}
        }
    }
    if !has_point {
        return vstd::slice::slice_to_vec(text);
    }
    let digits = kept_before(text, text.len(), 0x30);
    let kept = kept_before(text, digits, 0x2e);
    vstd::slice::slice_to_vec(vstd::slice::slice_subrange(text, 0, kept))
}

} // verus!
