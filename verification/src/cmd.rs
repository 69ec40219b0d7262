//! LZ77 commands: the token stream between the match finder, the PRS sink
//! and the decoder.

use vstd::prelude::*;

verus! {

/// One LZ77 command.
///
/// A `Literal` carries one raw byte. A `Pointer(dist, len)` copies `len`
/// bytes, each taken from `dist` bytes behind the current end of the output
/// at the moment of that individual copy, so `dist < len` replicates bytes.
#[derive(Debug, Clone, Copy, PartialEq, Eq)]
pub enum Cmd {
    /// One raw byte.
    Literal(u8),
    /// A back-reference: `Pointer(backward_distance, length)`.
    Pointer(usize, usize),
}

/// How many output bytes a command produces.
pub open spec fn spec_advance(c: Cmd) -> int {
    match c {
        Cmd::Literal(_) => 1,
        Cmd::Pointer(_, len) => len as int,
    }
}

/// The sliding-window semantics of a pointer: append `len` bytes, each equal
/// to the byte `dist` positions before the end of the output as of that
/// individual copy.
pub open spec fn spec_apply_ptr(out: Seq<u8>, dist: int, len: int) -> Seq<u8>
    decreases len,
{
    if len <= 0 || dist <= 0 || out.len() < dist {
        out
    } else {
        spec_apply_ptr(out.push(out[out.len() - dist]), dist, len - 1)
    }
}

/// Applying a whole command sequence to an output buffer, front to back:
/// literals append their byte, pointers copy through the sliding window.
pub open spec fn spec_apply_cmds(out: Seq<u8>, cs: Seq<Cmd>) -> Seq<u8>
    decreases cs.len(),
{
    if cs.len() == 0 {
        out
    } else {
        match cs[0] {
            Cmd::Literal(b) => spec_apply_cmds(out.push(b), cs.drop_first()),
            Cmd::Pointer(dist, len) => spec_apply_cmds(
                spec_apply_ptr(out, dist as int, len as int),
                cs.drop_first(),
            ),
        }
    }
}

/// A command the PRS encoding can represent for a dialect whose minimum
/// long-copy length is `min_long`: distances fit the 8191-byte window and
/// lengths do not exceed the dialect's maximum copy length.
pub open spec fn spec_cmd_valid(c: Cmd, min_long: u16) -> bool {
    match c {
        Cmd::Literal(_) => true,
        Cmd::Pointer(dist, len) => 1 <= dist <= 8191 && 2 <= len <= min_long + 255,
    }
}

} // verus!
