//! Decompression of PRS buffers.
//!
//! The decoder consumes command bits LSB-first out of command bytes, reads
//! payload bytes between bit consumptions, and reconstructs the original
//! bytes through a sliding output window.

use vstd::prelude::*;

use crate::cmd::Cmd;
use crate::cmd::spec_apply_ptr;
use crate::flavor::Flavor;

verus! {

/// An error returned during decompression.
#[derive(Debug, PartialEq, Eq)]
pub enum DecompressError {
    /// Reached end of buffer prematurely.
    Eof,
    /// A pointer command was invalid (not enough written bytes).
    InvalidPointer {
        /// The distance backwards in the output buffer to copy from.
        dist: usize,
        /// The number of bytes to copy.
        len: usize,
        /// The current length of the output buffer.
        current_len: usize,
    },
}

/// The mathematical state of a decoder: the input position, the current
/// command byte with already-consumed bits shifted out, and how many bits of
/// it are still available.
#[verifier::ext_equal]
pub ghost struct DecState {
    /// Index of the next unread input byte.
    pub pos: int,
    /// The current command byte, consumed bits shifted out (LSB-first).
    pub cmds: u8,
    /// Number of bits still available in `cmds`, `0..=8`.
    pub rem: u8,
}

/// The state of a decoder that has consumed nothing.
pub open spec fn ds_init() -> DecState {
    DecState { pos: 0, cmds: 0, rem: 0 }
}

/// A decoder state is well formed when its position is inside the buffer
/// and at most 8 bits are pending.
pub open spec fn ds_wf(buf: Seq<u8>, s: DecState) -> bool {
    0 <= s.pos <= buf.len() && s.rem <= 8
}

/// How many input bits the decoder can still consume: a termination measure.
pub open spec fn ds_bits_left(buf: Seq<u8>, s: DecState) -> int {
    8 * (buf.len() - s.pos) + s.rem
}

/// Reading one command bit: refill `cmds` from the next input byte when no
/// bits are pending (`None` when the input is exhausted), then hand out the
/// least significant bit.
pub open spec fn spec_read_bit(buf: Seq<u8>, s: DecState) -> Option<(DecState, bool)> {
    if s.rem == 0 {
        if s.pos < buf.len() {
            let c = buf[s.pos];
            Some((DecState { pos: s.pos + 1, cmds: c >> 1u8, rem: 7 }, (c & 1) == 1))
        } else {
            None
        }
    } else {
        Some(
            (DecState { pos: s.pos, cmds: s.cmds >> 1u8, rem: (s.rem - 1) as u8 }, (s.cmds & 1)
                == 1),
        )
    }
}

/// Reading one payload byte at the input position, `None` when exhausted.
pub open spec fn spec_read_byte(buf: Seq<u8>, s: DecState) -> Option<(DecState, u8)> {
    if s.pos < buf.len() {
        Some((DecState { pos: s.pos + 1, cmds: s.cmds, rem: s.rem }, buf[s.pos]))
    } else {
        None
    }
}

/// Decoding the next command for a dialect whose minimum long-copy length is
/// `min_long`.
///
/// `None` means the input ran out mid-token; `Some((s, None))` is the EOF
/// sentinel; `Some((s, Some(c)))` is a decoded command.
///
/// After the bit 1, one payload byte is a literal. After bits 0,1, a 16-bit
/// little-endian value `v` follows: `v == 0` is the EOF sentinel; otherwise
/// the distance is `8192 - v / 8` and the length is `(v % 8) + 2`, except
/// that a zero length field stands for one extended-length byte `e` meaning
/// length `e + min_long`. After bits 0,0, two length bits (high first)
/// encode `length - 2`, and a payload byte `b` means distance `256 - b`.
pub open spec fn spec_next_cmd(min_long: u16, buf: Seq<u8>, s: DecState) -> Option<
    (DecState, Option<Cmd>),
> {
    match spec_read_bit(buf, s) {
        None => None,
        Some((s1, b1)) => {
            if b1 {
                match spec_read_byte(buf, s1) {
                    None => None,
                    Some((s2, byte)) => Some((s2, Some(Cmd::Literal(byte)))),
                }
            } else {
                match spec_read_bit(buf, s1) {
                    None => None,
                    Some((s2, b2)) => {
                        if b2 {
                            match spec_read_byte(buf, s2) {
                                None => None,
                                Some((s3, lo)) => match spec_read_byte(buf, s3) {
                                    None => None,
                                    Some((s4, hi)) => {
                                        let v: int = lo + 256 * hi;
                                        if v == 0 {
                                            Some((s4, None))
                                        } else {
                                            let dist: int = 8192 - v / 8;
                                            if v % 8 == 0 {
                                                match spec_read_byte(buf, s4) {
                                                    None => None,
                                                    Some((s5, ext)) => Some(
                                                        (
                                                            s5,
                                                            Some(
                                                                Cmd::Pointer(
                                                                    dist as usize,
                                                                    (ext + min_long) as usize,
                                                                ),
                                                            ),
                                                        ),
                                                    ),
                                                }
                                            } else {
                                                Some(
                                                    (
                                                        s4,
                                                        Some(
                                                            Cmd::Pointer(
                                                                dist as usize,
                                                                (v % 8 + 2) as usize,
                                                            ),
                                                        ),
                                                    ),
                                                )
                                            }
                                        }
                                    },
                                },
                            }
                        } else {
                            match spec_read_bit(buf, s2) {
                                None => None,
                                Some((s3, hi)) => match spec_read_bit(buf, s3) {
                                    None => None,
                                    Some((s4, lo)) => match spec_read_byte(buf, s4) {
                                        None => None,
                                        Some((s5, b)) => {
                                            let size: int = (if hi {
                                                2int
                                            } else {
                                                0int
                                            }) + (if lo {
                                                1int
                                            } else {
                                                0int
                                            }) + 2;
                                            Some(
                                                (
                                                    s5,
                                                    Some(
                                                        Cmd::Pointer(
                                                            (256 - b) as usize,
                                                            size as usize,
                                                        ),
                                                    ),
                                                ),
                                            )
                                        },
                                    },
                                },
                            }
                        }
                    },
                }
            }
        },
    }
}

/// Running the decoder to completion from state `s` with output `out`:
/// decode commands until the EOF sentinel, appending literals and resolving
/// pointers against the sliding output window. A pointer reaching before the
/// start of the output is an error; running out of input is an error.
pub open spec fn spec_run(min_long: u16, buf: Seq<u8>, s: DecState, out: Seq<u8>) -> Result<
    Seq<u8>,
    DecompressError,
>
    decreases ds_bits_left(buf, s)
        when ds_wf(buf, s)
        via spec_run_decreases
{
    match spec_next_cmd(min_long, buf, s) {
        None => Err(DecompressError::Eof),
        Some((s2, None)) => Ok(out),
        Some((s2, Some(Cmd::Literal(b)))) => spec_run(min_long, buf, s2, out.push(b)),
        Some((s2, Some(Cmd::Pointer(dist, len)))) => {
            if len > 0 && (dist == 0 || out.len() < dist) {
                Err(
                    DecompressError::InvalidPointer {
                        dist,
                        len,
                        current_len: out.len() as usize,
                    },
                )
            } else {
                spec_run(min_long, buf, s2, spec_apply_ptr(out, dist as int, len as int))
            }
        },
    }
}

/// Every decoded command consumes at least one input bit and leaves a
/// well-formed state.
proof fn lemma_next_cmd_progress(min_long: u16, buf: Seq<u8>, s: DecState)
    requires
        ds_wf(buf, s),
        spec_next_cmd(min_long, buf, s) is Some,
    ensures
        ds_wf(buf, spec_next_cmd(min_long, buf, s)->Some_0.0),
        ds_bits_left(buf, spec_next_cmd(min_long, buf, s)->Some_0.0) < ds_bits_left(buf, s),
        ds_bits_left(buf, spec_next_cmd(min_long, buf, s)->Some_0.0) >= 0,
{
}

#[via_fn]
proof fn spec_run_decreases(min_long: u16, buf: Seq<u8>, s: DecState, out: Seq<u8>) {
    if spec_next_cmd(min_long, buf, s) is Some {
        lemma_next_cmd_progress(min_long, buf, s);
    }
}

/// Whether the next token in the stream uses the long-long (extended-length
/// byte) form: a long-pointer prefix whose 16-bit value is non-zero with a
/// zero three-bit length field.
pub open spec fn spec_uses_long_long(buf: Seq<u8>, s: DecState) -> bool {
    match spec_read_bit(buf, s) {
        None => false,
        Some((s1, b1)) => !b1 && match spec_read_bit(buf, s1) {
            None => false,
            Some((s2, b2)) => b2 && match spec_read_byte(buf, s2) {
                None => false,
                Some((s3, lo)) => match spec_read_byte(buf, s3) {
                    None => false,
                    Some((s4, hi)) => lo + 256 * hi != 0 && (lo + 256 * hi) % 8 == 0,
                },
            },
        },
    }
}

/// Dialect cross-incompatibility: from any decoder state, Legacy and Modern
/// decode the same next command unless the token uses the long-long
/// (extended-length byte) form, in which case both decode a pointer with the
/// same distance but lengths that differ by exactly 9 - so they disagree on
/// the length of every token of that form.
pub proof fn lemma_cross_incompatibility(buf: Seq<u8>, s: DecState)
    ensures
        ({
            let a = spec_next_cmd(crate::flavor::Legacy::spec_min_long_copy_length(), buf, s);
            let b = spec_next_cmd(crate::flavor::Modern::spec_min_long_copy_length(), buf, s);
            if spec_uses_long_long(buf, s) {
                match (a, b) {
                    (
                        Some((sa, Some(Cmd::Pointer(da, la)))),
                        Some((sb, Some(Cmd::Pointer(db, lb)))),
                    ) => sa == sb && da == db && lb == la + 9 && la != lb,
                    (None, None) => true,
                    _ => false,
                }
            } else {
                a == b
            }
        }),
{
}

/// The result of decompressing a whole buffer: the empty buffer yields the
/// empty result, anything else is decoded from a fresh state.
pub open spec fn spec_decompress(min_long: u16, buf: Seq<u8>) -> Result<
    Seq<u8>,
    DecompressError,
> {
    if buf.len() == 0 {
        Ok(Seq::empty())
    } else {
        spec_run(min_long, buf, ds_init(), Seq::empty())
    }
}

/// Decoder context over an input buffer.
pub struct Ctx<'a> {
    /// The PRS input.
    pub buf: &'a [u8],
    /// Index of the next unread input byte.
    pub pos: usize,
    /// The current command byte, consumed bits shifted out.
    pub cmds: u8,
    /// Number of bits still available in `cmds`.
    pub rem: u8,
    /// The minimum long-copy length of the dialect being decoded.
    pub min_long: u16,
}

impl<'a> Ctx<'a> {
    /// The mathematical state of this decoder.
    pub open spec fn model(self) -> DecState {
        DecState { pos: self.pos as int, cmds: self.cmds, rem: self.rem }
    }

    /// Well-formedness of the context.
    pub open spec fn wf(self) -> bool {
        ds_wf(self.buf@, self.model())
    }

    /// Creates a decoder for `src` with the given minimum long-copy length.
    pub fn new(src: &'a [u8], min_long: u16) -> (c: Ctx<'a>)
        ensures
            c.wf(),
            c.buf@ == src@,
            c.min_long == min_long,
            c.model() == ds_init(),
    {
        Ctx { buf: src, pos: 0, cmds: 0, rem: 0, min_long }
    }

    /// Reads one command bit, refilling the command byte from the input when
    /// all its bits have been handed out.
    pub fn read_bit(&mut self) -> (r: Result<bool, DecompressError>)
        requires
            old(self).wf(),
        ensures
            final(self).wf(),
            final(self).buf@ == old(self).buf@,
            final(self).min_long == old(self).min_long,
            match r {
                Ok(bit) => spec_read_bit(old(self).buf@, old(self).model()) == Some(
                    (final(self).model(), bit),
                ),
                Err(e) => spec_read_bit(old(self).buf@, old(self).model()) is None && e
                    == DecompressError::Eof && final(self).model() == old(self).model(),
            },
    {
        if self.rem == 0 {
            if self.pos < self.buf.len() {
                let c: u8 = self.buf[self.pos];
                self.pos = self.pos + 1;
                self.cmds = c >> 1u8;
                self.rem = 7;
                Ok((c & 1) == 1)
            } else {
                Err(DecompressError::Eof)
            }
        } else {
            let c: u8 = self.cmds;
            self.cmds = c >> 1u8;
            self.rem = self.rem - 1;
            Ok((c & 1) == 1)
        }
    }

    /// Reads one payload byte.
    fn read_byte(&mut self) -> (r: Result<u8, DecompressError>)
        requires
            old(self).wf(),
        ensures
            final(self).wf(),
            final(self).buf@ == old(self).buf@,
            final(self).min_long == old(self).min_long,
            match r {
                Ok(b) => spec_read_byte(old(self).buf@, old(self).model()) == Some(
                    (final(self).model(), b),
                ),
                Err(e) => spec_read_byte(old(self).buf@, old(self).model()) is None && e
                    == DecompressError::Eof && final(self).model() == old(self).model(),
            },
    {
        if self.pos < self.buf.len() {
            let b: u8 = self.buf[self.pos];
            self.pos = self.pos + 1;
            Ok(b)
        } else {
            Err(DecompressError::Eof)
        }
    }

    /// Decodes the next command: `Ok(None)` is the EOF sentinel, `Ok(Some)`
    /// a literal or pointer, and `Err(Eof)` means the input ran out
    /// mid-token.
    pub fn next_cmd(&mut self) -> (r: Result<Option<Cmd>, DecompressError>)
        requires
            old(self).wf(),
        ensures
            final(self).wf(),
            final(self).buf@ == old(self).buf@,
            final(self).min_long == old(self).min_long,
            match r {
                Ok(c) => spec_next_cmd(old(self).min_long, old(self).buf@, old(self).model())
                    == Some((final(self).model(), c)) && ds_bits_left(
                    old(self).buf@,
                    final(self).model(),
                ) < ds_bits_left(old(self).buf@, old(self).model()),
                Err(e) => spec_next_cmd(old(self).min_long, old(self).buf@, old(self).model())
                    is None && e == DecompressError::Eof,
            },
    {
        let b1 = match self.read_bit() {
            Ok(b) => b,
            Err(e) => {
                return Err(e);
            },
        };
        if b1 {
            // literal
            match self.read_byte() {
                Ok(b) => Ok(Some(Cmd::Literal(b))),
                Err(e) => Err(e),
            }
        } else {
            let b2 = match self.read_bit() {
                Ok(b) => b,
                Err(e) => {
                    return Err(e);
                },
            };
            if b2 {
                // long pointer
                let lo = match self.read_byte() {
                    Ok(b) => b,
                    Err(e) => {
                        return Err(e);
                    },
                };
                let hi = match self.read_byte() {
                    Ok(b) => b,
                    Err(e) => {
                        return Err(e);
                    },
                };
                let v: u16 = lo as u16 + 256 * (hi as u16);
                if v == 0 {
                    return Ok(None);
                }
                let dist: usize = 8192 - (v / 8) as usize;
                if v % 8 == 0 {
                    // extended-length byte follows
                    let ext = match self.read_byte() {
                        Ok(b) => b,
                        Err(e) => {
                            return Err(e);
                        },
                    };
                    Ok(Some(Cmd::Pointer(dist, ext as usize + self.min_long as usize)))
                } else {
                    Ok(Some(Cmd::Pointer(dist, (v % 8) as usize + 2)))
                }
            } else {
                // short pointer
                let hi = match self.read_bit() {
                    Ok(b) => b,
                    Err(e) => {
                        return Err(e);
                    },
                };
                let lo = match self.read_bit() {
                    Ok(b) => b,
                    Err(e) => {
                        return Err(e);
                    },
                };
                let b = match self.read_byte() {
                    Ok(b) => b,
                    Err(e) => {
                        return Err(e);
                    },
                };
                let size: usize = (if hi {
                    2usize
                } else {
                    0usize
                }) + (if lo {
                    1usize
                } else {
                    0usize
                }) + 2;
                Ok(Some(Cmd::Pointer(256 - b as usize, size)))
            }
        }
    }
}

/// Decompress a byte buffer, as a particular [`Flavor`].
///
/// Returns exactly what the mathematical decoder returns: the reconstructed
/// bytes, or the first error (premature end of input, or a pointer reaching
/// before the start of the output).
pub fn decompress<F: Flavor>(buf: &[u8]) -> (r: Result<Vec<u8>, DecompressError>)
    ensures
        match r {
            Ok(v) => spec_decompress(F::spec_min_long_copy_length(), buf@) == Ok::<
                Seq<u8>,
                DecompressError,
            >(v@),
            Err(e) => spec_decompress(F::spec_min_long_copy_length(), buf@) == Err::<
                Seq<u8>,
                DecompressError,
            >(e),
        },
{
    decompress_buf::<F>(buf)
}

/// Decompress a byte buffer, as a particular [`Flavor`].
pub fn decompress_buf<F: Flavor>(buf: &[u8]) -> (r: Result<Vec<u8>, DecompressError>)
    ensures
        match r {
            Ok(v) => spec_decompress(F::spec_min_long_copy_length(), buf@) == Ok::<
                Seq<u8>,
                DecompressError,
            >(v@),
            Err(e) => spec_decompress(F::spec_min_long_copy_length(), buf@) == Err::<
                Seq<u8>,
                DecompressError,
            >(e),
        },
{
    if buf.len() == 0 {
        // empty buffer; return empty result
        return Ok(Vec::new());
    }

    let min_long: u16 = F::min_long_copy_length();
    let mut ctx = Ctx::new(buf, min_long);
    let mut out: Vec<u8> = Vec::new();
    let ghost target = spec_run(min_long, buf@, ds_init(), Seq::empty());

    loop
        invariant
            ctx.wf(),
            ctx.buf@ == buf@,
            ctx.min_long == min_long,
            min_long == F::spec_min_long_copy_length(),
            spec_run(min_long, buf@, ctx.model(), out@) == target,
            spec_decompress(min_long, buf@) == target,
        decreases ds_bits_left(buf@, ctx.model()),
    {
        let ghost pre = ctx.model();
        let ghost pre_out = out@;
        match ctx.next_cmd() {
            Err(e) => {
                return Err(e);
            },
            Ok(None) => {
                return Ok(out);
            },
            Ok(Some(Cmd::Literal(b))) => {
                out.push(b);
            },
            Ok(Some(Cmd::Pointer(dist, len))) => {
                match apply_pointer(&mut out, dist, len) {
                    Ok(_) => {
                    },
                    Err(e) => {
                        return Err(e);
                    },
                }
            },
        }
    }
}

/// Resolves one pointer against the sliding output window: appends `len`
/// bytes, each equal to the byte `dist` positions before the current end of
/// the output. Fails when the pointer reaches before the start of the
/// output.
fn apply_pointer(out: &mut Vec<u8>, dist: usize, len: usize) -> (r: Result<(), DecompressError>)
    ensures
        match r {
            Ok(_) => final(out)@ == spec_apply_ptr(old(out)@, dist as int, len as int) && (len > 0
                ==> 1 <= dist <= old(out)@.len()),
            Err(e) => len > 0 && (dist == 0 || old(out)@.len() < dist) && final(out)@ == old(
                out,
            )@ && e == (DecompressError::InvalidPointer {
                dist,
                len,
                current_len: old(out)@.len() as usize,
            }),
        },
{
    if len > 0 && (dist == 0 || out.len() < dist) {
        return Err(DecompressError::InvalidPointer { dist, len, current_len: out.len() });
    }
    let ghost pre_out = out@;
    let mut k: usize = 0;
    while k < len
        invariant
            k <= len,
            out@.len() == pre_out.len() + k,
            len > 0 ==> 1 <= dist <= out@.len(),
            spec_apply_ptr(out@, dist as int, (len - k) as int) == spec_apply_ptr(
                pre_out,
                dist as int,
                len as int,
            ),
        decreases len - k,
    {
        let idx: usize = out.len() - dist;
        let b = out[idx];
        out.push(b);
        k = k + 1;
    }
    Ok(())
}

} // verus!
