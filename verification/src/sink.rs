//! The bit-interleaved PRS sink: translates a stream of LZ77 commands into
//! the PRS byte layout.
//!
//! Command bits are packed LSB-first into dedicated command bytes that are
//! written ahead of the literal/pointer payload bytes they select. The sink
//! keeps one in-flight command byte at `cmd_index`; payload bytes are
//! appended behind it, and later command bits still mutate it in place.

use vstd::prelude::*;

use crate::cmd::Cmd;
use crate::cmd::spec_cmd_valid;
use crate::flavor::Flavor;
use crate::variant::Variant;

verus! {

/// The mathematical state of a sink: the bytes emitted so far, the position
/// of the in-flight command byte, and how many of its bits are still free.
#[verifier::ext_equal]
pub ghost struct SinkModel {
    /// Position in `out` of the current command byte. Meaningless while
    /// `cmd_bits_rem == 0`.
    pub cmd_index: int,
    /// Bits still free in the current command byte, `0..=8`.
    pub cmd_bits_rem: u8,
    /// The bytes emitted so far.
    pub out: Seq<u8>,
}

/// The state of a freshly created sink: no output, no in-flight command byte.
pub open spec fn sm_empty() -> SinkModel {
    SinkModel { cmd_index: 0, cmd_bits_rem: 0, out: Seq::empty() }
}

/// Well-formedness of a sink state: the free-bit count is at most 8 and the
/// command-byte cursor stays inside the buffer.
pub open spec fn sm_wf(m: SinkModel) -> bool {
    &&& m.cmd_bits_rem <= 8
    &&& 0 <= m.cmd_index <= m.out.len()
    &&& (m.cmd_bits_rem > 0 ==> m.cmd_index < m.out.len())
}

/// Emitting one command bit: allocate a fresh command byte if none is in
/// flight, then set the next free bit position (LSB-first) if the bit is 1.
pub open spec fn sm_write_bit(m: SinkModel, bit: bool) -> SinkModel {
    let m1 = if m.cmd_bits_rem == 0 {
        SinkModel { cmd_index: m.out.len() as int, cmd_bits_rem: 8, out: m.out.push(0) }
    } else {
        m
    };
    let b = if bit {
        m1.out[m1.cmd_index] | (1u8 << ((8 - m1.cmd_bits_rem) as u8))
    } else {
        m1.out[m1.cmd_index]
    };
    SinkModel {
        cmd_index: m1.cmd_index,
        cmd_bits_rem: (m1.cmd_bits_rem - 1) as u8,
        out: m1.out.update(m1.cmd_index, b),
    }
}

/// Appending one payload byte at the tail.
pub open spec fn sm_push(m: SinkModel, byte: u8) -> SinkModel {
    SinkModel { cmd_index: m.cmd_index, cmd_bits_rem: m.cmd_bits_rem, out: m.out.push(byte) }
}

/// The byte-level encoding of one command, for a dialect whose minimum
/// long-copy length is `min_long`.
///
/// - literal: bit 1, then the byte;
/// - short pointer (distance < 256 and length <= 5): bits 0,0, two length
///   bits (high first) encoding `length - 2`, then the low byte of the
///   negated distance;
/// - long pointer: bits 0,1, then the 16-bit little-endian value
///   `(-distance << 3) | low3`, where `low3` is `length - 2` if that fits in
///   three bits and zero otherwise, in which case one extended-length byte
///   `length - min_long` follows.
pub open spec fn sm_consume(m: SinkModel, min_long: u16, c: Cmd) -> SinkModel {
    match c {
        Cmd::Literal(byte) => sm_push(sm_write_bit(m, true), byte),
        Cmd::Pointer(dist, len) => {
            if dist >= 256 || len > 5 {
                let m1 = sm_write_bit(sm_write_bit(m, false), true);
                let low3: int = if len - 2 < 8 {
                    len - 2
                } else {
                    0
                };
                let v: int = 65536 - 8 * dist + low3;
                let m2 = sm_push(sm_push(m1, (v % 256) as u8), (v / 256) as u8);
                if len - 2 >= 8 {
                    sm_push(m2, (len - min_long) as u8)
                } else {
                    m2
                }
            } else {
                let size: int = len - 2;
                let m1 = sm_write_bit(sm_write_bit(m, false), false);
                let m2 = sm_write_bit(sm_write_bit(m1, size >= 2), size % 2 == 1);
                sm_push(m2, (256 - dist) as u8)
            }
        },
    }
}

/// Finalization: the EOF sentinel is the long-pointer prefix (bits 0,1)
/// followed by a zero 16-bit offset (two zero bytes).
pub open spec fn sm_finish(m: SinkModel) -> Seq<u8> {
    sm_push(sm_push(sm_write_bit(sm_write_bit(m, false), true), 0), 0).out
}

/// Feeding a whole command sequence to a sink state, front to back.
pub open spec fn sm_run(m: SinkModel, min_long: u16, cs: Seq<Cmd>) -> SinkModel
    decreases cs.len(),
{
    if cs.len() == 0 {
        m
    } else {
        sm_run(sm_consume(m, min_long, cs[0]), min_long, cs.drop_first())
    }
}

/// An LZ77 sink producing the PRS byte layout.
pub struct PrsSink {
    /// Index into `out` of the current command byte.
    pub cmd_index: usize,
    /// How many command bits can still be written into `out[cmd_index]`.
    pub cmd_bits_rem: u8,
    /// The output buffer.
    pub out: Vec<u8>,
    /// The minimum long-copy length of the dialect being emitted.
    pub min_long: u16,
}

impl PrsSink {
    /// The mathematical state of this sink.
    pub open spec fn model(self) -> SinkModel {
        SinkModel {
            cmd_index: self.cmd_index as int,
            cmd_bits_rem: self.cmd_bits_rem,
            out: self.out@,
        }
    }

    /// A sink is well formed when its model is and its dialect parameter is
    /// a supported minimum long-copy length.
    pub open spec fn wf(self) -> bool {
        sm_wf(self.model()) && 1 <= self.min_long <= 10
    }

    /// Creates an empty sink for variant `V`, reserving `capacity` bytes.
    pub fn new<V: Variant>(capacity: usize) -> (s: PrsSink)
        ensures
            s.wf(),
            s.model() == sm_empty(),
            s.min_long == V::spec_min_long_copy_length(),
    {
        proof {
            V::min_long_copy_length_bounds();
        }
        let s = PrsSink {
            cmd_index: 0,
            cmd_bits_rem: 0,
            out: Vec::with_capacity(capacity),
            min_long: V::min_long_copy_length(),
        };
        proof {
            assert(s.model() =~= sm_empty());
        }
        s
    }

    /// Emits one command bit, LSB-first into the in-flight command byte,
    /// allocating a fresh command byte at the tail when none is in flight.
    pub fn write_bit(&mut self, bit: bool)
        requires
            old(self).wf(),
        ensures
            final(self).wf(),
            final(self).min_long == old(self).min_long,
            final(self).model() == sm_write_bit(old(self).model(), bit),
    {
        if self.cmd_bits_rem == 0 {
            self.cmd_index = self.out.len();
            self.cmd_bits_rem = 8;
            self.out.push(0);
        }

        if bit {
            let i: usize = self.cmd_index;
            let shift: u8 = 8 - self.cmd_bits_rem;
            let cur: u8 = self.out[i];
            self.out[i] = cur | (1u8 << shift);
        } else {
            proof {
                assert(self.out@.update(self.cmd_index as int, self.out@[self.cmd_index as int])
                    =~= self.out@);
            }
        }

        self.cmd_bits_rem = self.cmd_bits_rem - 1;
        proof {
            assert(self.model() =~= sm_write_bit(old(self).model(), bit));
        }
    }

    /// Encodes one command into the output buffer.
    pub fn consume(&mut self, c: Cmd)
        requires
            old(self).wf(),
            spec_cmd_valid(c, old(self).min_long),
        ensures
            final(self).wf(),
            final(self).min_long == old(self).min_long,
            final(self).model() == sm_consume(old(self).model(), old(self).min_long, c),
    {
        match c {
            Cmd::Literal(byte) => {
                self.write_bit(true);
                self.out.push(byte);
                proof {
                    assert(self.model() =~= sm_consume(old(self).model(), self.min_long, c));
                }
            },
            Cmd::Pointer(dist, len) => {
                if dist >= 256 || len > 5 {
                    self.write_bit(false);
                    self.write_bit(true);

                    let low3: u32 = if len - 2 < 8 {
                        (len - 2) as u32
                    } else {
                        0
                    };
                    let v: u32 = 65536 - 8 * (dist as u32) + low3;
                    self.out.push((v % 256) as u8);
                    self.out.push((v / 256) as u8);

                    if len - 2 >= 8 {
                        self.out.push((len - self.min_long as usize) as u8);
                    }
                    proof {
                        assert(self.model() =~= sm_consume(old(self).model(), self.min_long, c));
                    }
                } else {
                    let size: usize = len - 2;
                    self.write_bit(false);
                    self.write_bit(false);
                    self.write_bit(size >= 2);
                    self.write_bit(size % 2 == 1);
                    self.out.push((256 - dist) as u8);
                    proof {
                        assert(self.model() =~= sm_consume(old(self).model(), self.min_long, c));
                    }
                }
            },
        }
    }

    /// Removes and returns the bytes that are safe to hand downstream: the
    /// prefix strictly before the in-flight command byte. Later command bits
    /// may still mutate `out[cmd_index]`, so that byte and everything after
    /// it stay buffered.
    pub fn take_flushable(&mut self) -> (r: Vec<u8>)
        requires
            old(self).wf(),
        ensures
            final(self).wf(),
            final(self).min_long == old(self).min_long,
            final(self).cmd_bits_rem == old(self).cmd_bits_rem,
            final(self).cmd_index == 0,
            r@ == old(self).out@.subrange(0, old(self).cmd_index as int),
            final(self).out@ == old(self).out@.subrange(
                old(self).cmd_index as int,
                old(self).out@.len() as int,
            ),
    {
        let mut tail = self.out.split_off(self.cmd_index);
        core::mem::swap(&mut self.out, &mut tail);
        self.cmd_index = 0;
        tail
    }

    /// Finishes the stream: emits the EOF sentinel (long-pointer prefix with
    /// a zero offset) and returns the completed buffer.
    pub fn finish(self) -> (r: Vec<u8>)
        requires
            self.wf(),
        ensures
            r@ == sm_finish(self.model()),
            r@.len() >= 3,
            r@[r@.len() - 1] == 0,
            r@[r@.len() - 2] == 0,
    {
        let mut s = self;
        s.write_bit(false);
        s.write_bit(true);
        s.out.push(0);
        s.out.push(0);
        s.out
    }
}

} // verus!
