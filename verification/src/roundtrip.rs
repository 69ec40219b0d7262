//! The roundtrip law: decompressing a compressed buffer yields the buffer
//! back, for every input and both dialects.
//!
//! The proof simulates the decoder over the encoder's output. The key fact
//! is that once the sink has emitted a byte, later emissions never change
//! the bits the decoder will have consumed by the time it reaches that
//! byte: payload bytes are final immediately, and an in-flight command byte
//! only ever gains bits at positions the decoder has not reached yet.

use vstd::prelude::*;

use crate::cmd::Cmd;
use crate::cmd::spec_advance;
use crate::cmd::spec_apply_cmds;
use crate::cmd::spec_apply_ptr;
use crate::cmd::spec_cmd_valid;
use crate::sink::SinkModel;
use crate::sink::sm_consume;
use crate::sink::sm_empty;
use crate::sink::sm_push;
use crate::sink::sm_run;
use crate::sink::sm_wf;
use crate::sink::sm_write_bit;
use crate::decompress::DecState;
use crate::decompress::DecompressError;
use crate::decompress::ds_init;
use crate::decompress::spec_decompress;
use crate::decompress::spec_next_cmd;
use crate::decompress::spec_read_bit;
use crate::decompress::spec_read_byte;
use crate::decompress::spec_run;
use crate::compress::lemma_apply_ml_prefix;
use crate::compress::lemma_cand_props;
use crate::compress::lemma_ml_bounds;
use crate::compress::lemma_token_at_props;
use crate::compress::lemma_tokens_reproduce_input;
use crate::compress::spec_budget;
use crate::compress::spec_cand_from;
use crate::compress::spec_compress;
use crate::compress::spec_ml;
use crate::compress::spec_token_at;
use crate::compress::spec_tokens;

verus! {

/// The lowest `used` bits of a byte, as a mask.
pub(crate) open spec fn low_mask(used: u8) -> u8 {
    (((1u16 << used) - 1) as u8)
}

/// Sink well-formedness strengthened with the free-bits property: every
/// still-free bit position of the in-flight command byte is zero.
pub(crate) open spec fn smx_wf(m: SinkModel) -> bool {
    &&& sm_wf(m)
    &&& (m.cmd_bits_rem > 0 ==> m.out[m.cmd_index] >> ((8 - m.cmd_bits_rem) as u8) == 0)
}

/// What a later sink state `b` preserves of an earlier state `a`: every
/// byte `a` emitted is unchanged, except that the in-flight command byte
/// may have gained bits at positions `a` had not used yet; and any command
/// byte in flight in `b` is either `a`'s own, no less used, or lies beyond
/// everything `a` emitted.
pub(crate) open spec fn sm_preserves(a: SinkModel, b: SinkModel) -> bool {
    &&& a.out.len() <= b.out.len()
    &&& (forall|i: int|
        0 <= i < a.out.len() && !(a.cmd_bits_rem > 0 && i == a.cmd_index) ==> a.out[i]
            == #[trigger] b.out[i])
    &&& (a.cmd_bits_rem > 0 ==> (b.out[a.cmd_index] & low_mask((8 - a.cmd_bits_rem) as u8))
        == a.out[a.cmd_index])
    &&& (b.cmd_bits_rem > 0 ==> b.cmd_index >= a.out.len() || (a.cmd_bits_rem > 0 && b.cmd_index
        == a.cmd_index && b.cmd_bits_rem <= a.cmd_bits_rem))
}

/// Preservation is reflexive on well-formed states.
proof fn lemma_preserves_refl(a: SinkModel)
    requires
        smx_wf(a),
    ensures
        sm_preserves(a, a),
{
    if a.cmd_bits_rem > 0 {
        let x = a.out[a.cmd_index];
        let s: u8 = (8 - a.cmd_bits_rem) as u8;
        assert(x >> s == 0 && s <= 8 ==> (x & (((1u16 << s) - 1) as u8)) == x) by (bit_vector);
    }
}

/// Writing one more command bit preserves everything an earlier state
/// emitted.
proof fn lemma_preserves_write_bit(a: SinkModel, b: SinkModel, bit: bool)
    requires
        smx_wf(a),
        sm_wf(b),
        sm_preserves(a, b),
    ensures
        sm_preserves(a, sm_write_bit(b, bit)),
{
    let b2 = sm_write_bit(b, bit);
    assert forall|i: int|
        0 <= i < a.out.len() && !(a.cmd_bits_rem > 0 && i == a.cmd_index) implies a.out[i]
        == b2.out[i] by {
        assert(a.out[i] == b.out[i]);
    }
    if b.cmd_bits_rem == 0 {
        // a fresh command byte is allocated at the tail, beyond everything
        // `a` emitted; nothing below changes
        if a.cmd_bits_rem > 0 {
            assert(b2.out[a.cmd_index] == b.out[a.cmd_index]);
        }
    } else {
        // the bit lands in b's in-flight byte, at a position at least as
        // high as anything `a` used
        if a.cmd_bits_rem > 0 && b.cmd_index == a.cmd_index {
            let x = b.out[b.cmd_index];
            let t: u8 = (8 - a.cmd_bits_rem) as u8;
            let s: u8 = (8 - b.cmd_bits_rem) as u8;
            if bit {
                assert(t <= s && s < 8 ==> ((x | (1u8 << s)) & (((1u16 << t) - 1) as u8)) == (x
                    & (((1u16 << t) - 1) as u8))) by (bit_vector);
            }
        }
    }
}

/// Appending a payload byte preserves everything an earlier state emitted.
proof fn lemma_preserves_push(a: SinkModel, b: SinkModel, byte: u8)
    requires
        smx_wf(a),
        sm_preserves(a, b),
    ensures
        sm_preserves(a, sm_push(b, byte)),
{
    let b2 = sm_push(b, byte);
    assert forall|i: int|
        0 <= i < a.out.len() && !(a.cmd_bits_rem > 0 && i == a.cmd_index) implies a.out[i]
        == b2.out[i] by {
        assert(a.out[i] == b.out[i]);
    }
    if a.cmd_bits_rem > 0 {
        assert(b2.out[a.cmd_index] == b.out[a.cmd_index]);
    }
}

/// Writing a bit keeps the strengthened well-formedness.
pub(crate) proof fn lemma_smx_wf_write_bit(m: SinkModel, bit: bool)
    requires
        smx_wf(m),
    ensures
        smx_wf(sm_write_bit(m, bit)),
{
    let m1 = if m.cmd_bits_rem == 0 {
        SinkModel { cmd_index: m.out.len() as int, cmd_bits_rem: 8, out: m.out.push(0) }
    } else {
        m
    };
    let x = m1.out[m1.cmd_index];
    let s: u8 = (8 - m1.cmd_bits_rem) as u8;
    assert(0u8 >> 0u8 == 0) by (bit_vector);
    if (m1.cmd_bits_rem - 1) as u8 > 0 {
        assert(x >> s == 0 && s <= 6 ==> ((x | (1u8 << s)) >> ((s + 1) as u8)) == 0)
            by (bit_vector);
        assert(x >> s == 0 && s <= 6 ==> (x >> ((s + 1) as u8)) == 0) by (bit_vector);
        assert(((s + 1) as u8) == (8 - (m1.cmd_bits_rem - 1)) as u8);
    }
}

/// Appending a payload byte keeps the strengthened well-formedness.
pub(crate) proof fn lemma_smx_wf_push(m: SinkModel, byte: u8)
    requires
        smx_wf(m),
    ensures
        smx_wf(sm_push(m, byte)),
{
}

/// Encoding one command preserves everything an earlier state emitted, and
/// keeps the strengthened well-formedness.
proof fn lemma_preserves_consume(a: SinkModel, b: SinkModel, min_long: u16, c: Cmd)
    requires
        smx_wf(a),
        smx_wf(b),
        sm_preserves(a, b),
    ensures
        smx_wf(sm_consume(b, min_long, c)),
        sm_preserves(a, sm_consume(b, min_long, c)),
{
    match c {
        Cmd::Literal(byte) => {
            lemma_preserves_write_bit(a, b, true);
            lemma_smx_wf_write_bit(b, true);
            lemma_preserves_push(a, sm_write_bit(b, true), byte);
            lemma_smx_wf_push(sm_write_bit(b, true), byte);
        },
        Cmd::Pointer(dist, len) => {
            if dist >= 256 || len > 5 {
                let m1 = sm_write_bit(b, false);
                lemma_preserves_write_bit(a, b, false);
                lemma_smx_wf_write_bit(b, false);
                let m2 = sm_write_bit(m1, true);
                lemma_preserves_write_bit(a, m1, true);
                lemma_smx_wf_write_bit(m1, true);
                let low3: int = if len - 2 < 8 {
                    len - 2
                } else {
                    0
                };
                let v: int = 65536 - 8 * dist + low3;
                let m3 = sm_push(m2, (v % 256) as u8);
                lemma_preserves_push(a, m2, (v % 256) as u8);
                lemma_smx_wf_push(m2, (v % 256) as u8);
                let m4 = sm_push(m3, (v / 256) as u8);
                lemma_preserves_push(a, m3, (v / 256) as u8);
                lemma_smx_wf_push(m3, (v / 256) as u8);
                if len - 2 >= 8 {
                    lemma_preserves_push(a, m4, (len - min_long) as u8);
                    lemma_smx_wf_push(m4, (len - min_long) as u8);
                }
            } else {
                let size: int = len - 2;
                let m1 = sm_write_bit(b, false);
                lemma_preserves_write_bit(a, b, false);
                lemma_smx_wf_write_bit(b, false);
                let m2 = sm_write_bit(m1, false);
                lemma_preserves_write_bit(a, m1, false);
                lemma_smx_wf_write_bit(m1, false);
                let m3 = sm_write_bit(m2, size >= 2);
                lemma_preserves_write_bit(a, m2, size >= 2);
                lemma_smx_wf_write_bit(m2, size >= 2);
                let m4 = sm_write_bit(m3, size % 2 == 1);
                lemma_preserves_write_bit(a, m3, size % 2 == 1);
                lemma_smx_wf_write_bit(m3, size % 2 == 1);
                lemma_preserves_push(a, m4, (256 - dist) as u8);
                lemma_smx_wf_push(m4, (256 - dist) as u8);
            }
        },
    }
}

/// Feeding a whole command sequence preserves everything an earlier state
/// emitted, and keeps the strengthened well-formedness.
proof fn lemma_preserves_run(a: SinkModel, b: SinkModel, min_long: u16, cs: Seq<Cmd>)
    requires
        smx_wf(a),
        smx_wf(b),
        sm_preserves(a, b),
    ensures
        smx_wf(sm_run(b, min_long, cs)),
        sm_preserves(a, sm_run(b, min_long, cs)),
    decreases cs.len(),
{
    if cs.len() > 0 {
        lemma_preserves_consume(a, b, min_long, cs[0]);
        lemma_preserves_run(a, sm_consume(b, min_long, cs[0]), min_long, cs.drop_first());
    }
}

/// The sink state after the EOF sentinel's emissions.
pub(crate) open spec fn sm_finish_model(m: SinkModel) -> SinkModel {
    sm_push(sm_push(sm_write_bit(sm_write_bit(m, false), true), 0), 0)
}

/// Emitting the EOF sentinel preserves everything an earlier state emitted.
proof fn lemma_preserves_finish(a: SinkModel, b: SinkModel)
    requires
        smx_wf(a),
        smx_wf(b),
        sm_preserves(a, b),
    ensures
        smx_wf(sm_finish_model(b)),
        sm_preserves(a, sm_finish_model(b)),
{
    let m1 = sm_write_bit(b, false);
    lemma_preserves_write_bit(a, b, false);
    lemma_smx_wf_write_bit(b, false);
    let m2 = sm_write_bit(m1, true);
    lemma_preserves_write_bit(a, m1, true);
    lemma_smx_wf_write_bit(m1, true);
    let m3 = sm_push(m2, 0);
    lemma_preserves_push(a, m2, 0);
    lemma_smx_wf_push(m2, 0);
    lemma_preserves_push(a, m3, 0);
    lemma_smx_wf_push(m3, 0);
}

/// Encoding one command keeps the strengthened well-formedness.
pub(crate) proof fn lemma_smx_wf_consume(m: SinkModel, min_long: u16, c: Cmd)
    requires
        smx_wf(m),
    ensures
        smx_wf(sm_consume(m, min_long, c)),
{
    lemma_preserves_refl(m);
    lemma_preserves_consume(m, m, min_long, c);
}

/// Feeding a whole command sequence keeps the strengthened
/// well-formedness.
pub(crate) proof fn lemma_smx_wf_run(m: SinkModel, min_long: u16, cs: Seq<Cmd>)
    requires
        smx_wf(m),
    ensures
        smx_wf(sm_run(m, min_long, cs)),
{
    lemma_preserves_refl(m);
    lemma_preserves_run(m, m, min_long, cs);
}

/// The decoder state that corresponds to sink state `m`, when the stream
/// being decoded is the finished output `s_final`: every emitted byte has
/// been consumed, and of the in-flight command byte exactly the bits the
/// sink has used so far.
pub(crate) open spec fn ds_of(s_final: Seq<u8>, m: SinkModel) -> DecState {
    DecState {
        pos: m.out.len() as int,
        cmds: if m.cmd_bits_rem == 0 {
            0
        } else {
            s_final[m.cmd_index] >> ((8 - m.cmd_bits_rem) as u8)
        },
        rem: m.cmd_bits_rem,
    }
}

/// Simulation of one command bit: when the sink emits a bit, the decoder
/// reading the finished stream consumes exactly that bit.
proof fn lemma_sim_bit(s_final: Seq<u8>, m_fin: SinkModel, m: SinkModel, bit: bool)
    requires
        smx_wf(m),
        s_final == m_fin.out,
        sm_preserves(sm_write_bit(m, bit), m_fin),
    ensures
        smx_wf(sm_write_bit(m, bit)),
        spec_read_bit(s_final, ds_of(s_final, m)) == Some(
            (ds_of(s_final, sm_write_bit(m, bit)), bit),
        ),
{
    lemma_smx_wf_write_bit(m, bit);
    let m2 = sm_write_bit(m, bit);
    if m.cmd_bits_rem == 0 {
        let idx = m.out.len() as int;
        let xs = s_final[idx];
        let y2 = m2.out[idx];
        assert(m.out.push(0)[idx] == 0);
        if bit {
            assert((0u8 | (1u8 << ((8 - 8u8) as u8))) == 1) by (bit_vector);
        }
        // the mask clause of preservation pins the low bit of the final byte
        assert((xs & low_mask((8 - m2.cmd_bits_rem) as u8)) == y2);
        assert((xs & (((1u16 << 1u8) - 1) as u8)) == 1 ==> (xs & 1) == 1) by (bit_vector);
        assert((xs & (((1u16 << 1u8) - 1) as u8)) == 0 ==> (xs & 1) == 0) by (bit_vector);
        assert(xs >> ((8 - m2.cmd_bits_rem) as u8) == xs >> 1u8);
    } else {
        let su: u8 = (8 - m.cmd_bits_rem) as u8;
        let xs = s_final[m.cmd_index];
        let y = m.out[m.cmd_index];
        let y2 = m2.out[m.cmd_index];
        if m2.cmd_bits_rem > 0 {
            // the final byte agrees with the sink on all used bits,
            // including the one just written
            assert((xs & low_mask((8 - m2.cmd_bits_rem) as u8)) == y2);
            assert((8 - m2.cmd_bits_rem) as u8 == (su + 1) as u8);
            if bit {
                assert((xs & (((1u16 << ((su + 1) as u8)) - 1) as u8)) == (y | (1u8 << su)) && y
                    >> su == 0 && su <= 6 ==> ((xs >> su) & 1) == 1) by (bit_vector);
            } else {
                assert((xs & (((1u16 << ((su + 1) as u8)) - 1) as u8)) == y && y >> su == 0 && su
                    <= 6 ==> ((xs >> su) & 1) == 0) by (bit_vector);
            }
            assert(su <= 6 ==> ((xs >> su) >> 1u8) == (xs >> ((su + 1) as u8))) by (bit_vector);
        } else {
            // the last free bit was just written: the whole byte is final
            assert(m2.out[m.cmd_index] == m_fin.out[m.cmd_index]);
            if bit {
                assert(y >> 7u8 == 0 ==> (((y | (1u8 << 7u8)) >> 7u8) & 1) == 1) by (bit_vector);
            } else {
                assert(y >> 7u8 == 0 ==> ((y >> 7u8) & 1) == 0) by (bit_vector);
            }
            assert(((xs >> 7u8) >> 1u8) == 0) by (bit_vector);
            assert(su == 7);
        }
    }
}

/// Simulation of one payload byte: when the sink appends a byte, the
/// decoder reading the finished stream reads exactly that byte.
proof fn lemma_sim_byte(s_final: Seq<u8>, m_fin: SinkModel, m: SinkModel, byte: u8)
    requires
        smx_wf(m),
        s_final == m_fin.out,
        sm_preserves(sm_push(m, byte), m_fin),
    ensures
        smx_wf(sm_push(m, byte)),
        spec_read_byte(s_final, ds_of(s_final, m)) == Some(
            (ds_of(s_final, sm_push(m, byte)), byte),
        ),
{
    let m2 = sm_push(m, byte);
    let idx = m.out.len() as int;
    assert(m2.out[idx] == byte);
    assert(s_final[idx] == m2.out[idx]);
    if m.cmd_bits_rem > 0 {
        assert(s_final[m2.cmd_index] == s_final[m.cmd_index]);
    }
}

/// Preservation carries through the rest of the encoding: feeding the
/// remaining commands and the EOF sentinel to `b` still preserves `a`.
proof fn lemma_preserves_to_final(a: SinkModel, b: SinkModel, min_long: u16, rest: Seq<Cmd>)
    requires
        smx_wf(a),
        smx_wf(b),
        sm_preserves(a, b),
    ensures
        smx_wf(sm_finish_model(sm_run(b, min_long, rest))),
        sm_preserves(a, sm_finish_model(sm_run(b, min_long, rest))),
{
    lemma_preserves_run(a, b, min_long, rest);
    lemma_preserves_finish(a, sm_run(b, min_long, rest));
}

/// Simulation of one whole command: when the sink encodes `c` and the rest
/// of the stream follows, the decoder reading the finished stream decodes
/// exactly `c`.
#[verifier::rlimit(100)]
#[verifier::spinoff_prover]
proof fn lemma_sim_token(
    s_final: Seq<u8>,
    m_fin: SinkModel,
    m: SinkModel,
    min_long: u16,
    c: Cmd,
    rest: Seq<Cmd>,
)
    requires
        1 <= min_long <= 10,
        smx_wf(m),
        spec_cmd_valid(c, min_long),
        (match c {
            Cmd::Pointer(dist, len) => len == 2 ==> dist < 256,
            Cmd::Literal(_) => true,
        }),
        m_fin == sm_finish_model(sm_run(sm_consume(m, min_long, c), min_long, rest)),
        s_final == m_fin.out,
    ensures
        smx_wf(sm_consume(m, min_long, c)),
        spec_next_cmd(min_long, s_final, ds_of(s_final, m)) == Some(
            (ds_of(s_final, sm_consume(m, min_long, c)), Some(c)),
        ),
{
    match c {
        Cmd::Literal(byte) => {
            let m1 = sm_write_bit(m, true);
            let m2 = sm_push(m1, byte);
            lemma_smx_wf_write_bit(m, true);
            lemma_smx_wf_push(m1, byte);
            lemma_preserves_refl(m1);
            lemma_preserves_push(m1, m1, byte);
            lemma_preserves_to_final(m1, m2, min_long, rest);
            lemma_sim_bit(s_final, m_fin, m, true);
            lemma_preserves_refl(m2);
            lemma_preserves_to_final(m2, m2, min_long, rest);
            lemma_sim_byte(s_final, m_fin, m1, byte);
        },
        Cmd::Pointer(dist, len) => {
            if dist >= 256 || len > 5 {
                // long form; a length of 2 would need the short form, so
                // the three-bit length field is never zero unless the
                // extended-length byte follows
                assert(len >= 3);
                let low3: int = if len - 2 < 8 {
                    len - 2
                } else {
                    0
                };
                let v: int = 65536 - 8 * dist + low3;
                let lo_b: u8 = (v % 256) as u8;
                let hi_b: u8 = (v / 256) as u8;
                let m1 = sm_write_bit(m, false);
                let m2 = sm_write_bit(m1, true);
                let m3 = sm_push(m2, lo_b);
                let m4 = sm_push(m3, hi_b);
                lemma_smx_wf_write_bit(m, false);
                lemma_smx_wf_write_bit(m1, true);
                lemma_smx_wf_push(m2, lo_b);
                lemma_smx_wf_push(m3, hi_b);

                lemma_preserves_refl(m1);
                lemma_preserves_write_bit(m1, m1, true);
                lemma_preserves_push(m1, m2, lo_b);
                lemma_preserves_push(m1, m3, hi_b);
                lemma_preserves_refl(m2);
                lemma_preserves_push(m2, m2, lo_b);
                lemma_preserves_push(m2, m3, hi_b);
                lemma_preserves_refl(m3);
                lemma_preserves_push(m3, m3, hi_b);
                lemma_preserves_refl(m4);

                if len - 2 >= 8 {
                    let ext: u8 = (len - min_long) as u8;
                    let m5 = sm_push(m4, ext);
                    lemma_smx_wf_push(m4, ext);
                    lemma_preserves_push(m1, m4, ext);
                    lemma_preserves_push(m2, m4, ext);
                    lemma_preserves_push(m3, m4, ext);
                    lemma_preserves_push(m4, m4, ext);
                    lemma_preserves_refl(m5);
                    lemma_preserves_to_final(m1, m5, min_long, rest);
                    lemma_sim_bit(s_final, m_fin, m, false);
                    lemma_preserves_to_final(m2, m5, min_long, rest);
                    lemma_sim_bit(s_final, m_fin, m1, true);
                    lemma_preserves_to_final(m3, m5, min_long, rest);
                    lemma_sim_byte(s_final, m_fin, m2, lo_b);
                    lemma_preserves_to_final(m4, m5, min_long, rest);
                    lemma_sim_byte(s_final, m_fin, m3, hi_b);
                    lemma_preserves_to_final(m5, m5, min_long, rest);
                    lemma_sim_byte(s_final, m_fin, m4, ext);
                } else {
                    lemma_preserves_to_final(m1, m4, min_long, rest);
                    lemma_sim_bit(s_final, m_fin, m, false);
                    lemma_preserves_to_final(m2, m4, min_long, rest);
                    lemma_sim_bit(s_final, m_fin, m1, true);
                    lemma_preserves_to_final(m3, m4, min_long, rest);
                    lemma_sim_byte(s_final, m_fin, m2, lo_b);
                    lemma_preserves_to_final(m4, m4, min_long, rest);
                    lemma_sim_byte(s_final, m_fin, m3, hi_b);
                }

                // the decoder reassembles the same 16-bit value
                assert(v == 8 * (8192 - dist) + low3);
                assert(0 <= v <= 65535);
                assert(lo_b as int == v % 256 && hi_b as int == v / 256);
                assert(lo_b + 256 * hi_b == v) by {
                    vstd::arithmetic::div_mod::lemma_fundamental_div_mod(v, 256);
                };
                assert(v != 0);
                assert(v % 8 == low3 && v / 8 == 8192 - dist) by {
                    vstd::arithmetic::div_mod::lemma_fundamental_div_mod_converse(
                        v,
                        8,
                        8192 - dist,
                        low3,
                    );
                };
            } else {
                let size: int = len - 2;
                let b5: u8 = (256 - dist) as u8;
                let m1 = sm_write_bit(m, false);
                let m2 = sm_write_bit(m1, false);
                let m3 = sm_write_bit(m2, size >= 2);
                let m4 = sm_write_bit(m3, size % 2 == 1);
                let m5 = sm_push(m4, b5);
                lemma_smx_wf_write_bit(m, false);
                lemma_smx_wf_write_bit(m1, false);
                lemma_smx_wf_write_bit(m2, size >= 2);
                lemma_smx_wf_write_bit(m3, size % 2 == 1);
                lemma_smx_wf_push(m4, b5);

                lemma_preserves_refl(m1);
                lemma_preserves_write_bit(m1, m1, false);
                lemma_preserves_write_bit(m1, m2, size >= 2);
                lemma_preserves_write_bit(m1, m3, size % 2 == 1);
                lemma_preserves_push(m1, m4, b5);
                lemma_preserves_refl(m2);
                lemma_preserves_write_bit(m2, m2, size >= 2);
                lemma_preserves_write_bit(m2, m3, size % 2 == 1);
                lemma_preserves_push(m2, m4, b5);
                lemma_preserves_refl(m3);
                lemma_preserves_write_bit(m3, m3, size % 2 == 1);
                lemma_preserves_push(m3, m4, b5);
                lemma_preserves_refl(m4);
                lemma_preserves_push(m4, m4, b5);
                lemma_preserves_refl(m5);

                lemma_preserves_to_final(m1, m5, min_long, rest);
                lemma_sim_bit(s_final, m_fin, m, false);
                lemma_preserves_to_final(m2, m5, min_long, rest);
                lemma_sim_bit(s_final, m_fin, m1, false);
                lemma_preserves_to_final(m3, m5, min_long, rest);
                lemma_sim_bit(s_final, m_fin, m2, size >= 2);
                lemma_preserves_to_final(m4, m5, min_long, rest);
                lemma_sim_bit(s_final, m_fin, m3, size % 2 == 1);
                lemma_preserves_to_final(m5, m5, min_long, rest);
                lemma_sim_byte(s_final, m_fin, m4, b5);
            }
        },
    }
}

/// Simulation of the EOF sentinel: after the last command, the decoder
/// reading the finished stream sees end-of-stream.
proof fn lemma_sim_sentinel(min_long: u16, s_final: Seq<u8>, m_fin: SinkModel, m: SinkModel)
    requires
        smx_wf(m),
        m_fin == sm_finish_model(m),
        s_final == m_fin.out,
    ensures
        spec_next_cmd(min_long, s_final, ds_of(s_final, m)) == Some((ds_of(s_final, m_fin), None::<Cmd>)),
{
    let m1 = sm_write_bit(m, false);
    let m2 = sm_write_bit(m1, true);
    let m3 = sm_push(m2, 0);
    let m4 = sm_push(m3, 0);
    lemma_smx_wf_write_bit(m, false);
    lemma_smx_wf_write_bit(m1, true);
    lemma_smx_wf_push(m2, 0);
    lemma_smx_wf_push(m3, 0);

    lemma_preserves_refl(m1);
    lemma_preserves_write_bit(m1, m1, true);
    lemma_preserves_push(m1, m2, 0);
    lemma_preserves_push(m1, m3, 0);
    lemma_sim_bit(s_final, m_fin, m, false);
    lemma_preserves_refl(m2);
    lemma_preserves_push(m2, m2, 0);
    lemma_preserves_push(m2, m3, 0);
    lemma_sim_bit(s_final, m_fin, m1, true);
    lemma_preserves_refl(m3);
    lemma_preserves_push(m3, m3, 0);
    lemma_sim_byte(s_final, m_fin, m2, 0);
    lemma_preserves_refl(m4);
    lemma_sim_byte(s_final, m_fin, m3, 0);
}

/// A command sequence the PRS encoding can represent faithfully: every
/// command is valid for the dialect, and a length-2 pointer uses a
/// short-form distance (in the long form a zero length field would be read
/// as an extended-length marker).
pub(crate) open spec fn cmds_encodable(cs: Seq<Cmd>, min_long: u16) -> bool
    decreases cs.len(),
{
    if cs.len() == 0 {
        true
    } else {
        &&& spec_cmd_valid(cs[0], min_long)
        &&& (match cs[0] {
            Cmd::Pointer(dist, len) => len == 2 ==> dist < 256,
            Cmd::Literal(_) => true,
        })
        &&& cmds_encodable(cs.drop_first(), min_long)
    }
}

/// A command sequence whose pointers always stay inside the output
/// produced so far.
pub(crate) open spec fn applies_ok(out: Seq<u8>, cs: Seq<Cmd>) -> bool
    decreases cs.len(),
{
    if cs.len() == 0 {
        true
    } else {
        match cs[0] {
            Cmd::Literal(b) => applies_ok(out.push(b), cs.drop_first()),
            Cmd::Pointer(dist, len) => 1 <= dist <= out.len() && applies_ok(
                spec_apply_ptr(out, dist as int, len as int),
                cs.drop_first(),
            ),
        }
    }
}

/// The greedy command stream is encodable for its dialect.
proof fn lemma_tokens_encodable(min_long: u16, input: Seq<u8>, pos: int)
    requires
        1 <= min_long <= 10,
        0 <= pos,
    ensures
        cmds_encodable(spec_tokens(min_long, input, pos), min_long),
    decreases input.len() - pos,
{
    if pos < input.len() {
        let t = spec_token_at(min_long, input, pos);
        let ts = spec_tokens(min_long, input, pos);
        let rest = spec_tokens(min_long, input, pos + spec_advance(t));
        lemma_token_at_props(min_long, input, pos);
        assert(ts[0] == t);
        assert(ts.drop_first() =~= rest);
        match t {
            Cmd::Literal(_) => {
            },
            Cmd::Pointer(dist, len) => {
                lemma_cand_props(input, pos, pos - 1);
                let c = spec_cand_from(input, pos, pos - 1);
                let budget = spec_budget(min_long, input, pos);
                lemma_ml_bounds(input, pos, pos - c, budget);
                assert(c >= 0);
                assert(dist as int == pos - c);
                assert(len as int == spec_ml(input, pos, pos - c, budget));
                assert(len == 2 ==> dist < 256);
            },
        }
        lemma_tokens_encodable(min_long, input, pos + spec_advance(t));
    }
}

/// The greedy command stream's pointers always stay inside the output
/// produced so far, starting from the prefix already encoded.
proof fn lemma_tokens_applies_ok(min_long: u16, input: Seq<u8>, pos: int)
    requires
        0 <= pos <= input.len(),
    ensures
        applies_ok(input.take(pos), spec_tokens(min_long, input, pos)),
    decreases input.len() - pos,
{
    if pos < input.len() {
        let t = spec_token_at(min_long, input, pos);
        let ts = spec_tokens(min_long, input, pos);
        let rest = spec_tokens(min_long, input, pos + spec_advance(t));
        lemma_token_at_props(min_long, input, pos);
        assert(ts[0] == t);
        assert(ts.drop_first() =~= rest);
        match t {
            Cmd::Literal(b) => {
                assert(input.take(pos).push(b) =~= input.take(pos + 1));
                lemma_tokens_applies_ok(min_long, input, pos + 1);
            },
            Cmd::Pointer(dist, len) => {
                lemma_cand_props(input, pos, pos - 1);
                let c = spec_cand_from(input, pos, pos - 1);
                let budget = spec_budget(min_long, input, pos);
                lemma_ml_bounds(input, pos, pos - c, budget);
                assert(c >= 0);
                assert(dist as int == pos - c);
                assert(len as int == spec_ml(input, pos, pos - c, budget));
                lemma_apply_ml_prefix(input, pos, pos - c, budget, len as int);
                lemma_tokens_applies_ok(min_long, input, pos + len);
            },
        }
    }
}

/// Decoding the finished stream from any point of the encoding: what
/// remains decodes to the remaining commands applied to the output so far.
proof fn lemma_decode_run(
    min_long: u16,
    s_final: Seq<u8>,
    m: SinkModel,
    ts: Seq<Cmd>,
    out: Seq<u8>,
)
    requires
        1 <= min_long <= 10,
        smx_wf(m),
        cmds_encodable(ts, min_long),
        applies_ok(out, ts),
        s_final == sm_finish_model(sm_run(m, min_long, ts)).out,
    ensures
        spec_run(min_long, s_final, ds_of(s_final, m), out) == Ok::<Seq<u8>, DecompressError>(
            spec_apply_cmds(out, ts),
        ),
    decreases ts.len(),
{
    let m_fin = sm_finish_model(sm_run(m, min_long, ts));
    lemma_preserves_refl(m);
    lemma_preserves_to_final(m, m, min_long, ts);
    assert(m.out.len() <= s_final.len());
    if ts.len() == 0 {
        lemma_sim_sentinel(min_long, s_final, m_fin, m);
    } else {
        let c = ts[0];
        let m2 = sm_consume(m, min_long, c);
        assert(sm_run(m, min_long, ts) == sm_run(m2, min_long, ts.drop_first()));
        lemma_sim_token(s_final, m_fin, m, min_long, c, ts.drop_first());
        match c {
            Cmd::Literal(b) => {
                lemma_decode_run(min_long, s_final, m2, ts.drop_first(), out.push(b));
            },
            Cmd::Pointer(dist, len) => {
                lemma_decode_run(
                    min_long,
                    s_final,
                    m2,
                    ts.drop_first(),
                    spec_apply_ptr(out, dist as int, len as int),
                );
            },
        }
    }
}

/// Roundtrip law: for every buffer and for every dialect (given by its
/// minimum long-copy length, 1 for Legacy and 10 for Modern), decompressing
/// the compressed buffer yields the buffer back.
pub proof fn lemma_roundtrip(min_long: u16, input: Seq<u8>)
    requires
        1 <= min_long <= 10,
    ensures
        spec_decompress(min_long, spec_compress(min_long, input)) == Ok::<Seq<u8>, DecompressError>(
            input,
        ),
{
    if input.len() == 0 {
        assert(spec_compress(min_long, input).len() == 0);
        assert(spec_decompress(min_long, spec_compress(min_long, input)) == Ok::<
            Seq<u8>,
            DecompressError,
        >(Seq::empty()));
        assert(input =~= Seq::<u8>::empty());
    } else {
        let ts = spec_tokens(min_long, input, 0);
        let m0 = sm_empty();
        let s_final = spec_compress(min_long, input);
        lemma_tokens_encodable(min_long, input, 0);
        lemma_tokens_applies_ok(min_long, input, 0);
        assert(input.take(0) =~= Seq::<u8>::empty());
        assert(s_final == sm_finish_model(sm_run(m0, min_long, ts)).out);
        lemma_decode_run(min_long, s_final, m0, ts, Seq::empty());
        lemma_tokens_reproduce_input(min_long, input);
        assert(ds_of(s_final, m0) == ds_init());
        assert(s_final.len() >= 2);
    }
}

/// Roundtrip law, stated per flavor: for every buffer `B` and every flavor
/// `F`, decompressing `compress::<F>(B)` yields `B` back.
pub proof fn lemma_roundtrip_flavor<F: crate::flavor::Flavor>(input: Seq<u8>)
    ensures
        spec_decompress(
            F::spec_min_long_copy_length(),
            spec_compress(F::spec_min_long_copy_length(), input),
        ) == Ok::<Seq<u8>, DecompressError>(input),
{
    F::min_long_copy_length_bounds();
    lemma_roundtrip(F::spec_min_long_copy_length(), input);
}

} // verus!
