//! The compression-effectiveness law: a buffer that repeats a pattern
//! shrinks under compression.
//!
//! The accounting rests on the potential `8 * out.len() - cmd_bits_rem`,
//! which grows by exactly 1 per command bit and 8 per payload byte,
//! whether or not a fresh command byte is allocated. Every pointer costs at
//! most 6 potential per output byte it stands for, and on a periodic buffer
//! with a short-form period every position past the first period emits a
//! pointer, so literals - the only tokens costing more than 8 per byte -
//! are confined to the first period and the last byte.

use vstd::prelude::*;

use crate::cmd::Cmd;
use crate::cmd::spec_advance;
use crate::compress::lemma_token_at_props;
use crate::compress::spec_budget;
use crate::compress::spec_cand_from;
use crate::compress::spec_compress;
use crate::compress::spec_ml;
use crate::compress::spec_token_at;
use crate::compress::spec_tokens;
use crate::sink::SinkModel;
use crate::sink::sm_consume;
use crate::sink::sm_empty;
use crate::sink::sm_finish;
use crate::sink::sm_push;
use crate::sink::sm_run;
use crate::sink::sm_wf;
use crate::sink::sm_write_bit;
use crate::roundtrip::lemma_smx_wf_consume;
use crate::roundtrip::lemma_smx_wf_run;
use crate::roundtrip::lemma_smx_wf_write_bit;
use crate::roundtrip::smx_wf;

verus! {

/// The sink's size potential: eight per emitted byte, minus the bits still
/// free in the in-flight command byte.
pub(crate) open spec fn sm_potential(m: SinkModel) -> int {
    8 * m.out.len() - m.cmd_bits_rem
}

/// The potential cost of one command: one per command bit, eight per
/// payload byte.
pub(crate) open spec fn cmd_cost(c: Cmd) -> int {
    match c {
        Cmd::Literal(_) => 9,
        Cmd::Pointer(dist, len) => {
            if dist >= 256 || len > 5 {
                if len - 2 >= 8 {
                    26
                } else {
                    18
                }
            } else {
                12
            }
        },
    }
}

/// The potential cost of a command sequence.
pub(crate) open spec fn cmds_cost(cs: Seq<Cmd>) -> int
    decreases cs.len(),
{
    if cs.len() == 0 {
        0
    } else {
        cmd_cost(cs[0]) + cmds_cost(cs.drop_first())
    }
}

/// How many literals a command sequence holds.
pub(crate) open spec fn lit_count(cs: Seq<Cmd>) -> int
    decreases cs.len(),
{
    if cs.len() == 0 {
        0
    } else {
        (match cs[0] {
            Cmd::Literal(_) => 1int,
            Cmd::Pointer(_, _) => 0int,
        }) + lit_count(cs.drop_first())
    }
}

/// How many output bytes a command sequence stands for.
pub(crate) open spec fn cmds_advance(cs: Seq<Cmd>) -> int
    decreases cs.len(),
{
    if cs.len() == 0 {
        0
    } else {
        spec_advance(cs[0]) + cmds_advance(cs.drop_first())
    }
}

/// Writing one command bit raises the potential by exactly 1.
proof fn lemma_potential_write_bit(m: SinkModel, bit: bool)
    requires
        sm_wf(m),
    ensures
        sm_potential(sm_write_bit(m, bit)) == sm_potential(m) + 1,
{
}

/// Appending one payload byte raises the potential by exactly 8.
proof fn lemma_potential_push(m: SinkModel, byte: u8)
    ensures
        sm_potential(sm_push(m, byte)) == sm_potential(m) + 8,
{
}

/// Encoding one command raises the potential by exactly its cost.
proof fn lemma_potential_consume(m: SinkModel, min_long: u16, c: Cmd)
    requires
        smx_wf(m),
    ensures
        sm_potential(sm_consume(m, min_long, c)) == sm_potential(m) + cmd_cost(c),
{
    match c {
        Cmd::Literal(byte) => {
            lemma_potential_write_bit(m, true);
            lemma_potential_push(sm_write_bit(m, true), byte);
        },
        Cmd::Pointer(dist, len) => {
            if dist >= 256 || len > 5 {
                let m1 = sm_write_bit(m, false);
                let m2 = sm_write_bit(m1, true);
                lemma_smx_wf_write_bit(m, false);
                lemma_smx_wf_write_bit(m1, true);
                lemma_potential_write_bit(m, false);
                lemma_potential_write_bit(m1, true);
                let low3: int = if len - 2 < 8 {
                    len - 2
                } else {
                    0
                };
                let v: int = 65536 - 8 * dist + low3;
                let m3 = sm_push(m2, (v % 256) as u8);
                let m4 = sm_push(m3, (v / 256) as u8);
                lemma_potential_push(m2, (v % 256) as u8);
                lemma_potential_push(m3, (v / 256) as u8);
                if len - 2 >= 8 {
                    lemma_potential_push(m4, (len - min_long) as u8);
                }
            } else {
                let size: int = len - 2;
                let m1 = sm_write_bit(m, false);
                let m2 = sm_write_bit(m1, false);
                let m3 = sm_write_bit(m2, size >= 2);
                let m4 = sm_write_bit(m3, size % 2 == 1);
                lemma_smx_wf_write_bit(m, false);
                lemma_smx_wf_write_bit(m1, false);
                lemma_smx_wf_write_bit(m2, size >= 2);
                lemma_smx_wf_write_bit(m3, size % 2 == 1);
                lemma_potential_write_bit(m, false);
                lemma_potential_write_bit(m1, false);
                lemma_potential_write_bit(m2, size >= 2);
                lemma_potential_write_bit(m3, size % 2 == 1);
                lemma_potential_push(m4, (256 - dist) as u8);
            }
        },
    }
}

/// Encoding a command sequence raises the potential by exactly its cost.
proof fn lemma_potential_run(m: SinkModel, min_long: u16, cs: Seq<Cmd>)
    requires
        smx_wf(m),
    ensures
        sm_potential(sm_run(m, min_long, cs)) == sm_potential(m) + cmds_cost(cs),
    decreases cs.len(),
{
    if cs.len() > 0 {
        lemma_potential_consume(m, min_long, cs[0]);
        lemma_smx_wf_consume(m, min_long, cs[0]);
        lemma_potential_run(sm_consume(m, min_long, cs[0]), min_long, cs.drop_first());
    }
}

/// A command stream the greedy encoder emits costs at most six potential
/// per output byte, plus three per literal.
proof fn lemma_cost_bound(min_long: u16, input: Seq<u8>, pos: int)
    requires
        1 <= min_long <= 10,
        0 <= pos,
    ensures
        cmds_cost(spec_tokens(min_long, input, pos)) <= 6 * cmds_advance(
            spec_tokens(min_long, input, pos),
        ) + 3 * lit_count(spec_tokens(min_long, input, pos)),
    decreases input.len() - pos,
{
    if pos < input.len() {
        let t = spec_token_at(min_long, input, pos);
        let ts = spec_tokens(min_long, input, pos);
        let rest = spec_tokens(min_long, input, pos + spec_advance(t));
        lemma_token_at_props(min_long, input, pos);
        assert(ts[0] == t);
        assert(ts.drop_first() =~= rest);
        match t {
            Cmd::Literal(_) => {
            },
            Cmd::Pointer(dist, len) => {
                // a pointer emitted by the encoder has length at least 2,
                // and the long form is only chosen for length at least 3
                crate::compress::lemma_cand_props(input, pos, pos - 1);
                let c = spec_cand_from(input, pos, pos - 1);
                let budget = spec_budget(min_long, input, pos);
                crate::compress::lemma_ml_bounds(input, pos, pos - c, budget);
                assert(c >= 0);
                assert(dist as int == pos - c);
                assert(len as int == spec_ml(input, pos, pos - c, budget));
                assert(len >= 2);
                if (dist >= 256 || len > 5) && len - 2 < 8 {
                    assert(len >= 3);
                }
            },
        }
        lemma_cost_bound(min_long, input, pos + spec_advance(t));
    }
}

/// The greedy command stream stands for exactly the bytes from `pos` to the
/// end of the input.
proof fn lemma_advance_total(min_long: u16, input: Seq<u8>, pos: int)
    requires
        0 <= pos <= input.len(),
    ensures
        cmds_advance(spec_tokens(min_long, input, pos)) == input.len() - pos,
    decreases input.len() - pos,
{
    if pos < input.len() {
        let t = spec_token_at(min_long, input, pos);
        let ts = spec_tokens(min_long, input, pos);
        let rest = spec_tokens(min_long, input, pos + spec_advance(t));
        lemma_token_at_props(min_long, input, pos);
        assert(ts[0] == t);
        assert(ts.drop_first() =~= rest);
        lemma_advance_total(min_long, input, pos + spec_advance(t));
    }
}

/// The backward scan finds a candidate at least as recent as any position
/// whose two-byte pair matches.
proof fn lemma_cand_from_finds(input: Seq<u8>, pos: int, q: int, w: int)
    requires
        0 <= w <= q < pos,
        pos - w <= 8191,
        input[w] == input[pos],
        input[w + 1] == input[pos + 1],
    ensures
        spec_cand_from(input, pos, q) >= w,
    decreases q + 1,
{
    if q > w && !(input[q] == input[pos] && input[q + 1] == input[pos + 1]) {
        lemma_cand_from_finds(input, pos, q - 1, w);
    }
}

/// A buffer is periodic with period `p` when every byte past the first
/// period repeats the byte one period earlier.
pub open spec fn periodic(input: Seq<u8>, p: int) -> bool {
    forall|i: int| p <= i < input.len() ==> input[i] == #[trigger] input[i - p]
}

/// On a buffer that is periodic with a short-form period, the greedy
/// encoder emits literals only inside the first period and possibly for the
/// very last byte.
proof fn lemma_periodic_literals(min_long: u16, input: Seq<u8>, p: int, pos: int)
    requires
        1 <= min_long <= 10,
        1 <= p <= 255,
        periodic(input, p),
        0 <= pos <= input.len(),
    ensures
        lit_count(spec_tokens(min_long, input, pos)) <= (if pos < p {
            p - pos
        } else {
            0int
        }) + 1,
    decreases input.len() - pos,
{
    if pos < input.len() {
        let t = spec_token_at(min_long, input, pos);
        let ts = spec_tokens(min_long, input, pos);
        let rest = spec_tokens(min_long, input, pos + spec_advance(t));
        lemma_token_at_props(min_long, input, pos);
        assert(ts[0] == t);
        assert(ts.drop_first() =~= rest);
        if pos >= p && pos + 1 < input.len() {
            // a matching pair one period back forces a pointer
            assert(input[pos - p] == input[pos]);
            assert(input[pos + 1 - p] == input[pos + 1]);
            lemma_cand_from_finds(input, pos, pos - 1, pos - p);
            let c = spec_cand_from(input, pos, pos - 1);
            crate::compress::lemma_cand_props(input, pos, pos - 1);
            let d = pos - c;
            assert(1 <= d <= p);
            let budget = spec_budget(min_long, input, pos);
            assert(budget >= 2);
            assert(input[pos + 1] == input[pos + 1 - d]);
            crate::compress::lemma_ml_bounds(input, pos + 2, d, budget - 2);
            assert(spec_ml(input, pos + 1, d, budget - 1) >= 1);
            crate::compress::lemma_ml_bounds(input, pos + 1, d, budget - 1);
            assert(spec_ml(input, pos, d, budget) >= 2);
            assert(t is Pointer);
        }
        lemma_periodic_literals(min_long, input, p, pos + spec_advance(t));
    }
}

/// Compression-effectiveness law: a buffer that repeats a pattern of length
/// between 6 and 255 bytes at least four times over compresses to strictly
/// fewer bytes than it holds, under both dialects.
///
/// The bounds on the period are what the greedy matcher needs: a handful of
/// repetitions of a very short pattern can cost more than the EOF sentinel
/// saves, and a period past the short-pointer range may leave only matches
/// the format cannot encode.
pub proof fn lemma_repetition_compresses(min_long: u16, input: Seq<u8>, p: int)
    requires
        1 <= min_long <= 10,
        6 <= p <= 255,
        periodic(input, p),
        input.len() >= 4 * p,
    ensures
        spec_compress(min_long, input).len() < input.len(),
{
    let ts = spec_tokens(min_long, input, 0);
    let n = input.len() as int;
    let m_run = sm_run(sm_empty(), min_long, ts);
    lemma_smx_wf_run(sm_empty(), min_long, ts);
    lemma_potential_run(sm_empty(), min_long, ts);
    lemma_cost_bound(min_long, input, 0);
    lemma_advance_total(min_long, input, 0);
    lemma_periodic_literals(min_long, input, p, 0);
    assert(cmds_cost(ts) <= 6 * n + 3 * (p + 1));
    // the EOF sentinel costs two bits and two bytes
    let m1 = sm_write_bit(m_run, false);
    let m2 = sm_write_bit(m1, true);
    let m3 = sm_push(m2, 0);
    let m4 = sm_push(m3, 0);
    lemma_smx_wf_write_bit(m_run, false);
    lemma_smx_wf_write_bit(m1, true);
    lemma_potential_write_bit(m_run, false);
    lemma_potential_write_bit(m1, true);
    lemma_potential_push(m2, 0);
    lemma_potential_push(m3, 0);
    assert(sm_finish(m_run) == m4.out);
    assert(8 * m4.out.len() == sm_potential(m4) + m4.cmd_bits_rem);
    assert(m4.cmd_bits_rem <= 8);
    assert(8 * sm_finish(m_run).len() <= 6 * n + 3 * p + 3 + 18 + 8);
    assert(3 * p + 29 < 2 * n);
}

} // verus!
