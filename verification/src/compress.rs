//! Compression to PRS.
//!
//! The encoder walks the input with a greedy sliding-window match finder:
//! at each position it looks for the most recent earlier occurrence of the
//! current two-byte pair inside the 8191-byte window, extends the match as
//! far as the dialect's maximum copy length allows, and emits a pointer when
//! the match is long enough to be encodable; otherwise it emits a literal.
//! The resulting command stream is rendered by [`PrsSink`].

use vstd::prelude::*;

use crate::cmd::Cmd;
use crate::cmd::spec_advance;
use crate::cmd::spec_apply_cmds;
use crate::cmd::spec_apply_ptr;
use crate::cmd::spec_cmd_valid;
use crate::decompress::DecompressError;
use crate::decompress::spec_decompress;
use crate::flavor::Flavor;
use crate::sink::PrsSink;
use crate::sink::sm_empty;
use crate::sink::sm_finish;
use crate::sink::sm_run;
use crate::variant::Variant;

verus! {

/// The largest copy length a dialect can encode: 255 more than its minimum
/// long-copy length.
pub open spec fn spec_max_copy(min_long: u16) -> int {
    min_long + 255
}

/// How far a match starting at `pos` may extend: to the end of the input,
/// but never beyond the dialect's maximum copy length.
pub open spec fn spec_budget(min_long: u16, input: Seq<u8>, pos: int) -> int {
    if input.len() - pos < spec_max_copy(min_long) {
        input.len() - pos
    } else {
        spec_max_copy(min_long)
    }
}

/// The most recent position `<= q` whose two-byte pair equals the pair at
/// `pos`, scanning backwards no further than the 8191-byte window; `-1` when
/// there is none.
pub open spec fn spec_cand_from(input: Seq<u8>, pos: int, q: int) -> int
    decreases q + 1,
{
    if q < 0 || pos - q > 8191 {
        -1
    } else if input[q] == input[pos] && input[q + 1] == input[pos + 1] {
        q
    } else {
        spec_cand_from(input, pos, q - 1)
    }
}

/// How many bytes starting at `pos` match the bytes `dist` earlier, up to
/// `budget`.
pub open spec fn spec_ml(input: Seq<u8>, pos: int, dist: int, budget: int) -> int
    decreases budget,
{
    if budget <= 0 || pos >= input.len() || pos - dist < 0 {
        0
    } else if input[pos] == input[pos - dist] {
        1 + spec_ml(input, pos + 1, dist, budget - 1)
    } else {
        0
    }
}

/// The command the greedy encoder emits at position `pos`: a pointer to the
/// most recent two-byte candidate when the match is long enough to encode
/// (length at least 3, or exactly 2 with a short-form distance), else a
/// literal.
pub open spec fn spec_token_at(min_long: u16, input: Seq<u8>, pos: int) -> Cmd {
    if pos + 1 >= input.len() {
        Cmd::Literal(input[pos])
    } else {
        let c = spec_cand_from(input, pos, pos - 1);
        if c < 0 {
            Cmd::Literal(input[pos])
        } else {
            let d = pos - c;
            let l = spec_ml(input, pos, d, spec_budget(min_long, input, pos));
            if l >= 3 || (l == 2 && d < 256) {
                Cmd::Pointer(d as usize, l as usize)
            } else {
                Cmd::Literal(input[pos])
            }
        }
    }
}

/// The whole command stream the greedy encoder emits from position `pos` on.
pub open spec fn spec_tokens(min_long: u16, input: Seq<u8>, pos: int) -> Seq<Cmd>
    decreases input.len() - pos
        when 0 <= pos
        via spec_tokens_decreases
{
    if pos >= input.len() {
        Seq::empty()
    } else {
        let t = spec_token_at(min_long, input, pos);
        seq![t] + spec_tokens(min_long, input, pos + spec_advance(t))
    }
}

/// A match length is between zero and its budget.
pub(crate) proof fn lemma_ml_bounds(input: Seq<u8>, pos: int, dist: int, budget: int)
    requires
        0 <= budget,
    ensures
        0 <= spec_ml(input, pos, dist, budget) <= budget,
    decreases budget,
{
    if budget > 0 && pos < input.len() && pos - dist >= 0 && input[pos] == input[pos - dist] {
        lemma_ml_bounds(input, pos + 1, dist, budget - 1);
    }
}

/// A candidate is either absent or a position before `pos`, inside the
/// window, whose two-byte pair matches.
pub(crate) proof fn lemma_cand_props(input: Seq<u8>, pos: int, q: int)
    requires
        q < pos,
    ensures
        ({
            let r = spec_cand_from(input, pos, q);
            r == -1 || (0 <= r <= q && pos - r <= 8191 && input[r] == input[pos] && input[r + 1]
                == input[pos + 1])
        }),
    decreases q + 1,
{
    if q < 0 || pos - q > 8191 {
    } else if input[q] == input[pos] && input[q + 1] == input[pos + 1] {
    } else {
        lemma_cand_props(input, pos, q - 1);
    }
}

/// The token emitted at an in-range position advances by at least one byte
/// and never past the end of the input, and is encodable for the dialect.
pub(crate) proof fn lemma_token_at_props(min_long: u16, input: Seq<u8>, pos: int)
    requires
        0 <= pos < input.len(),
    ensures
        1 <= spec_advance(spec_token_at(min_long, input, pos)),
        pos + spec_advance(spec_token_at(min_long, input, pos)) <= input.len(),
        1 <= min_long ==> spec_cmd_valid(spec_token_at(min_long, input, pos), min_long),
{
    if pos + 1 < input.len() {
        let c = spec_cand_from(input, pos, pos - 1);
        lemma_cand_props(input, pos, pos - 1);
        if c >= 0 {
            let d = pos - c;
            let budget = spec_budget(min_long, input, pos);
            lemma_ml_bounds(input, pos, d, budget);
        }
    }
}

#[via_fn]
proof fn spec_tokens_decreases(min_long: u16, input: Seq<u8>, pos: int) {
    if pos < input.len() {
        lemma_token_at_props(min_long, input, pos);
    }
}

/// Resolving a pointer whose copied bytes lie inside a match extends a
/// prefix of the input to a longer prefix: the sliding-window copy
/// reproduces `input[pos .. pos + l]`, overlap included.
pub(crate) proof fn lemma_apply_ml_prefix(input: Seq<u8>, pos: int, dist: int, budget: int, l: int)
    requires
        1 <= dist <= pos,
        pos <= input.len(),
        0 <= l <= spec_ml(input, pos, dist, budget),
    ensures
        pos + l <= input.len(),
        spec_apply_ptr(input.take(pos), dist, l) == input.take(pos + l),
    decreases l,
{
    if l <= 0 {
        assert(spec_apply_ptr(input.take(pos), dist, l) =~= input.take(pos));
    } else {
        let out = input.take(pos);
        assert(input[pos] == input[pos - dist]);
        assert(out[out.len() - dist] == input[pos - dist]);
        assert(out.push(input[pos]) =~= input.take(pos + 1));
        assert(l - 1 <= spec_ml(input, pos + 1, dist, budget - 1));
        lemma_apply_ml_prefix(input, pos + 1, dist, budget - 1, l - 1);
    }
}

/// The greedy command stream from position `pos`, applied to the input's
/// first `pos` bytes, reproduces the whole input.
proof fn lemma_tokens_apply_from(min_long: u16, input: Seq<u8>, pos: int)
    requires
        0 <= pos <= input.len(),
    ensures
        spec_apply_cmds(input.take(pos), spec_tokens(min_long, input, pos)) == input,
    decreases input.len() - pos,
{
    let ts = spec_tokens(min_long, input, pos);
    if pos >= input.len() {
        assert(input.take(pos) =~= input);
    } else {
        let t = spec_token_at(min_long, input, pos);
        lemma_token_at_props(min_long, input, pos);
        let rest = spec_tokens(min_long, input, pos + spec_advance(t));
        assert(ts == seq![t] + rest);
        assert(ts[0] == t);
        assert(ts.drop_first() =~= rest);
        match t {
            Cmd::Literal(b) => {
                assert(b == input[pos]);
                assert(input.take(pos).push(b) =~= input.take(pos + 1));
                lemma_tokens_apply_from(min_long, input, pos + 1);
            },
            Cmd::Pointer(dist, len) => {
                lemma_cand_props(input, pos, pos - 1);
                let c = spec_cand_from(input, pos, pos - 1);
                let budget = spec_budget(min_long, input, pos);
                lemma_ml_bounds(input, pos, pos - c, budget);
                assert(c >= 0);
                assert(dist as int == pos - c);
                assert(len as int == spec_ml(input, pos, pos - c, budget));
                lemma_apply_ml_prefix(input, pos, pos - c, budget, len as int);
                lemma_tokens_apply_from(min_long, input, pos + len);
            },
        }
    }
}

/// Law: for every input and every dialect, the command stream the encoder
/// hands to the sink reproduces the input when applied under the LZ77
/// sliding-window semantics. This is the match-finder half of the roundtrip:
/// a decoder that recovers the commands from the byte stream recovers the
/// input.
pub proof fn lemma_tokens_reproduce_input(min_long: u16, input: Seq<u8>)
    ensures
        spec_apply_cmds(Seq::empty(), spec_tokens(min_long, input, 0)) == input,
{
    assert(input.take(0) =~= Seq::<u8>::empty());
    lemma_tokens_apply_from(min_long, input, 0);
}

/// The PRS encoding of a whole buffer: the empty buffer encodes to the
/// empty buffer; anything else is the greedy command stream rendered by the
/// sink and closed with the EOF sentinel.
pub open spec fn spec_compress(min_long: u16, input: Seq<u8>) -> Seq<u8> {
    if input.len() == 0 {
        Seq::empty()
    } else {
        sm_finish(sm_run(sm_empty(), min_long, spec_tokens(min_long, input, 0)))
    }
}

/// Finds the most recent position before `pos` whose two-byte pair equals
/// the pair at `pos`, inside the 8191-byte window.
fn find_candidate(buf: &[u8], pos: usize) -> (r: Option<usize>)
    requires
        pos + 1 < buf@.len(),
    ensures
        ({
            let c = spec_cand_from(buf@, pos as int, pos as int - 1);
            match r {
                Some(ci) => c == ci,
                None => c == -1,
            }
        }),
{
    let mut q: usize = pos;
    loop
        invariant
            q <= pos,
            pos + 1 < buf@.len(),
            spec_cand_from(buf@, pos as int, pos as int - 1) == spec_cand_from(
                buf@,
                pos as int,
                q as int - 1,
            ),
        decreases q,
    {
        if q == 0 {
            return None;
        }
        let c: usize = q - 1;
        if pos - c > 8191 {
            return None;
        }
        if buf[c] == buf[pos] && buf[c + 1] == buf[pos + 1] {
            return Some(c);
        }
        q = c;
    }
}

/// Counts how many bytes starting at `pos` match the bytes `dist` earlier,
/// up to `budget`.
fn match_len(buf: &[u8], pos: usize, dist: usize, budget: usize) -> (l: usize)
    requires
        1 <= dist <= pos,
        pos <= buf@.len(),
        budget <= buf@.len() - pos,
    ensures
        l == spec_ml(buf@, pos as int, dist as int, budget as int),
{
    let n: usize = buf.len();
    let mut l: usize = 0;
    while l < budget && buf[pos + l] == buf[pos - dist + l]
        invariant
            n == buf@.len(),
            l <= budget,
            1 <= dist <= pos,
            pos <= buf@.len(),
            budget <= buf@.len() - pos,
            spec_ml(buf@, pos as int, dist as int, budget as int) == l + spec_ml(
                buf@,
                pos + l as int,
                dist as int,
                (budget - l) as int,
            ),
        decreases budget - l,
    {
        l = l + 1;
    }
    l
}

/// Computes the command the greedy encoder emits at `pos`.
fn next_token(min_long: u16, buf: &[u8], pos: usize) -> (t: Cmd)
    requires
        1 <= min_long <= 10,
        pos < buf@.len(),
    ensures
        t == spec_token_at(min_long, buf@, pos as int),
        spec_cmd_valid(t, min_long),
        1 <= spec_advance(t),
        pos + spec_advance(t) <= buf@.len(),
{
    proof {
        lemma_token_at_props(min_long, buf@, pos as int);
    }
    let n: usize = buf.len();
    if pos + 1 >= n {
        Cmd::Literal(buf[pos])
    } else {
        match find_candidate(buf, pos) {
            None => Cmd::Literal(buf[pos]),
            Some(c) => {
                proof {
                    lemma_cand_props(buf@, pos as int, pos as int - 1);
                }
                let dist: usize = pos - c;
                let max_copy: usize = min_long as usize + 255;
                let rem: usize = buf.len() - pos;
                let budget: usize = if rem < max_copy {
                    rem
                } else {
                    max_copy
                };
                let l: usize = match_len(buf, pos, dist, budget);
                if l >= 3 || (l == 2 && dist < 256) {
                    Cmd::Pointer(dist, l)
                } else {
                    Cmd::Literal(buf[pos])
                }
            },
        }
    }
}

/// Compresses a whole buffer for a dialect given by its minimum long-copy
/// length.
fn compress_with(min_long: u16, buf: &[u8]) -> (r: Vec<u8>)
    requires
        1 <= min_long <= 10,
    ensures
        r@ == spec_compress(min_long, buf@),
        buf@.len() > 0 ==> r@.len() >= 3 && r@[r@.len() - 1] == 0 && r@[r@.len() - 2] == 0,
{
    if buf.len() == 0 {
        return Vec::new();
    }

    let mut sink = PrsSink { cmd_index: 0, cmd_bits_rem: 0, out: Vec::new(), min_long };
    proof {
        assert(sink.model() =~= sm_empty());
    }
    let ghost all = spec_tokens(min_long, buf@, 0);
    let mut pos: usize = 0;

    while pos < buf.len()
        invariant
            1 <= min_long <= 10,
            pos <= buf@.len(),
            sink.wf(),
            sink.min_long == min_long,
            all == spec_tokens(min_long, buf@, 0),
            sm_run(sink.model(), min_long, spec_tokens(min_long, buf@, pos as int)) == sm_run(
                sm_empty(),
                min_long,
                all,
            ),
        decreases buf@.len() - pos,
    {
        let ghost toks = spec_tokens(min_long, buf@, pos as int);
        let t = next_token(min_long, buf, pos);
        sink.consume(t);
        match t {
            Cmd::Literal(_) => {
                pos = pos + 1;
            },
            Cmd::Pointer(_, l) => {
                pos = pos + l;
            },
        }
        proof {
            assert(toks[0] == t);
            assert(toks.drop_first() =~= spec_tokens(min_long, buf@, pos as int));
        }
    }

    sink.finish()
}

/// Compresses a byte buffer, as a particular [`Variant`].
///
/// The result is exactly the mathematical encoding of the input: the same
/// input always yields the same output, and decompressing it under the same
/// dialect yields the input back. Every non-empty output ends with the EOF
/// sentinel's two zero offset bytes, and the empty input yields the empty
/// output.
pub fn compress<V: Variant>(buf: &[u8]) -> (r: Vec<u8>)
    ensures
        r@ == spec_compress(V::spec_min_long_copy_length(), buf@),
        spec_decompress(V::spec_min_long_copy_length(), r@) == Ok::<Seq<u8>, DecompressError>(
            buf@,
        ),
        buf@.len() > 0 ==> r@.len() >= 3 && r@[r@.len() - 1] == 0 && r@[r@.len() - 2] == 0,
        buf@.len() == 0 ==> r@.len() == 0,
{
    compress_buf::<V>(buf)
}

/// Compresses a byte buffer, as a particular [`Variant`].
pub fn compress_buf<V: Variant>(buf: &[u8]) -> (r: Vec<u8>)
    ensures
        r@ == spec_compress(V::spec_min_long_copy_length(), buf@),
        spec_decompress(V::spec_min_long_copy_length(), r@) == Ok::<Seq<u8>, DecompressError>(
            buf@,
        ),
        buf@.len() > 0 ==> r@.len() >= 3 && r@[r@.len() - 1] == 0 && r@[r@.len() - 2] == 0,
        buf@.len() == 0 ==> r@.len() == 0,
{
    proof {
        V::min_long_copy_length_bounds();
        crate::roundtrip::lemma_roundtrip(V::spec_min_long_copy_length(), buf@);
    }
    compress_with(V::min_long_copy_length(), buf)
}

/// A streaming PRS encoder: accepts input in chunks and produces the whole
/// PRS stream at finalization.
///
/// Feeding chunks `b1` then `b2` and finishing yields exactly the same bytes
/// as compressing `b1 ++ b2` in one shot: the output is the mathematical
/// encoding of the concatenation of everything fed.
pub struct Encoder {
    /// The minimum long-copy length of the dialect being emitted.
    pub min_long: u16,
    /// Everything fed so far.
    pub input: Vec<u8>,
}

impl Encoder {
    /// An encoder is well formed when its dialect parameter is a supported
    /// minimum long-copy length.
    pub open spec fn wf(self) -> bool {
        1 <= self.min_long <= 10
    }

    /// Creates an empty encoder for variant `V`.
    pub fn new<V: Variant>() -> (e: Encoder)
        ensures
            e.wf(),
            e.min_long == V::spec_min_long_copy_length(),
            e.input@ == Seq::<u8>::empty(),
    {
        proof {
            V::min_long_copy_length_bounds();
        }
        Encoder { min_long: V::min_long_copy_length(), input: Vec::new() }
    }

    /// Accepts one chunk of input. The encoder never partially accepts a
    /// chunk: everything handed in becomes part of the stream.
    pub fn feed(&mut self, chunk: &[u8])
        requires
            old(self).wf(),
        ensures
            final(self).wf(),
            final(self).min_long == old(self).min_long,
            final(self).input@ == old(self).input@ + chunk@,
    {
        self.input.extend_from_slice(chunk);
    }

    /// Finishes the stream: encodes everything fed and returns the complete
    /// PRS buffer, EOF sentinel included. Decompressing it under the same
    /// dialect yields the concatenation of everything fed.
    pub fn finish(self) -> (r: Vec<u8>)
        requires
            self.wf(),
        ensures
            r@ == spec_compress(self.min_long, self.input@),
            spec_decompress(self.min_long, r@) == Ok::<Seq<u8>, DecompressError>(self.input@),
            self.input@.len() > 0 ==> r@.len() >= 3 && r@[r@.len() - 1] == 0 && r@[r@.len() - 2]
                == 0,
    {
        proof {
            crate::roundtrip::lemma_roundtrip(self.min_long, self.input@);
        }
        compress_with(self.min_long, self.input.as_slice())
    }
}

/// Relies on `std::io::Error`, the error type of downstream byte sinks; the
/// library only stores and returns such values, never inspects them.
#[verifier::external_type_specification]
#[verifier::external_body]
pub struct ExIoError(std::io::Error);

/// Error returned when finalizing a streaming encoder over an I/O sink
/// fails: carries the sink for inspection and the underlying I/O error. The
/// PRS stream cannot be recovered after such a failure.
pub struct IntoInnerError<W>(pub W, pub std::io::Error);

impl<W> IntoInnerError<W> {
    /// Packs a sink and the I/O error that broke the stream.
    pub fn new(inner: W, error: std::io::Error) -> (r: IntoInnerError<W>)
        ensures
            r.0 == inner,
            r.1 == error,
    {
        IntoInnerError(inner, error)
    }

    /// References the I/O error that failed the operation.
    pub fn error(&self) -> (r: &std::io::Error)
        ensures
            *r == self.1,
    {
        &self.1
    }

    /// Retrieves the inner sink.
    pub fn into_inner(self) -> (r: W)
        ensures
            r == self.0,
    {
        self.0
    }
}

} // verus!
