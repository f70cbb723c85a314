//! The single-pass token-stream encoder.
//!
//! The encoder walks the input once with a 4096-slot dictionary that maps a
//! hash of the 4 bytes at a position to the most recent position with that
//! hash. A hit whose 4-byte signature really matches and whose distance
//! fits in 16 bits becomes a back-reference, extended greedily; everything
//! else is a literal. Correctness is stated against [`decode_stream`]:
//! whatever blocks the heuristics emit, decoding them on top of any prior
//! output yields that output followed by the input, exactly.

use vstd::prelude::*;

use crate::stream::{
    decode_stream, dup_block_bytes, final_block_bytes, int_bytes, lemma_decode_dup_block,
    lemma_decode_final_block, lemma_dup_copies_match, lit_header, token_byte, DecodeOutcome,
};

verus! {

/// The number of dictionary slots.
pub const DICTIONARY_SIZE: usize = 4096;

struct Block {
    lit_len: usize,
    dup: Option<Duplicate>,
}

#[derive(Copy, Clone)]
struct Duplicate {
    offset: u16,
    extra_bytes: usize,
}

/// The 4 bytes at position `n`, read little-endian as one word, so that two
/// positions hold the same 4 bytes exactly when their words are equal.
spec fn batch_at(s: Seq<u8>, n: int) -> u32 {
    (s[n] as u32) | ((s[n + 1] as u32) << 8) | ((s[n + 2] as u32) << 16) | ((s[n + 3] as u32) << 24)
}

proof fn lemma_batch_injective(a0: u8, a1: u8, a2: u8, a3: u8, b0: u8, b1: u8, b2: u8, b3: u8)
    requires
        (a0 as u32) | ((a1 as u32) << 8) | ((a2 as u32) << 16) | ((a3 as u32) << 24) == (b0 as u32)
            | ((b1 as u32) << 8) | ((b2 as u32) << 16) | ((b3 as u32) << 24),
    ensures
        a0 == b0 && a1 == b1 && a2 == b2 && a3 == b3,
{
    assert(((a0 as u32) | ((a1 as u32) << 8) | ((a2 as u32) << 16) | ((a3 as u32) << 24) == (
    b0 as u32) | ((b1 as u32) << 8) | ((b2 as u32) << 16) | ((b3 as u32) << 24)) ==> (a0 == b0 && a1
        == b1 && a2 == b2 && a3 == b3)) by (bit_vector);
}

/// One encoding step: when the stream emitted so far decodes as the first
/// `cur0` input bytes, appending a back-reference block extends that to the
/// block's end, whatever follows and whatever output decoding started from.
proof fn lemma_step_dup(inp: Seq<u8>, emitted: Seq<u8>, cur0: int, lit: nat, off: nat, ext: nat)
    requires
        0 <= cur0,
        cur0 + lit + 4 + ext <= inp.len(),
        1 <= off <= cur0 + lit,
        off <= 0xFFFF,
        forall|k: int|
            0 <= k < 4 + ext ==> inp[cur0 + lit - off + k] == #[trigger] inp[cur0 + lit + k],
        forall|rest: Seq<u8>, s: Seq<u8>|
            s.len() + inp.len() <= usize::MAX ==> #[trigger] decode_stream(emitted + rest, s)
                == decode_stream(rest, s + inp.take(cur0)),
    ensures
        forall|rest: Seq<u8>, s: Seq<u8>|
            s.len() + inp.len() <= usize::MAX ==> #[trigger] decode_stream(
                (emitted + dup_block_bytes(inp.subrange(cur0, cur0 + lit), off, ext)) + rest,
                s,
            ) == decode_stream(rest, s + inp.take(cur0 + lit + 4 + ext)),
{
    let lits = inp.subrange(cur0, cur0 + lit as int);
    let bb = dup_block_bytes(lits, off, ext);
    let c = cur0 + lit;
    let cur1 = c + 4 + ext;
    assert forall|rest: Seq<u8>, s: Seq<u8>| s.len() + inp.len() <= usize::MAX
        implies #[trigger] decode_stream((emitted + bb) + rest, s) == decode_stream(
        rest,
        s + inp.take(cur1),
    ) by {
        assert(emitted + (bb + rest) =~= (emitted + bb) + rest);
        assert(decode_stream(emitted + (bb + rest), s) == decode_stream(
            bb + rest,
            s + inp.take(cur0),
        ));
        let out0 = s + inp.take(cur0);
        lemma_decode_dup_block(lits, off, ext, rest, out0);
        let out2 = out0 + lits;
        let full = s + inp;
        let m = (4 + ext) as nat;
        let dstart = out2.len() - off;
        assert(out2 =~= full.take(out2.len() as int));
        assert forall|k: int| 0 <= k < m implies full[dstart + k] == #[trigger] full[out2.len()
            + k] by {
            assert(full[s.len() + (c - off + k)] == inp[c - off + k]);
            assert(full[s.len() + (c + k)] == inp[c + k]);
            assert(inp[cur0 + lit - off + k] == inp[cur0 + lit + k]);
        }
        lemma_dup_copies_match(out2, dstart as int, m, full);
        assert(full.take((out2.len() + m) as int) =~= s + inp.take(cur1));
    }
}

/// The last encoding step: appending the terminal block turns "decodes as
/// the first `cur0` bytes" into "decodes as the whole input, and the stream
/// ends".
#[verifier::rlimit(100)]
proof fn lemma_step_final(inp: Seq<u8>, emitted: Seq<u8>, cur0: int, lit: nat)
    requires
        0 <= cur0,
        cur0 + lit == inp.len(),
        forall|rest: Seq<u8>, s: Seq<u8>|
            s.len() + inp.len() <= usize::MAX ==> #[trigger] decode_stream(emitted + rest, s)
                == decode_stream(rest, s + inp.take(cur0)),
    ensures
        forall|s: Seq<u8>|
            s.len() + inp.len() <= usize::MAX ==> #[trigger] decode_stream(
                emitted + final_block_bytes(inp.subrange(cur0, cur0 + lit)),
                s,
            ) == DecodeOutcome::Done(s + inp),
{
    let lits = inp.subrange(cur0, cur0 + lit as int);
    let fb = final_block_bytes(lits);
    assert forall|s: Seq<u8>| s.len() + inp.len() <= usize::MAX
        implies #[trigger] decode_stream(emitted + fb, s) == DecodeOutcome::Done(s + inp) by {
        assert(decode_stream(emitted + fb, s) == decode_stream(fb, s + inp.take(cur0)));
        lemma_decode_final_block(lits, s + inp.take(cur0));
        assert(s + inp.take(cur0) + lits =~= s + inp);
    }
}

struct Encoder<'a> {
    input: &'a [u8],
    cur: usize,
    dict: Vec<usize>,
}

impl<'a> Encoder<'a> {
    /// Every dictionary slot is unset or holds an earlier position with a
    /// whole 4-byte batch in bounds.
    spec fn dict_wf(self) -> bool {
        &&& self.dict@.len() == DICTIONARY_SIZE
        &&& forall|j: int|
            0 <= j < DICTIONARY_SIZE as int ==> (#[trigger] self.dict@[j] == usize::MAX || (
            self.dict@[j] + 4 < self.input@.len() && self.dict@[j] < self.cur))
    }

    spec fn wf(self) -> bool {
        &&& self.dict_wf()
        &&& self.cur <= self.input@.len()
    }

    /// Whether a whole 4-byte batch lies at the cursor with room to spare.
    fn remaining_batch(&self) -> (r: bool)
        ensures
            r == (self.cur + 4 < self.input@.len()),
    {
        self.cur < self.input.len() && self.input.len() - self.cur > 4
    }

    /// The 4-byte batch at position `n`, as one little-endian word.
    fn get_batch(&self, n: usize) -> (r: u32)
        requires
            n + 4 <= self.input@.len(),
        ensures
            r == batch_at(self.input@, n as int),
    {
        let ilen = self.input.len();
        assert(ilen == self.input@.len());
        (self.input[n] as u32) | ((self.input[n + 1] as u32) << 8) | ((self.input[n + 2] as u32)
            << 16) | ((self.input[n + 3] as u32) << 24)
    }

    /// The batch at the cursor.
    fn get_batch_at_cursor(&self) -> (r: u32)
        requires
            self.cur + 4 <= self.input@.len(),
        ensures
            r == batch_at(self.input@, self.cur as int),
    {
        self.get_batch(self.cur)
    }

    /// The dictionary slot of the batch at the cursor: a multiplicative mix
    /// reduced modulo the dictionary size.
    fn get_cur_hash(&self) -> (r: usize)
        requires
            self.cur + 4 <= self.input@.len(),
        ensures
            r < DICTIONARY_SIZE,
    {
        let mut x = self.get_batch_at_cursor().wrapping_mul(0xa4d94a4f);
        let a = x >> 16;
        let b = x >> 30;
        assert(x >> 30u32 < 32) by (bit_vector);
        x = x ^ (a >> b);
        x = x.wrapping_mul(0xa4d94a4f);
        (x as usize) % DICTIONARY_SIZE
    }

    /// Records the cursor in its dictionary slot when a whole batch lies
    /// there.
    fn insert_cursor(&mut self)
        requires
            old(self).dict_wf(),
        ensures
            final(self).input == old(self).input,
            final(self).cur == old(self).cur,
            final(self).dict@.len() == DICTIONARY_SIZE,
            forall|j: int|
                0 <= j < DICTIONARY_SIZE as int ==> (#[trigger] final(self).dict@[j] == old(
                    self,
                ).dict@[j] || (final(self).dict@[j] == old(self).cur && old(self).cur + 4 < old(
                    self,
                ).input@.len())),
    {
        if self.remaining_batch() {
            let h = self.get_cur_hash();
            self.dict[h] = self.cur;
        }
    }

    /// Advances the cursor by `steps`, recording each position it passes.
    /// Returns whether the cursor is still inside the input.
    fn go_forward(&mut self, steps: usize) -> (r: bool)
        requires
            old(self).wf(),
            old(self).cur + steps <= old(self).input@.len(),
        ensures
            final(self).wf(),
            final(self).input == old(self).input,
            final(self).cur == old(self).cur + steps,
            r,
    {
        let ilen = self.input.len();
        assert(ilen == self.input@.len());
        let mut i: usize = 0;
        while i < steps
            invariant
                i <= steps,
                self.wf(),
                self.input == old(self).input,
                ilen == self.input@.len(),
                self.cur == old(self).cur + i,
                old(self).cur + steps <= ilen,
            decreases steps - i,
        {
            self.insert_cursor();
            self.cur = self.cur + 1;
            i = i + 1;
        }
        self.cur <= ilen
    }

    /// Looks for a back-reference at the cursor: a dictionary hit whose
    /// 4-byte signature really matches and whose distance fits in 16 bits,
    /// extended greedily byte by byte.
    fn find_duplicate(&self) -> (r: Option<Duplicate>)
        requires
            self.wf(),
        ensures
            match r {
                Some(d) => {
                    &&& 1 <= d.offset as int <= self.cur as int
                    &&& self.cur + 4 + d.extra_bytes <= self.input@.len()
                    &&& forall|k: int|
                        0 <= k < 4 + d.extra_bytes ==> self.input@[self.cur - d.offset + k]
                            == #[trigger] self.input@[self.cur + k]
                },
                None => true,
            },
    {
        if !self.remaining_batch() {
            return None;
        }
        let ilen = self.input.len();
        assert(ilen == self.input@.len());
        let candidate = self.dict[self.get_cur_hash()];
        if candidate != usize::MAX && self.get_batch(candidate) == self.get_batch_at_cursor()
            && self.cur - candidate <= 0xFFFF {
            proof {
                lemma_batch_injective(
                    self.input@[candidate as int],
                    self.input@[candidate + 1],
                    self.input@[candidate + 2],
                    self.input@[candidate + 3],
                    self.input@[self.cur as int],
                    self.input@[self.cur + 1],
                    self.input@[self.cur + 2],
                    self.input@[self.cur + 3],
                );
            }
            let mut ext: usize = 0;
            while self.cur + 4 + ext < ilen && self.input[self.cur + 4 + ext] == self.input[candidate
                + 4 + ext]
                invariant
                    self.wf(),
                    ilen == self.input@.len(),
                    candidate < self.cur,
                    self.cur + 4 < ilen,
                    self.cur + 4 + ext <= ilen,
                    forall|k: int|
                        0 <= k < 4 + ext ==> self.input@[candidate + k] == #[trigger] self.input@[
                            self.cur + k],
                decreases ilen - self.cur - 4 - ext,
            {
                ext = ext + 1;
            }
            Some(
                Duplicate {
                    offset: (self.cur - candidate) as u16,
                    extra_bytes: ext,
                },
            )
        } else {
            None
        }
    }

    /// Writes a length continuation: as many `0xFF` bytes as fit, then the
    /// remainder.
    fn write_integer(output: &mut Vec<u8>, n: usize)
        ensures
            final(output)@ == old(output)@ + int_bytes(n as nat),
    {
        let mut n = n;
        let ghost n0 = n as nat;
        while n >= 255
            invariant
                old(output)@ + int_bytes(n0) =~= output@ + int_bytes(n as nat),
            decreases n,
        {
            assert(int_bytes(n as nat) =~= seq![255u8] + int_bytes((n - 255) as nat));
            assert(output@ + (seq![255u8] + int_bytes((n - 255) as nat)) =~= output@.push(255u8)
                + int_bytes((n - 255) as nat));
            output.push(255);
            n = n - 255;
        }
        assert(int_bytes(n as nat) =~= seq![n as u8]);
        let ghost pre = output@;
        output.push(n as u8);
        assert(output@ =~= pre + int_bytes(n as nat));
        assert(output@ =~= old(output)@ + int_bytes(n0));
    }

    /// Scans from the cursor: literals until a back-reference is found or
    /// the input ends, then advances past the whole block.
    fn pop_block(&mut self) -> (blk: Block)
        requires
            old(self).wf(),
        ensures
            final(self).wf(),
            final(self).input == old(self).input,
            old(self).cur + blk.lit_len <= final(self).input@.len(),
            match blk.dup {
                None => {
                    &&& final(self).cur == old(self).cur + blk.lit_len
                    &&& final(self).cur == final(self).input@.len()
                },
                Some(d) => {
                    let c = old(self).cur + blk.lit_len;
                    &&& 1 <= d.offset as int <= c
                    &&& c + 4 + d.extra_bytes <= final(self).input@.len()
                    &&& final(self).cur == c + 4 + d.extra_bytes
                    &&& forall|k: int|
                        0 <= k < 4 + d.extra_bytes ==> final(self).input@[c - d.offset + k]
                            == #[trigger] final(self).input@[c + k]
                },
            },
    {
        let ilen = self.input.len();
        assert(ilen == self.input@.len());
        let mut lit: usize = 0;
        loop
            invariant
                self.wf(),
                self.input == old(self).input,
                ilen == self.input@.len(),
                self.cur == old(self).cur + lit,
            decreases ilen - self.cur,
        {
            if let Some(dup) = self.find_duplicate() {
                self.go_forward(dup.extra_bytes + 4);
                return Block { lit_len: lit, dup: Some(dup) };
            }
            if self.cur == ilen {
                return Block { lit_len: lit, dup: None };
            }
            self.go_forward(1);
            lit = lit + 1;
        }
    }

    /// Emits blocks until the input is exhausted; the last block carries no
    /// back-reference and ends the stream.
    #[verifier::rlimit(100)]
    fn complete(&mut self, output: &mut Vec<u8>)
        requires
            old(self).wf(),
            old(self).cur == 0,
        ensures
            final(output)@.len() >= old(output)@.len(),
            final(output)@.subrange(0, old(output)@.len() as int) == old(output)@,
            forall|s: Seq<u8>|
                s.len() + old(self).input@.len() <= usize::MAX ==> #[trigger] decode_stream(
                    final(output)@.skip(old(output)@.len() as int),
                    s,
                ) == DecodeOutcome::Done(s + old(self).input@),
    {
        let ilen = self.input.len();
        assert(ilen == self.input@.len());
        let ghost base = old(output)@.len() as int;
        let ghost inp = self.input@;
        loop
            invariant_except_break
                self.wf(),
                self.input == old(self).input,
                ilen == self.input@.len(),
                inp == self.input@,
                base == old(output)@.len() as int,
                output@.len() >= old(output)@.len(),
                output@.subrange(0, base) == old(output)@,
                forall|rest: Seq<u8>, s: Seq<u8>|
                    s.len() + inp.len() <= usize::MAX ==> #[trigger] decode_stream(
                        output@.skip(base) + rest,
                        s,
                    ) == decode_stream(rest, s + inp.take(self.cur as int)),
            ensures
                output@.len() >= old(output)@.len(),
                output@.subrange(0, base) == old(output)@,
                forall|s: Seq<u8>|
                    s.len() + inp.len() <= usize::MAX ==> #[trigger] decode_stream(
                        output@.skip(base),
                        s,
                    ) == DecodeOutcome::Done(s + inp),
            decreases ilen - self.cur,
        {
            let ghost cur0 = self.cur as int;
            let ghost out_snap = output@;
            let start = self.cur;
            let block = self.pop_block();
            let ghost lits = inp.subrange(start as int, start + block.lit_len);
            let ghost c = cur0 + block.lit_len as int;
            let ext: usize = match block.dup {
                Some(d) => d.extra_bytes,
                None => 0,
            };
            let token: u8 = (if block.lit_len < 15 {
                (block.lit_len as u8) << 4
            } else {
                0xF0
            }) | (if ext < 15 {
                ext as u8
            } else {
                0xF
            });
            proof {
                assert(15u8 << 4 == 0xF0u8) by (bit_vector);
                assert(token == token_byte(lits.len(), ext as nat));
            }
            output.push(token);
            if block.lit_len >= 15 {
                Encoder::write_integer(output, block.lit_len - 15);
            }
            proof {
                assert(output@ =~= out_snap + seq![token] + lit_header(lits.len()));
            }
            let ghost lit_snap = output@;
            let mut j: usize = 0;
            while j < block.lit_len
                invariant
                    j <= block.lit_len,
                    self.wf(),
                    ilen == self.input@.len(),
                    inp == self.input@,
                    start + block.lit_len <= ilen,
                    output@ == lit_snap + inp.subrange(start as int, start + j),
                decreases block.lit_len - j,
            {
                let b = self.input[start + j];
                assert(inp.subrange(start as int, start + j + 1) =~= inp.subrange(
                    start as int,
                    start + j,
                ).push(b));
                output.push(b);
                j = j + 1;
            }
            proof {
                assert(output@ =~= out_snap + (seq![token] + lit_header(lits.len()) + lits));
            }
            match block.dup {
                Some(d) => {
                    output.push((d.offset % 256) as u8);
                    output.push((d.offset / 256) as u8);
                    if ext >= 15 {
                        Encoder::write_integer(output, ext - 15);
                    }
                    proof {
                        let off = d.offset as nat;
                        let bb = dup_block_bytes(lits, off, ext as nat);
                        assert((d.offset % 256) as u8 == (off % 256) as u8 && (d.offset / 256) as u8
                            == (off / 256) as u8);
                        assert(output@ =~= out_snap + bb);
                        assert(output@.skip(base) =~= out_snap.skip(base) + bb);
                        assert(output@.subrange(0, base) =~= out_snap.subrange(0, base));
                        let cur1 = self.cur as int;
                        assert(cur1 == cur0 + block.lit_len + 4 + ext);
                        lemma_step_dup(
                            inp,
                            out_snap.skip(base),
                            cur0,
                            block.lit_len as nat,
                            off,
                            ext as nat,
                        );
                        assert forall|rest: Seq<u8>, s: Seq<u8>| s.len() + inp.len() <= usize::MAX
                            implies #[trigger] decode_stream(output@.skip(base) + rest, s)
                            == decode_stream(rest, s + inp.take(cur1)) by {
                            assert(decode_stream((out_snap.skip(base) + bb) + rest, s)
                                == decode_stream(rest, s + inp.take(cur1)));
                        }
                    }
                },
                None => {
                    proof {
                        let fb = final_block_bytes(lits);
                        assert(output@ =~= out_snap + fb);
                        assert(output@.skip(base) =~= out_snap.skip(base) + fb);
                        assert(output@.subrange(0, base) =~= out_snap.subrange(0, base));
                        assert(c == ilen as int);
                        lemma_step_final(inp, out_snap.skip(base), cur0, block.lit_len as nat);
                        assert forall|s: Seq<u8>| s.len() + inp.len() <= usize::MAX
                            implies #[trigger] decode_stream(output@.skip(base), s)
                            == DecodeOutcome::Done(s + inp) by {
                            assert(decode_stream(out_snap.skip(base) + fb, s)
                                == DecodeOutcome::Done(s + inp));
                        }
                    }
                    break;
                },
            }
        }
    }
}

/// Compresses `input`, appending the token stream to `output`. Decoding the
/// appended stream on top of any prior output yields that output followed
/// by `input`, exactly; `compress` states the plain special case.
pub fn compress_into(input: &[u8], output: &mut Vec<u8>)
    ensures
        final(output)@.len() >= old(output)@.len(),
        final(output)@.subrange(0, old(output)@.len() as int) == old(output)@,
        forall|s: Seq<u8>|
            s.len() + input@.len() <= usize::MAX ==> #[trigger] decode_stream(
                final(output)@.skip(old(output)@.len() as int),
                s,
            ) == DecodeOutcome::Done(s + input@),
{
    let mut dict: Vec<usize> = Vec::new();
    let mut i: usize = 0;
    while i < DICTIONARY_SIZE
        invariant
            i <= DICTIONARY_SIZE,
            dict@.len() == i,
            forall|j: int| 0 <= j < i ==> dict@[j] == usize::MAX,
        decreases DICTIONARY_SIZE - i,
    {
        dict.push(usize::MAX);
        i = i + 1;
    }
    let mut encoder = Encoder { input, cur: 0, dict };
    encoder.complete(output);
}

/// Compresses `input` into a fresh buffer: decoding the result from an
/// empty output yields `input`, exactly.
pub fn compress(input: &[u8]) -> (r: Vec<u8>)
    ensures
        decode_stream(r@, Seq::<u8>::empty()) == DecodeOutcome::Done(input@),
{
    let ilen = input.len();
    assert(ilen == input@.len());
    let mut vec: Vec<u8> = Vec::new();
    compress_into(input, &mut vec);
    proof {
        assert(vec@.skip(0) =~= vec@);
        assert(Seq::<u8>::empty() + input@ =~= input@);
    }
    vec
}

} // verus!
