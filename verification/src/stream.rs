//! The mathematical model of the compressed token stream.
//!
//! A stream is a sequence of blocks. Each block starts with a control byte
//! whose high nibble is the literal-run length and whose low nibble is the
//! match length minus 4; a nibble of 15 means the length continues in a run
//! of `0xFF` bytes terminated by the first smaller byte, all summed. After
//! the control byte (and the literal continuation, if any) come the literal
//! bytes verbatim. A block that carries a back-reference then has a 2-byte
//! little-endian distance and the match continuation, if any; a block with
//! no back-reference ends the stream after its literal run.
//!
//! [`decode_stream`] is the single source of truth for what a stream means:
//! the decoder is proved to return exactly what it says, and the encoder is
//! proved to emit streams that it maps back to the original input.

use vstd::prelude::*;

verus! {

/// What decoding a stream yields: the complete output, or the reason the
/// stream is rejected.
pub enum DecodeOutcome {
    /// The stream was consumed completely; the payload is the whole output,
    /// the decoder's starting output included.
    Done(Seq<u8>),
    /// The stream ended in the middle of a block.
    Truncated,
    /// A back-reference distance is zero or exceeds the output produced so
    /// far.
    BadRef,
    /// The stream demands an output longer than a machine word can address.
    TooBig,
}

/// The encoding of a length continuation: as many `0xFF` bytes as fit into
/// `n`, then the remainder as one byte.
pub open spec fn int_bytes(n: nat) -> Seq<u8>
    decreases n,
{
    if n >= 255 {
        seq![255u8] + int_bytes((n - 255) as nat)
    } else {
        seq![n as u8]
    }
}

/// Reading a length continuation: sum the leading `0xFF` bytes and the first
/// smaller byte. Returns the value and the unread remainder, or `None` when
/// the input ends first.
pub open spec fn read_int(inp: Seq<u8>) -> Option<(nat, Seq<u8>)>
    decreases inp.len(),
{
    if inp.len() == 0 {
        None
    } else if inp[0] == 255 {
        match read_int(inp.skip(1)) {
            Some(p) => Some(((p.0 + 255) as nat, p.1)),
            None => None,
        }
    } else {
        Some((inp[0] as nat, inp.skip(1)))
    }
}

/// Reading a continuation consumes at least one byte.
pub proof fn lemma_read_int_shrinks(inp: Seq<u8>)
    ensures
        read_int(inp) matches Some(p) ==> p.1.len() < inp.len(),
    decreases inp.len(),
{
    if inp.len() > 0 && inp[0] == 255 {
        lemma_read_int_shrinks(inp.skip(1));
    }
}

/// Reading back what `int_bytes` wrote yields the value and leaves the tail.
pub proof fn lemma_read_int_bytes(n: nat, tail: Seq<u8>)
    ensures
        read_int(int_bytes(n) + tail) == Some((n, tail)),
    decreases n,
{
    if n >= 255 {
        assert((seq![255u8] + int_bytes((n - 255) as nat) + tail).skip(1) =~= int_bytes(
            (n - 255) as nat,
        ) + tail);
        lemma_read_int_bytes((n - 255) as nat, tail);
    } else {
        assert((seq![n as u8] + tail).skip(1) =~= tail);
    }
}

/// A back-reference copy: append `m` bytes one at a time, each read from
/// `start` onward, so that the copied region may overlap what this very copy
/// appends.
pub open spec fn dup_bytes(out: Seq<u8>, start: int, m: nat) -> Seq<u8>
    decreases m,
{
    if m == 0 {
        out
    } else {
        dup_bytes(out.push(out[start]), start + 1, (m - 1) as nat)
    }
}

pub proof fn lemma_dup_bytes_len(out: Seq<u8>, start: int, m: nat)
    ensures
        dup_bytes(out, start, m).len() == out.len() + m,
    decreases m,
{
    if m > 0 {
        lemma_dup_bytes_len(out.push(out[start]), start + 1, (m - 1) as nat);
    }
}

/// When the output so far is a prefix of `full` and the match region of
/// `full` repeats at the cursor, the overlapping copy reproduces the next
/// `m` bytes of `full`. This is the heart of the round trip: it is exactly
/// why a distance smaller than the match length expands a run.
pub proof fn lemma_dup_copies_match(out: Seq<u8>, start: int, m: nat, full: Seq<u8>)
    requires
        0 <= start < out.len(),
        out.len() + m <= full.len(),
        out =~= full.take(out.len() as int),
        forall|k: int| 0 <= k < m ==> full[start + k] == #[trigger] full[out.len() + k],
    ensures
        dup_bytes(out, start, m) =~= full.take((out.len() + m) as int),
    decreases m,
{
    if m > 0 {
        let out2 = out.push(out[start]);
        assert(out[start] == full[start]);
        assert(full[start + 0] == full[out.len() as int + 0]);
        assert(full[start] == full[out.len() as int]);
        assert(out2 =~= full.take(out2.len() as int));
        assert forall|k: int| 0 <= k < m - 1 implies full[start + 1 + k] == #[trigger] full[out2.len()
            + k] by {
            assert(full[start + (k + 1)] == full[out.len() + (k + 1)]);
        }
        lemma_dup_copies_match(out2, start + 1, (m - 1) as nat, full);
    }
}

/// The literal-run length of a block: the control byte's high nibble,
/// extended by a continuation when the nibble is 15.
pub open spec fn lit_parse(token: u8, body: Seq<u8>) -> Option<(nat, Seq<u8>)> {
    if token >> 4 == 15 {
        match read_int(body) {
            Some(p) => Some((((p.0 + 15) as nat), p.1)),
            None => None,
        }
    } else {
        Some(((token >> 4) as nat, body))
    }
}

/// The match length of a block: 4 plus the control byte's low nibble,
/// extended by a continuation when the nibble is 15.
pub open spec fn match_parse(token: u8, rest: Seq<u8>) -> Option<(nat, Seq<u8>)> {
    if token & 0xF == 15 {
        match read_int(rest) {
            Some(p) => Some((((p.0 + 19) as nat), p.1)),
            None => None,
        }
    } else {
        Some((((token & 0xF) + 4) as nat, rest))
    }
}

/// The back-reference distance: two bytes, little-endian.
pub open spec fn offset_of(rest: Seq<u8>) -> nat {
    rest[0] as nat + 256 * (rest[1] as nat)
}

/// The meaning of a token stream `inp`, decoded on top of the bytes `out`
/// already produced. Mirrors the decoder exactly: literal run first, then
/// either end of stream or a back-reference copy.
pub open spec fn decode_stream(inp: Seq<u8>, out: Seq<u8>) -> DecodeOutcome
    decreases inp.len(),
    via decode_stream_decreases
{
    if inp.len() == 0 {
        DecodeOutcome::Done(out)
    } else {
        let token = inp[0];
        let body = inp.skip(1);
        match lit_parse(token, body) {
            None => DecodeOutcome::Truncated,
            Some(lp) => {
                let lit = lp.0;
                let rest = lp.1;
                if rest.len() < lit {
                    DecodeOutcome::Truncated
                } else if out.len() + lit > usize::MAX {
                    DecodeOutcome::TooBig
                } else {
                    let out2 = out + rest.take(lit as int);
                    let rest2 = rest.skip(lit as int);
                    if rest2.len() == 0 {
                        DecodeOutcome::Done(out2)
                    } else if rest2.len() < 2 {
                        DecodeOutcome::Truncated
                    } else {
                        let offset = offset_of(rest2);
                        let rest3 = rest2.skip(2);
                        match match_parse(token, rest3) {
                            None => DecodeOutcome::Truncated,
                            Some(mpp) => {
                                let mlen = mpp.0;
                                let rest4 = mpp.1;
                                if offset == 0 || offset > out2.len() {
                                    DecodeOutcome::BadRef
                                } else if out2.len() + mlen > usize::MAX {
                                    DecodeOutcome::TooBig
                                } else {
                                    decode_stream(
                                        rest4,
                                        dup_bytes(out2, out2.len() - offset, mlen),
                                    )
                                }
                            },
                        }
                    }
                }
            },
        }
    }
}

/// A length nibble: the value itself below 15, else the escape value 15.
pub open spec fn nib(n: nat) -> u8 {
    if n < 15 {
        n as u8
    } else {
        15u8
    }
}

/// The control byte of a block with `lit` literal bytes and `ext` match
/// bytes beyond the minimum of 4.
pub open spec fn token_byte(lit: nat, ext: nat) -> u8 {
    (nib(lit) << 4) | nib(ext)
}

/// The literal-length continuation that follows the control byte.
pub open spec fn lit_header(lit: nat) -> Seq<u8> {
    if lit < 15 {
        Seq::empty()
    } else {
        int_bytes((lit - 15) as nat)
    }
}

/// The match-length continuation that follows the distance.
pub open spec fn match_header(ext: nat) -> Seq<u8> {
    if ext < 15 {
        Seq::empty()
    } else {
        int_bytes((ext - 15) as nat)
    }
}

/// The bytes of one block that carries a back-reference of distance
/// `offset` and length `4 + ext` after `lits` literal bytes.
pub open spec fn dup_block_bytes(lits: Seq<u8>, offset: nat, ext: nat) -> Seq<u8> {
    seq![token_byte(lits.len(), ext)] + lit_header(lits.len()) + lits + seq![
        (offset % 256) as u8,
        (offset / 256) as u8,
    ] + match_header(ext)
}

/// The bytes of the terminal block: literals only, no back-reference.
pub open spec fn final_block_bytes(lits: Seq<u8>) -> Seq<u8> {
    seq![token_byte(lits.len(), 0)] + lit_header(lits.len()) + lits
}

proof fn lemma_token_nibbles(a: u8, b: u8)
    requires
        a <= 15,
        b <= 15,
    ensures
        ((a << 4) | b) >> 4 == a,
        ((a << 4) | b) & 0xF == b,
{
    assert((((a << 4) | b) >> 4 == a) && (((a << 4) | b) & 0xF == b)) by (bit_vector)
        requires
            a <= 15 && b <= 15,
    ;
}

/// Decoding a back-reference block performs exactly its literal append and
/// its overlapping copy, then goes on with the rest of the stream.
pub proof fn lemma_decode_dup_block(lits: Seq<u8>, offset: nat, ext: nat, rest: Seq<u8>, out: Seq<u8>)
    requires
        1 <= offset <= out.len() + lits.len(),
        offset <= 0xFFFF,
        out.len() + lits.len() + 4 + ext <= usize::MAX,
    ensures
        decode_stream(dup_block_bytes(lits, offset, ext) + rest, out) == decode_stream(
            rest,
            dup_bytes(
                out + lits,
                (out.len() + lits.len() - offset) as int,
                (4 + ext) as nat,
            ),
        ),
{
    let lit = lits.len();
    let tok = token_byte(lit, ext);
    let tail1 = lits + seq![(offset % 256) as u8, (offset / 256) as u8] + match_header(ext) + rest;
    let inp = dup_block_bytes(lits, offset, ext) + rest;
    assert(inp[0] == tok);
    assert(inp.skip(1) =~= lit_header(lit) + tail1);
    lemma_token_nibbles(nib(lit), nib(ext));
    if lit < 15 {
        assert(lit_header(lit) + tail1 =~= tail1);
        assert(lit_parse(tok, inp.skip(1)) == Some((lit, tail1)));
    } else {
        lemma_read_int_bytes((lit - 15) as nat, tail1);
        assert(lit_parse(tok, inp.skip(1)) == Some((lit, tail1)));
    }
    assert(tail1.take(lit as int) =~= lits);
    let rest2 = tail1.skip(lit as int);
    assert(rest2 =~= seq![(offset % 256) as u8, (offset / 256) as u8] + match_header(ext) + rest);
    let out2 = out + lits;
    assert(rest2.len() >= 2);
    assert(rest2[0] == (offset % 256) as u8 && rest2[1] == (offset / 256) as u8);
    assert(offset / 256 <= 255) by {
        assert(offset <= 0xFFFF);
    }
    vstd::arithmetic::div_mod::lemma_fundamental_div_mod(offset as int, 256);
    assert(offset_of(rest2) == offset);
    let rest3 = rest2.skip(2);
    assert(rest3 =~= match_header(ext) + rest);
    if ext < 15 {
        assert(match_header(ext) + rest =~= rest);
        assert(match_parse(tok, rest3) == Some(((4 + ext) as nat, rest)));
    } else {
        lemma_read_int_bytes((ext - 15) as nat, rest);
        assert(match_parse(tok, rest3) == Some(((4 + ext) as nat, rest)));
    }
    assert(decode_stream(inp, out) == decode_stream(
        rest,
        dup_bytes(out2, out2.len() - offset, (4 + ext) as nat),
    ));
}

/// Decoding the terminal block appends its literals and ends the stream.
pub proof fn lemma_decode_final_block(lits: Seq<u8>, out: Seq<u8>)
    requires
        out.len() + lits.len() <= usize::MAX,
    ensures
        decode_stream(final_block_bytes(lits), out) == DecodeOutcome::Done(out + lits),
{
    let lit = lits.len();
    let tok = token_byte(lit, 0);
    let inp = final_block_bytes(lits);
    assert(inp[0] == tok);
    assert(inp.skip(1) =~= lit_header(lit) + lits);
    lemma_token_nibbles(nib(lit), nib(0));
    if lit < 15 {
        assert(lit_header(lit) + lits =~= lits);
        assert(lit_parse(tok, inp.skip(1)) == Some((lit, lits)));
    } else {
        lemma_read_int_bytes((lit - 15) as nat, lits);
        assert(lit_parse(tok, inp.skip(1)) == Some((lit, lits)));
    }
    assert(lits.take(lit as int) =~= lits);
    assert(lits.skip(lit as int) =~= Seq::<u8>::empty());
}

#[via_fn]
proof fn decode_stream_decreases(inp: Seq<u8>, out: Seq<u8>) {
    if inp.len() > 0 {
        let body = inp.skip(1);
        lemma_read_int_shrinks(body);
        let litp = if inp[0] >> 4 == 15 {
            match read_int(body) {
                Some(p) => Some((((p.0 + 15) as nat), p.1)),
                None => None,
            }
        } else {
            Some(((inp[0] >> 4) as nat, body))
        };
        match litp {
            None => {},
            Some(lp) => {
                let rest2 = lp.1.skip(lp.0 as int);
                if lp.1.len() >= lp.0 && rest2.len() >= 2 {
                    lemma_read_int_shrinks(rest2.skip(2));
                }
            },
        }
    }
}

} // verus!
