//! The token-stream decoder: the exact inverse of the compressor.

use vstd::prelude::*;

use crate::errors::BundleError;
use crate::stream::{
    decode_stream, dup_bytes, lemma_dup_bytes_len, lit_parse, match_parse, offset_of, read_int,
    DecodeOutcome,
};

verus! {

struct Decoder<'a> {
    input: &'a [u8],
    pos: usize,
}

impl<'a> Decoder<'a> {
    spec fn wf(self) -> bool {
        self.pos <= self.input@.len()
    }

    /// The unread part of the stream.
    spec fn remaining(self) -> Seq<u8> {
        self.input@.skip(self.pos as int)
    }

    /// Reads one length continuation: sums the leading `0xFF` bytes and the
    /// first smaller byte. `None` when the input ends first.
    fn read_integer(&mut self) -> (r: Option<u128>)
        requires
            old(self).wf(),
        ensures
            final(self).wf(),
            final(self).input == old(self).input,
            old(self).pos <= final(self).pos,
            match r {
                Some(v) => read_int(old(self).remaining()) == Some((v as nat, final(self).remaining()))
                    && v <= 255 * (usize::MAX as u128),
                None => read_int(old(self).remaining()) is None,
            },
    {
        let ilen = self.input.len();
        assert(ilen == self.input@.len());
        let mut acc: u128 = 0;
        loop
            invariant
                self.wf(),
                self.input == old(self).input,
                old(self).pos <= self.pos,
                acc <= 255 * ((self.pos - old(self).pos) as u128),
                ilen == self.input@.len(),
                match read_int(self.remaining()) {
                    Some(p) => read_int(old(self).remaining()) == Some(
                        ((p.0 + acc) as nat, p.1),
                    ),
                    None => read_int(old(self).remaining()) is None,
                },
            decreases self.input@.len() - self.pos,
        {
            if self.pos >= self.input.len() {
                return None;
            }
            let b = self.input[self.pos];
            let ghost rem = self.remaining();
            assert(rem[0] == b);
            assert(rem.skip(1) =~= self.input@.skip(self.pos + 1));
            proof {
                vstd::arithmetic::mul::lemma_mul_inequality(
                    (self.pos - old(self).pos) as int,
                    usize::MAX as int,
                    255,
                );
                vstd::arithmetic::mul::lemma_mul_inequality(
                    usize::MAX as int,
                    0xFFFF_FFFF_FFFF_FFFF,
                    255,
                );
            }
            self.pos = self.pos + 1;
            acc = acc + b as u128;
            proof {
                vstd::arithmetic::mul::lemma_mul_inequality(
                    (self.pos - old(self).pos) as int,
                    usize::MAX as int,
                    255,
                );
            }
            if b != 255 {
                return Some(acc);
            }
        }
    }

    /// Copies `m` bytes starting `offset` back from the end of `output`,
    /// one byte at a time, so that the copy may feed on itself.
    fn duplicate(&self, output: &mut Vec<u8>, offset: usize, m: usize)
        requires
            1 <= offset <= old(output)@.len(),
            old(output)@.len() + m <= usize::MAX,
        ensures
            final(output)@ == dup_bytes(old(output)@, old(output)@.len() - offset, m as nat),
    {
        let start = output.len() - offset;
        let ghost out0 = output@;
        let mut k: usize = 0;
        while k < m
            invariant
                k <= m,
                start == out0.len() - offset,
                1 <= offset <= out0.len(),
                out0.len() + m <= usize::MAX,
                output@.len() == out0.len() + k,
                dup_bytes(out0, start as int, m as nat) == dup_bytes(
                    output@,
                    start + k,
                    (m - k) as nat,
                ),
            decreases m - k,
        {
            proof {
                lemma_dup_bytes_len(output@, start + k, (m - k) as nat);
            }
            let b = output[start + k];
            output.push(b);
            k = k + 1;
        }
        proof {
            lemma_dup_bytes_len(out0, start as int, m as nat);
        }
    }

    /// Reads the literal run of one block (length, then the bytes) and
    /// appends it to `output`.
    fn read_literal_section(&mut self, output: &mut Vec<u8>, token: u8) -> (r: Result<
        (),
        BundleError,
    >)
        requires
            old(self).wf(),
        ensures
            final(self).wf(),
            final(self).input == old(self).input,
            old(self).pos <= final(self).pos,
            ({
                let lpo = lit_parse(token, old(self).remaining());
                match r {
                    Ok(()) => ({
                        &&& lpo matches Some(lp)
                        &&& lp.1.len() >= lp.0
                        &&& old(output)@.len() + lp.0 <= usize::MAX
                        &&& final(output)@ == old(output)@ + lp.1.take(lp.0 as int)
                        &&& final(self).remaining() == lp.1.skip(lp.0 as int)
                    }),
                    Err(e) => {
                        &&& e == BundleError::Format
                        &&& final(output)@ == old(output)@
                        &&& (lpo is None || (lpo matches Some(lp) && (lp.1.len() < lp.0 || old(
                            output,
                        )@.len() + lp.0 > usize::MAX)))
                    },
                }
            }),
    {
        let ilen = self.input.len();
        assert(ilen == self.input@.len());
        let lit_nib = token >> 4;
        let lit_u: u128 = if lit_nib == 15 {
            match self.read_integer() {
                Some(v) => {
                    proof {
                        vstd::arithmetic::mul::lemma_mul_inequality(
                            usize::MAX as int,
                            0xFFFF_FFFF_FFFF_FFFF,
                            255,
                        );
                    }
                    v + 15
                },
                None => {
                    return Err(BundleError::Format);
                },
            }
        } else {
            lit_nib as u128
        };
        assert(lit_parse(token, old(self).remaining()) == Some((lit_u as nat, self.remaining())));
        let rem_len = ilen - self.pos;
        if lit_u > rem_len as u128 {
            return Err(BundleError::Format);
        }
        if lit_u > (usize::MAX - output.len()) as u128 {
            return Err(BundleError::Format);
        }
        let lit = lit_u as usize;
        let ghost rest = self.remaining();
        let ghost out0 = output@;
        let mut j: usize = 0;
        while j < lit
            invariant
                j <= lit,
                self.wf(),
                ilen == self.input@.len(),
                self.pos + lit <= ilen,
                output@ == out0 + self.input@.subrange(self.pos as int, self.pos + j),
            decreases lit - j,
        {
            let b = self.input[self.pos + j];
            assert(self.input@.subrange(self.pos as int, self.pos + j + 1) =~= self.input@.subrange(
                self.pos as int,
                self.pos + j,
            ).push(b));
            output.push(b);
            j = j + 1;
        }
        assert(self.input@.subrange(self.pos as int, self.pos + lit) =~= rest.take(lit as int));
        self.pos = self.pos + lit;
        assert(self.remaining() =~= rest.skip(lit as int));
        Ok(())
    }

    /// Reads the back-reference of one block (distance, then match length)
    /// and performs the overlapping copy.
    fn read_duplicate_section(&mut self, output: &mut Vec<u8>, token: u8) -> (r: Result<
        (),
        BundleError,
    >)
        requires
            old(self).wf(),
            old(self).remaining().len() >= 1,
        ensures
            final(self).wf(),
            final(self).input == old(self).input,
            old(self).pos <= final(self).pos,
            ({
                let rem0 = old(self).remaining();
                match r {
                    Ok(()) => rem0.len() >= 2 && ({
                        let offset = offset_of(rem0);
                        let mpo = match_parse(token, rem0.skip(2));
                        &&& mpo matches Some(mp)
                        &&& 1 <= offset <= old(output)@.len()
                        &&& old(output)@.len() + mp.0 <= usize::MAX
                        &&& final(output)@ == dup_bytes(
                            old(output)@,
                            old(output)@.len() - offset,
                            mp.0,
                        )
                        &&& final(self).remaining() == mp.1
                    }),
                    Err(e) => final(output)@ == old(output)@ && (if rem0.len() < 2 {
                        e == BundleError::Format
                    } else {
                        let offset = offset_of(rem0);
                        let mpo = match_parse(token, rem0.skip(2));
                        match mpo {
                            None => e == BundleError::Format,
                            Some(mp) => {
                                if offset == 0 || offset > old(output)@.len() {
                                    e == BundleError::Backreference
                                } else {
                                    e == BundleError::Format && old(output)@.len() + mp.0
                                        > usize::MAX
                                }
                            },
                        }
                    }),
                }
            }),
    {
        let ilen = self.input.len();
        assert(ilen == self.input@.len());
        if ilen - self.pos < 2 {
            return Err(BundleError::Format);
        }
        let ghost rem0 = self.remaining();
        let lo = self.input[self.pos];
        let hi = self.input[self.pos + 1];
        assert(rem0[0] == lo && rem0[1] == hi);
        self.pos = self.pos + 2;
        assert(self.remaining() =~= rem0.skip(2));
        let offset: usize = lo as usize + 256 * (hi as usize);
        let m_nib = token & 0xF;
        let m_u: u128 = if m_nib == 15 {
            match self.read_integer() {
                Some(v) => {
                    proof {
                        vstd::arithmetic::mul::lemma_mul_inequality(
                            usize::MAX as int,
                            0xFFFF_FFFF_FFFF_FFFF,
                            255,
                        );
                    }
                    v + 19
                },
                None => {
                    return Err(BundleError::Format);
                },
            }
        } else {
            m_nib as u128 + 4
        };
        assert(match_parse(token, rem0.skip(2)) == Some((m_u as nat, self.remaining())));
        if offset == 0 || offset > output.len() {
            return Err(BundleError::Backreference);
        }
        if m_u > (usize::MAX - output.len()) as u128 {
            return Err(BundleError::Format);
        }
        let m = m_u as usize;
        self.duplicate(output, offset, m);
        Ok(())
    }

    /// Decodes blocks until the stream ends: literal section, then either
    /// end of stream or a back-reference.
    fn complete(&mut self, output: &mut Vec<u8>) -> (r: Result<(), BundleError>)
        requires
            old(self).wf(),
        ensures
            ({
                let outcome = decode_stream(old(self).remaining(), old(output)@);
                match r {
                    Ok(()) => outcome == DecodeOutcome::Done(final(output)@),
                    Err(BundleError::Format) => outcome is Truncated || outcome is TooBig,
                    Err(BundleError::Backreference) => outcome is BadRef,
                    Err(_) => false,
                }
            }),
    {
        loop
            invariant
                self.wf(),
                decode_stream(old(self).remaining(), old(output)@) == decode_stream(
                    self.remaining(),
                    output@,
                ),
            decreases self.input@.len() - self.pos,
        {
            if self.pos >= self.input.len() {
                assert(self.remaining() =~= Seq::<u8>::empty());
                return Ok(());
            }
            let ghost rem0 = self.remaining();
            let ghost out0 = output@;
            let token = self.input[self.pos];
            assert(rem0[0] == token);
            self.pos = self.pos + 1;
            assert(self.remaining() =~= rem0.skip(1));
            match self.read_literal_section(output, token) {
                Ok(()) => {},
                Err(e) => {
                    return Err(e);
                },
            }
            if self.pos >= self.input.len() {
                assert(self.remaining() =~= Seq::<u8>::empty());
                return Ok(());
            }
            match self.read_duplicate_section(output, token) {
                Ok(()) => {},
                Err(e) => {
                    return Err(e);
                },
            }
        }
    }
}

/// Decompresses `input`, appending the decoded bytes to `output`.
/// Back-references may reach into bytes that `output` already held.
///
/// Returns `Format` when the stream is truncated or demands an output
/// longer than a machine word can address, and `Backreference` when a
/// distance points before the start of `output`.
pub fn decompress_into(input: &[u8], output: &mut Vec<u8>) -> (r: Result<(), BundleError>)
    ensures
        ({
            let outcome = decode_stream(input@, old(output)@);
            match r {
                Ok(()) => outcome == DecodeOutcome::Done(final(output)@),
                Err(BundleError::Format) => outcome is Truncated || outcome is TooBig,
                Err(BundleError::Backreference) => outcome is BadRef,
                Err(_) => false,
            }
        }),
{
    let mut decoder = Decoder { input, pos: 0 };
    assert(decoder.remaining() =~= input@);
    decoder.complete(output)
}

/// Decompresses `input` into a fresh buffer: the exact inverse of
/// `compress`, with the same error behaviour as `decompress_into`.
pub fn decompress(input: &[u8]) -> (r: Result<Vec<u8>, BundleError>)
    ensures
        ({
            let outcome = decode_stream(input@, Seq::<u8>::empty());
            match r {
                Ok(v) => outcome == DecodeOutcome::Done(v@),
                Err(BundleError::Format) => outcome is Truncated || outcome is TooBig,
                Err(BundleError::Backreference) => outcome is BadRef,
                Err(_) => false,
            }
        }),
{
    let mut vec: Vec<u8> = Vec::new();
    match decompress_into(input, &mut vec) {
        Ok(()) => Ok(vec),
        Err(e) => Err(e),
    }
}

} // verus!
