//! Zero-run-length byte codec.
//!
//! A buffer is compressed by copying non-zero bytes verbatim and replacing
//! each maximal run of zero bytes by a pair `(0, count)` with `1 <= count <= 255`;
//! runs longer than 255 are flushed in chunks of 255.  The byte value `0` is
//! reserved as the run marker, so a decoded buffer uses `0` only as filler.

use vstd::prelude::*;

verus! {

/// A run of `count` zero bytes.
pub open spec fn zero_run(count: nat) -> Seq<u8> {
    Seq::new(count, |i: int| 0u8)
}

/// The compressed form of `s` from position `i` on, with `run` zeros already
/// pending (the encoder is a two-state machine: `run == 0` means it is copying
/// literals, `run > 0` means it is counting a zero run).
pub open spec fn rle_encode_from(s: Seq<u8>, i: int, run: nat) -> Seq<u8>
    decreases s.len() - i,
{
    if i < 0 || i >= s.len() {
        if run > 0 {
            seq![0u8, run as u8]
        } else {
            Seq::empty()
        }
    } else if s[i] == 0u8 {
        if run + 1 == 255 {
            seq![0u8, 255u8] + rle_encode_from(s, i + 1, 0)
        } else {
            rle_encode_from(s, i + 1, run + 1)
        }
    } else {
        if run > 0 {
            seq![0u8, run as u8, s[i]] + rle_encode_from(s, i + 1, 0)
        } else {
            seq![s[i]] + rle_encode_from(s, i + 1, 0)
        }
    }
}

/// The compressed form of a whole buffer.
pub open spec fn rle_encode(s: Seq<u8>) -> Seq<u8> {
    rle_encode_from(s, 0, 0)
}

/// The decoded form of a compressed stream, or `None` where the stream is
/// malformed: a marker byte `0` must be followed by exactly one count byte
/// `1..=255`, never by another `0` and never by the end of the stream.
pub open spec fn rle_decode(t: Seq<u8>) -> Option<Seq<u8>>
    decreases t.len(),
{
    if t.len() == 0 {
        Some(Seq::empty())
    } else if t[0] == 0u8 {
        if t.len() >= 2 && t[1] != 0u8 {
            match rle_decode(t.subrange(2, t.len() as int)) {
                Some(rest) => Some(zero_run(t[1] as nat) + rest),
                None => None,
            }
        } else {
            None
        }
    } else {
        match rle_decode(t.subrange(1, t.len() as int)) {
            Some(rest) => Some(seq![t[0]] + rest),
            None => None,
        }
    }
}

/// Decoding failure: the stream held a run marker with no valid count byte.
#[derive(Debug, PartialEq, Eq, Structural, Clone, Copy)]
pub enum CodecError {
    MalformedStream,
}

/// An RLE-compressed byte stream.
pub struct CompressedBytes {
    bytes: Vec<u8>,
}

impl CompressedBytes {
    /// The raw bytes of the stream.
    pub closed spec fn stream(&self) -> Seq<u8> {
        self.bytes@
    }

    /// Wraps bytes that are already in compressed form.
    pub fn from_compressed(stream: &[u8]) -> (r: Self)
        ensures
            r.stream() == stream@,
    {
        CompressedBytes { bytes: vstd::slice::slice_to_vec(stream) }
    }

    /// Compresses a raw buffer.
    pub fn from_uncompressed(buffer: &[u8]) -> (r: Self)
        ensures
            r.stream() == rle_encode(buffer@),
    {
        let ghost s = buffer@;
        let mut out: Vec<u8> = Vec::new();
        let mut run: u8 = 0;
        let mut i: usize = 0;
        while i < buffer.len()
            invariant
                0 <= i <= s.len(),
                s == buffer@,
                run <= 254,
                rle_encode(s) == out@ + rle_encode_from(s, i as int, run as nat),
            decreases s.len() - i,
        {
            let b = buffer[i];
            let ghost out0 = out@;
            let ghost run0 = run as nat;
            if b == 0 {
                if run == 254 {
                    out.push(0);
                    out.push(255);
                    run = 0;
                    proof {
                        assert(rle_encode_from(s, i as int, run0) == seq![0u8, 255u8]
                            + rle_encode_from(s, i + 1, 0));
                        assert(out@ + rle_encode_from(s, i + 1, 0) =~= out0
                            + rle_encode_from(s, i as int, run0));
                    }
                } else {
                    run = run + 1;
                    proof {
                        assert(rle_encode_from(s, i as int, run0) == rle_encode_from(
                            s,
                            i + 1,
                            run0 + 1,
                        ));
                    }
                }
            } else {
                if run > 0 {
                    out.push(0);
                    out.push(run);
                    out.push(b);
                    run = 0;
                    proof {
                        assert(rle_encode_from(s, i as int, run0) == seq![
                            0u8,
                            run0 as u8,
                            s[i as int],
                        ] + rle_encode_from(s, i + 1, 0));
                        assert(out@ + rle_encode_from(s, i + 1, 0) =~= out0
                            + rle_encode_from(s, i as int, run0));
                    }
                } else {
                    out.push(b);
                    proof {
                        assert(rle_encode_from(s, i as int, 0) == seq![s[i as int]]
                            + rle_encode_from(s, i + 1, 0));
                        assert(out@ + rle_encode_from(s, i + 1, 0) =~= out0
                            + rle_encode_from(s, i as int, run0));
                    }
                }
            }
            i = i + 1;
        }
        let ghost out0 = out@;
        let ghost run0 = run as nat;
        if run > 0 {
            out.push(0);
            out.push(run);
            proof {
                assert(rle_encode_from(s, s.len() as int, run0) == seq![0u8, run0 as u8]);
                assert(out@ =~= out0 + rle_encode_from(s, s.len() as int, run0));
            }
        } else {
            proof {
                assert(rle_encode_from(s, s.len() as int, 0) == Seq::<u8>::empty());
                assert(out@ =~= out0 + rle_encode_from(s, s.len() as int, 0));
            }
        }
        CompressedBytes { bytes: out }
    }

    /// Decompresses the stream, or reports that it is malformed.
    pub fn to_uncompressed(&self) -> (r: Result<Vec<u8>, CodecError>)
        ensures
            match r {
                Ok(v) => rle_decode(self.stream()) == Some(v@),
                Err(_) => rle_decode(self.stream()) is None,
            },
    {
        let ghost t = self.bytes@;
        let mut out: Vec<u8> = Vec::new();
        let mut i: usize = 0;
        proof {
            assert(t.subrange(0, t.len() as int) =~= t);
            if rle_decode(t) is Some {
                assert(Seq::<u8>::empty() + rle_decode(t)->Some_0 =~= rle_decode(t)->Some_0);
            }
        }
        while i < self.bytes.len()
            invariant
                0 <= i <= t.len(),
                t == self.bytes@,
                rle_decode(t) == match rle_decode(t.subrange(i as int, t.len() as int)) {
                    Some(rest) => Some(out@ + rest),
                    None => None::<Seq<u8>>,
                },
            decreases t.len() - i,
        {
            let ghost rem = t.subrange(i as int, t.len() as int);
            let b = self.bytes[i];
            if b == 0 {
                if i + 1 >= self.bytes.len() || self.bytes[i + 1] == 0 {
                    proof {
                        assert(rle_decode(rem) is None);
                    }
                    return Err(CodecError::MalformedStream);
                }
                let count = self.bytes[i + 1];
                let ghost out0 = out@;
                push_zeros(&mut out, count);
                i = i + 2;
                proof {
                    let rem2 = t.subrange(i as int, t.len() as int);
                    assert(rem.subrange(2, rem.len() as int) =~= rem2);
                    assert(rle_decode(rem) == match rle_decode(rem2) {
                        Some(rest) => Some(zero_run(count as nat) + rest),
                        None => None::<Seq<u8>>,
                    });
                    if rle_decode(rem2) is Some {
                        let rest = rle_decode(rem2)->Some_0;
                        assert(out@ + rest =~= out0 + (zero_run(count as nat) + rest));
                    }
                }
            } else {
                let ghost out0 = out@;
                out.push(b);
                i = i + 1;
                proof {
                    let rem2 = t.subrange(i as int, t.len() as int);
                    assert(rem.subrange(1, rem.len() as int) =~= rem2);
                    assert(rle_decode(rem) == match rle_decode(rem2) {
                        Some(rest) => Some(seq![b] + rest),
                        None => None::<Seq<u8>>,
                    });
                    if rle_decode(rem2) is Some {
                        let rest = rle_decode(rem2)->Some_0;
                        assert(out@ + rest =~= out0 + (seq![b] + rest));
                    }
                }
            }
        }
        proof {
            assert(t.subrange(t.len() as int, t.len() as int) =~= Seq::<u8>::empty());
            assert(rle_decode(Seq::<u8>::empty()) == Some(Seq::<u8>::empty()));
            assert(out@ + Seq::<u8>::empty() =~= out@);
        }
        Ok(out)
    }

    /// The raw compressed bytes.
    pub fn bytes(&self) -> (r: &Vec<u8>)
        ensures
            r@ == self.stream(),
    {
        &self.bytes
    }
}

proof fn lemma_rle_round_trip_from(s: Seq<u8>, i: int, run: nat)
    requires
        0 <= i <= s.len(),
        run <= 254,
    ensures
        rle_decode(rle_encode_from(s, i, run)) == Some(
            zero_run(run) + s.subrange(i, s.len() as int),
        ),
    decreases s.len() - i,
{
    let tail = s.subrange(i, s.len() as int);
    if i >= s.len() {
        if run > 0 {
            let enc = seq![0u8, run as u8];
            assert(enc.subrange(2, 2) =~= Seq::<u8>::empty());
            assert(rle_decode(enc) == Some(zero_run(run) + Seq::<u8>::empty()));
            assert(zero_run(run) + Seq::<u8>::empty() =~= zero_run(run) + tail);
        } else {
            assert(zero_run(0) + tail =~= Seq::<u8>::empty());
        }
    } else if s[i] == 0u8 {
        if run + 1 == 255 {
            lemma_rle_round_trip_from(s, i + 1, 0);
            let rest = rle_encode_from(s, i + 1, 0);
            let enc = seq![0u8, 255u8] + rest;
            assert(enc.subrange(2, enc.len() as int) =~= rest);
            let dec_rest = zero_run(0) + s.subrange(i + 1, s.len() as int);
            assert(rle_decode(enc) == Some(zero_run(255) + dec_rest));
            assert(zero_run(255) + dec_rest =~= zero_run(run) + tail);
        } else {
            lemma_rle_round_trip_from(s, i + 1, run + 1);
            assert(rle_encode_from(s, i, run) == rle_encode_from(s, i + 1, run + 1));
            assert(zero_run(run + 1) + s.subrange(i + 1, s.len() as int) =~= zero_run(run) + tail);
        }
    } else {
        lemma_rle_round_trip_from(s, i + 1, 0);
        let rest = rle_encode_from(s, i + 1, 0);
        let dec_rest = zero_run(0) + s.subrange(i + 1, s.len() as int);
        assert(dec_rest =~= s.subrange(i + 1, s.len() as int));
        if run > 0 {
            let enc = seq![0u8, run as u8, s[i]] + rest;
            let mid = seq![s[i]] + rest;
            assert(enc.subrange(2, enc.len() as int) =~= mid);
            assert(mid.subrange(1, mid.len() as int) =~= rest);
            assert(rle_decode(mid) == Some(seq![s[i]] + dec_rest));
            assert(rle_decode(enc) == Some(zero_run(run) + (seq![s[i]] + dec_rest)));
            assert(zero_run(run) + (seq![s[i]] + dec_rest) =~= zero_run(run) + tail);
        } else {
            let enc = seq![s[i]] + rest;
            assert(enc.subrange(1, enc.len() as int) =~= rest);
            assert(rle_decode(enc) == Some(seq![s[i]] + dec_rest));
            assert(seq![s[i]] + dec_rest =~= zero_run(0) + tail);
        }
    }
}

/// Round trip of the codec: decompressing the compressed form of any buffer
/// gives the buffer back, and never reports a malformed stream.
pub proof fn lemma_rle_round_trip(s: Seq<u8>)
    ensures
        rle_decode(rle_encode(s)) == Some(s),
{
    lemma_rle_round_trip_from(s, 0, 0);
    assert(zero_run(0) + s.subrange(0, s.len() as int) =~= s);
}

/// Appends `count` zero bytes.
fn push_zeros(v: &mut Vec<u8>, count: u8)
    ensures
        final(v)@ == old(v)@ + zero_run(count as nat),
{
    let ghost v0 = old(v)@;
    let mut j: usize = 0;
    while j < count as usize
        invariant
            0 <= j <= count as usize,
            v@ == v0 + zero_run(j as nat),
        decreases count as usize - j,
    {
        let ghost before = v@;
        v.push(0);
        j = j + 1;
        proof {
            assert(v@ =~= v0 + zero_run(j as nat));
        }
    }
}

} // verus!
