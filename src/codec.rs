use vstd::prelude::*;

use crate::bigram::{BigramMap, TABLE_SIZE};

verus! {

/// Bytes taken by the counters.
pub const COUNTS_LEN: usize = 262144;

/// Bytes of an encoded model: the counters, then the magnitude.
pub const ENCODED_LEN: usize = 262152;

/// `x` as four bytes, least significant first.
pub open spec fn le_u32(x: u32) -> Seq<u8> {
    seq![x as u8, (x >> 8u32) as u8, (x >> 16u32) as u8, (x >> 24u32) as u8]
}

/// The number that four bytes hold, least significant first.
pub open spec fn from_le_u32(b: Seq<u8>) -> u32 {
    (b[0] as u32) | ((b[1] as u32) << 8u32) | ((b[2] as u32) << 16u32) | ((b[3] as u32) << 24u32)
}

/// `x` as eight bytes, least significant first.
pub open spec fn le_u64(x: u64) -> Seq<u8> {
    seq![
        x as u8,
        (x >> 8u64) as u8,
        (x >> 16u64) as u8,
        (x >> 24u64) as u8,
        (x >> 32u64) as u8,
        (x >> 40u64) as u8,
        (x >> 48u64) as u8,
        (x >> 56u64) as u8,
    ]
}

/// The number that eight bytes hold, least significant first.
pub open spec fn from_le_u64(b: Seq<u8>) -> u64 {
    (b[0] as u64) | ((b[1] as u64) << 8u64) | ((b[2] as u64) << 16u64) | ((b[3] as u64) << 24u64)
        | ((b[4] as u64) << 32u64) | ((b[5] as u64) << 40u64) | ((b[6] as u64) << 48u64) | ((
    b[7] as u64) << 56u64)
}

/// The encoding of a count table and the bit pattern of its magnitude: each
/// counter in index order as four bytes, then the magnitude as eight bytes.
/// No header and no check word: the length is the only check.
pub open spec fn encoding(c: Seq<u32>, magnitude_bits: u64) -> Seq<u8> {
    Seq::new(
        ENCODED_LEN as nat,
        |j: int|
            if j < COUNTS_LEN {
                le_u32(c[j / 4])[j % 4]
            } else {
                le_u64(magnitude_bits)[j - COUNTS_LEN]
            },
    )
}

/// The counters that an encoding holds.
pub open spec fn decoded_counts(b: Seq<u8>) -> Seq<u32> {
    Seq::new(TABLE_SIZE as nat, |i: int| from_le_u32(b.subrange(4 * i, 4 * i + 4)))
}

/// The magnitude bits that an encoding holds.
pub open spec fn decoded_bits(b: Seq<u8>) -> u64 {
    from_le_u64(b.subrange(COUNTS_LEN as int, ENCODED_LEN as int))
}

/// Why an encoded model was refused.
#[derive(Debug, Clone, Copy, PartialEq, Eq, Structural)]
pub enum DecodeError {
    /// The payload does not have the one length that an encoding has.
    WrongLength { expected: usize, found: usize },
}

proof fn lemma_u32_round_trip(x: u32)
    ensures
        from_le_u32(le_u32(x)) == x,
{
    let b = le_u32(x);
    assert(((x as u8) as u32) | ((((x >> 8u32) as u8) as u32) << 8u32) | ((((x >> 16u32) as u8)
        as u32) << 16u32) | ((((x >> 24u32) as u8) as u32) << 24u32) == x) by (bit_vector);
}

proof fn lemma_u64_round_trip(x: u64)
    ensures
        from_le_u64(le_u64(x)) == x,
{
    assert(((x as u8) as u64) | ((((x >> 8u64) as u8) as u64) << 8u64) | ((((x >> 16u64) as u8)
        as u64) << 16u64) | ((((x >> 24u64) as u8) as u64) << 24u64) | ((((x >> 32u64) as u8)
        as u64) << 32u64) | ((((x >> 40u64) as u8) as u64) << 40u64) | ((((x >> 48u64) as u8)
        as u64) << 48u64) | ((((x >> 56u64) as u8) as u64) << 56u64) == x) by (bit_vector);
}

/// Decoding an encoding gives back the counters and the magnitude bits that
/// were encoded, and the encoding has the length that decoding accepts.
pub proof fn codec_round_trip(c: Seq<u32>, magnitude_bits: u64)
    requires
        c.len() == TABLE_SIZE,
    ensures
        encoding(c, magnitude_bits).len() == ENCODED_LEN,
        decoded_counts(encoding(c, magnitude_bits)) == c,
        decoded_bits(encoding(c, magnitude_bits)) == magnitude_bits,
{
    let e = encoding(c, magnitude_bits);
    assert forall|i: int| 0 <= i < TABLE_SIZE implies #[trigger] decoded_counts(e)[i] == c[i] by {
        assert(e.subrange(4 * i, 4 * i + 4) =~= le_u32(c[i]));
        lemma_u32_round_trip(c[i]);
    }
    assert(decoded_counts(e) =~= c);
    assert(e.subrange(COUNTS_LEN as int, ENCODED_LEN as int) =~= le_u64(magnitude_bits));
    lemma_u64_round_trip(magnitude_bits);
}

impl BigramMap {
    /// Encodes the counters and the given bit pattern of the magnitude.
    pub fn encode(&self, magnitude_bits: u64) -> (r: Vec<u8>)
        requires
            self.wf(),
        ensures
            r@ == encoding(self@, magnitude_bits),
    {
        let c = self.counts();
        let mut out: Vec<u8> = Vec::with_capacity(ENCODED_LEN);
        let mut i: usize = 0;
        while i < TABLE_SIZE
            invariant
                c@ == self@,
                c@.len() == TABLE_SIZE,
                i <= TABLE_SIZE,
                out@.len() == 4 * i,
                forall|j: int| 0 <= j < 4 * i ==> out@[j] == le_u32(c@[j / 4])[j % 4],
            decreases TABLE_SIZE - i,
        {
            let x = c[i];
            out.push(#[verifier::truncate] (x as u8));
            out.push(#[verifier::truncate] ((x >> 8u32) as u8));
            out.push(#[verifier::truncate] ((x >> 16u32) as u8));
            out.push(#[verifier::truncate] ((x >> 24u32) as u8));
            i = i + 1;
        }
        let x = magnitude_bits;
        out.push(#[verifier::truncate] (x as u8));
        out.push(#[verifier::truncate] ((x >> 8u64) as u8));
        out.push(#[verifier::truncate] ((x >> 16u64) as u8));
        out.push(#[verifier::truncate] ((x >> 24u64) as u8));
        out.push(#[verifier::truncate] ((x >> 32u64) as u8));
        out.push(#[verifier::truncate] ((x >> 40u64) as u8));
        out.push(#[verifier::truncate] ((x >> 48u64) as u8));
        out.push(#[verifier::truncate] ((x >> 56u64) as u8));
        proof {
            assert(out@ =~= encoding(self@, magnitude_bits));
        }
        out
    }

    /// Decodes a model and the bit pattern of its stored magnitude. Only the
    /// length is checked; the squared norm is recomputed from the counters.
    pub fn decode(bytes: &[u8]) -> (r: Result<(BigramMap, u64), DecodeError>)
        ensures
            r.is_ok() == (bytes@.len() == ENCODED_LEN),
            r matches Ok((m, bits)) ==> m.wf() && m@ == decoded_counts(bytes@) && bits
                == decoded_bits(bytes@),
            r matches Err(e) ==> e == (DecodeError::WrongLength {
                expected: ENCODED_LEN,
                found: bytes@.len() as usize,
            }),
    {
        if bytes.len() != ENCODED_LEN {
            return Err(DecodeError::WrongLength { expected: ENCODED_LEN, found: bytes.len() });
        }
        let mut lut: Vec<u32> = Vec::with_capacity(TABLE_SIZE);
        let mut i: usize = 0;
        while i < TABLE_SIZE
            invariant
                bytes@.len() == ENCODED_LEN,
                i <= TABLE_SIZE,
                lut@.len() == i,
                forall|k: int| 0 <= k < i ==> lut@[k] == decoded_counts(bytes@)[k],
            decreases TABLE_SIZE - i,
        {
            let j = 4 * i;
            let x = (bytes[j] as u32) | ((bytes[j + 1] as u32) << 8u32) | ((bytes[j + 2] as u32)
                << 16u32) | ((bytes[j + 3] as u32) << 24u32);
            proof {
                let w = bytes@.subrange(j as int, j + 4);
                assert(w[0] == bytes@[j as int] && w[1] == bytes@[j + 1] && w[2] == bytes@[j + 2]
                    && w[3] == bytes@[j + 3]);
            }
            lut.push(x);
            i = i + 1;
        }
        let t = COUNTS_LEN;
        let bits = (bytes[t] as u64) | ((bytes[t + 1] as u64) << 8u64) | ((bytes[t + 2] as u64)
            << 16u64) | ((bytes[t + 3] as u64) << 24u64) | ((bytes[t + 4] as u64) << 32u64) | ((
        bytes[t + 5] as u64) << 40u64) | ((bytes[t + 6] as u64) << 48u64) | ((bytes[t + 7] as u64)
            << 56u64);
        proof {
            let w = bytes@.subrange(t as int, ENCODED_LEN as int);
            assert(w[0] == bytes@[t as int] && w[1] == bytes@[t + 1] && w[2] == bytes@[t + 2] && w[3]
                == bytes@[t + 3] && w[4] == bytes@[t + 4] && w[5] == bytes@[t + 5] && w[6] == bytes@[t
                + 6] && w[7] == bytes@[t + 7]);
        }
        proof {
            assert(lut@ =~= decoded_counts(bytes@));
        }
        Ok((BigramMap::from_counts(lut), bits))
    }
}

} // verus!
