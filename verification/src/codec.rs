//! The Reed-Solomon block code, as this library sees it.
//!
//! Encoding and decoding are done by the `reed_solomon` crate. Its results
//! are functions of the bytes and of the parity length alone, so each gets a
//! name here, and the rest of the library reasons over those names.

use vstd::prelude::*;

verus! {

/// The longest codeword (data and parity together) that the encoder can
/// build in its fixed polynomial storage.
pub const MAX_ENCODED: usize = 256;

/// The longest codeword that the decoder accepts.
pub const MAX_DECODED: usize = 255;

/// The most parity bytes with which the decoder can be trusted on any
/// corrupted codeword: while it repairs, it multiplies the syndromes (one
/// more coefficient than parity bytes) with an error locator of up to half
/// as many, and the product has to fit the same fixed storage.
pub const MAX_PARITY: usize = 170;

/// The error of `reed_solomon::Decoder`. It is carried from the decoder to
/// the place that answers for it, and never looked into.
#[verifier::external_type_specification]
#[verifier::external_body]
pub struct ExDecoderError(reed_solomon::DecoderError);

/// The parity bytes that the encoder derives from `data` for a code with
/// `ecc_len` parity bytes.
pub uninterp spec fn rs_parity(data: Seq<u8>, ecc_len: nat) -> Seq<u8>;

/// The decoder's fast check on a whole codeword: whether any of its
/// `ecc_len` syndromes is not zero.
pub uninterp spec fn rs_corrupt(codeword: Seq<u8>, ecc_len: nat) -> bool;

/// What the decoder makes of a codeword that fails the fast check: the
/// repaired codeword with the number of bytes it changed, or nothing when
/// the damage is beyond the code.
pub uninterp spec fn rs_corrected(codeword: Seq<u8>, ecc_len: nat) -> Option<(Seq<u8>, nat)>;

/// The outcome of decoding: a codeword that passes the fast check comes back
/// as it is, with no error counted; any other is handed to the repair.
pub open spec fn rs_decode(codeword: Seq<u8>, ecc_len: nat) -> Option<(Seq<u8>, nat)> {
    if rs_corrupt(codeword, ecc_len) {
        rs_corrected(codeword, ecc_len)
    } else {
        Some((codeword, 0nat))
    }
}

/// The decoder's answer as plain values.
pub open spec fn decoded(outcome: Result<(Vec<u8>, usize), reed_solomon::DecoderError>) -> Option<
    (Seq<u8>, nat),
> {
    match outcome {
        Ok((codeword, count)) => Some((codeword@, count as nat)),
        Err(_) => None,
    }
}

/// Calls `reed_solomon::Encoder::new` and `Encoder::encode`, and hands back
/// the parity part of the encoded block (`Buffer::ecc`).
///
/// Trusted: the result is the named parity and has `ecc_len` bytes. With
/// fewer than 255 parity bytes, the data followed by this parity is a
/// codeword on which the decoder's fast check finds nothing, as the crate
/// documents for `Decoder::is_corrupted`. (With 255 the generator polynomial
/// has coefficients that are zero, which the encoder's table lookup does not
/// treat as zero.)
#[verifier::external_body]
pub(crate) fn rs_encode(data: &[u8], ecc_len: usize) -> (parity: Vec<u8>)
    requires
        1 <= data@.len(),
        data@.len() + ecc_len <= MAX_ENCODED,
    ensures
        parity@ == rs_parity(data@, ecc_len as nat),
        parity@.len() == ecc_len,
        ecc_len < 255 ==> !rs_corrupt(data@ + parity@, ecc_len as nat),
{
    reed_solomon::Encoder::new(ecc_len).encode(data).ecc().to_vec()
}

/// Calls `reed_solomon::Decoder::new` and `Decoder::is_corrupted`.
///
/// Trusted: the result is the named fast check of the codeword.
#[verifier::external_body]
pub(crate) fn rs_is_corrupted(codeword: &[u8], ecc_len: usize) -> (corrupt: bool)
    requires
        1 <= codeword@.len(),
    ensures
        corrupt == rs_corrupt(codeword@, ecc_len as nat),
{
    reed_solomon::Decoder::new(ecc_len).is_corrupted(codeword)
}

/// Calls `reed_solomon::Decoder::new` and `Decoder::correct_err_count`
/// without known erasures, and copies the repaired block out of its
/// `Buffer`.
///
/// Trusted: a codeword on which the fast check finds nothing is returned
/// unchanged with a count of zero; for any other the answer is the named
/// repair. A repaired codeword is as long as the one handed in, and the
/// count is at most half the parity length: the decoder gives up on an error
/// locator of a higher degree, and counts one error for each of its roots.
#[verifier::external_body]
pub(crate) fn rs_correct(codeword: &[u8], ecc_len: usize) -> (outcome: Result<
    (Vec<u8>, usize),
    reed_solomon::DecoderError,
>)
    requires
        ecc_len < codeword@.len() <= MAX_DECODED,
        ecc_len <= MAX_PARITY,
    ensures
        decoded(outcome) == if rs_corrupt(codeword@, ecc_len as nat) {
            rs_corrected(codeword@, ecc_len as nat)
        } else {
            Some((codeword@, 0nat))
        },
        outcome matches Ok((repaired, count)) ==> repaired@.len() == codeword@.len() && 2
            * count <= ecc_len,
{
    match reed_solomon::Decoder::new(ecc_len).correct_err_count(codeword, None) {
        Ok((block, count)) => Ok((block.to_vec(), count)),
        Err(error) => Err(error),
    }
}

} // verus!
