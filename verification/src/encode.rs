use vstd::prelude::*;

verus! {

use base64::Engine;
use crate::error::WaveformError;

/// The text form that the standard padded base64 alphabet gives a
/// byte sequence. The exact character sequence is fixed by the input
/// bytes alone; callers rely on the facts the encoder's contract
/// states of it rather than on its definition.
pub uninterp spec fn base64_of(bytes: Seq<u8>) -> Seq<char>;

/// Relies on base64's `Engine::encode` with the `STANDARD` engine:
/// the result is a function of the input bytes alone, and with
/// padding it holds four characters for every three input bytes,
/// rounded up.
#[verifier::external_body]
fn base64_encode(bytes: &Vec<u8>) -> (r: String)
    requires
        4 * ((bytes@.len() + 2) / 3) <= usize::MAX,
    ensures
        r@ == base64_of(bytes@),
        r@.len() == 4 * ((bytes@.len() + 2) / 3),
{
    base64::engine::general_purpose::STANDARD.encode(bytes)
}

/// Collapse the outcome of a waveform reduction to the transport
/// convention of the host boundary: a reduced waveform leaves as its
/// base64 text, and any fatal failure leaves as the empty string, the
/// sole failure signal a caller sees.
pub fn waveform_to_string(outcome: Result<Vec<u8>, WaveformError>) -> (r: String)
    requires
        outcome is Ok ==> outcome->Ok_0@.len() <= usize::MAX / 4,
    ensures
        match outcome {
            Ok(waveform) => r@ == base64_of(waveform@),
            Err(_) => r@ == Seq::<char>::empty(),
        },
{
    match outcome {
        Ok(waveform) => {
            proof {
                assert(4 * ((waveform@.len() + 2) / 3) <= usize::MAX) by (nonlinear_arith)
                    requires
                        waveform@.len() <= usize::MAX / 4,
                ;
            }
            base64_encode(&waveform)
        },
        Err(_) => String::new(),
    }
}

} // verus!
