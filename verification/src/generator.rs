//! The identifier-formatting configuration an embedding application falls
//! back to when it has not set one up: a process-wide generator slot, being
//! ambient mutable state, belongs to the application; this module supplies
//! the default prettifier such a slot starts from.

use vstd::prelude::*;
use crate::pretty::codec::{AlphabetCodec, Codec};
use crate::pretty::prettifier::IdPrettifier;
use crate::pretty::numeral::numeral;

verus! {

/// The prettifier used when no generator has been configured: the default
/// reversible configuration.
pub fn prettifier() -> (p: IdPrettifier<AlphabetCodec>)
    ensures
        p.wf(),
        p.model().reversible(),
        p.encoder.alphabet() == "ABCDEFGHJKLMNPQRSTUVXYZ"@,
        p.parts_size == 5,
        p.delimiter@ == "-"@,
        p.leading_zeros == true,
        p.max_encoder_length as int == numeral(p.encoder.alphabet(), 99999).len(),
{
    IdPrettifier::default()
}

} // verus!
