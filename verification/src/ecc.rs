//! The three-qubit bit-flip code: what the two ancilla measurements say.

use vstd::prelude::*;

verus! {

/// The three-qubit repetition code against bit flips.
pub struct BitFlipCode;

/// What the ancilla outcomes `(m1, m2)` of the bit-flip code report.
#[derive(Debug, Clone, Copy, PartialEq, Eq, Structural)]
pub enum SyndromeVerdict {
    /// `(0, 0)`: no error.
    NoError,
    /// `(1, 0)`: the first ancilla flipped.
    Ancilla1,
    /// `(0, 1)`: the second ancilla flipped.
    Ancilla2,
    /// `(1, 1)`: the data qubit flipped; a CNOT from the first ancilla onto
    /// the data qubit corrects it.
    DataQubit,
}

/// The status message of a verdict.
pub open spec fn verdict_message(v: SyndromeVerdict) -> Seq<char> {
    match v {
        SyndromeVerdict::NoError => "There is no mistake"@,
        SyndromeVerdict::Ancilla1 => "Error detected on Ancilla 1 \u{2013} Corrected."@,
        SyndromeVerdict::Ancilla2 => "Error detected on Ancilla 2 \u{2013} Corrected."@,
        SyndromeVerdict::DataQubit => "Critical error detected on Data Qubit - Corrected successfully!"@,
    }
}

impl BitFlipCode {
    /// Reads the two ancilla outcomes, each 0 or 1.
    pub fn classify_syndrome(m1: u8, m2: u8) -> (v: SyndromeVerdict)
        requires
            m1 <= 1,
            m2 <= 1,
        ensures
            v == (if m1 == 0 && m2 == 0 {
                SyndromeVerdict::NoError
            } else if m2 == 0 {
                SyndromeVerdict::Ancilla1
            } else if m1 == 0 {
                SyndromeVerdict::Ancilla2
            } else {
                SyndromeVerdict::DataQubit
            }),
    {
        if m1 == 0 && m2 == 0 {
            SyndromeVerdict::NoError
        } else if m2 == 0 {
            SyndromeVerdict::Ancilla1
        } else if m1 == 0 {
            SyndromeVerdict::Ancilla2
        } else {
            SyndromeVerdict::DataQubit
        }
    }

    /// The status message that `detect_and_correct` returns for a verdict.
    pub fn verdict_text(v: SyndromeVerdict) -> (s: String)
        ensures
            s@ == verdict_message(v),
    {
        match v {
            SyndromeVerdict::NoError => String::from_str("There is no mistake"),
            SyndromeVerdict::Ancilla1 => String::from_str("Error detected on Ancilla 1 \u{2013} Corrected."),
            SyndromeVerdict::Ancilla2 => String::from_str("Error detected on Ancilla 2 \u{2013} Corrected."),
            SyndromeVerdict::DataQubit => String::from_str(
                "Critical error detected on Data Qubit - Corrected successfully!",
            ),
        }
    }
}

} // verus!
