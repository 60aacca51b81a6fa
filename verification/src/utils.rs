//! Small helpers around outside crates.
use rand::Rng;
use vstd::prelude::*;

verus! {

/// An ASCII digit or letter.
pub open spec fn is_alphanumeric_char(c: char) -> bool {
    (48 <= c as int <= 57) || (65 <= c as int <= 90) || (97 <= c as int <= 122)
}

/// Relies on rand's thread_rng sampling Alphanumeric, which draws from
/// the 62 ASCII digits and letters: `len` such characters. The draw
/// depends on the generator's state, so nothing more is promised.
#[verifier::external_body]
pub fn random_string(len: usize) -> (r: String)
    ensures
        r@.len() == len as nat,
        forall|i: int| 0 <= i < r@.len() ==> is_alphanumeric_char(#[trigger] r@[i]),
{
    rand::thread_rng().sample_iter(&rand::distributions::Alphanumeric).take(len).collect::<String>()
}

} // verus!
