//! Fresh identifiers.
use vstd::prelude::*;

verus! {

use vstd::utf8::is_ascii_chars;

/// `uuid::Uuid::new_v4` in its text form: 36 ASCII characters. Which ones is left to chance,
/// so nothing more is promised.
#[verifier::external_body]
pub(crate) fn fresh_id() -> (id: String)
    ensures
        id@.len() == 36,
        is_ascii_chars(id@),
{
    uuid::Uuid::new_v4().to_string()
}

} // verus!
