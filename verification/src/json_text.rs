//! JSON texts, written by `serde_json`.

use crate::text::digits;
use vstd::prelude::*;

verus! {

/// Numbers in decimal, separated by commas.
pub open spec fn comma_list(v: Seq<u16>) -> Seq<char>
    decreases v.len(),
{
    if v.len() == 0 {
        Seq::empty()
    } else if v.len() == 1 {
        digits(v[0] as nat)
    } else {
        comma_list(v.drop_last()).push(',') + digits(v.last() as nat)
    }
}

/// What `serde_json::Value` displays for an array of numbers: the compact form, which has the
/// numbers in decimal, separated by commas without spaces, between square brackets.
#[verifier::external_body]
pub(crate) fn number_array_text(v: Vec<u16>) -> (r: String)
    ensures
        r@ == seq!['['] + comma_list(v@) + seq![']'],
{
    serde_json::Value::from(v).to_string()
}

} // verus!
