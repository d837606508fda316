use vstd::prelude::*;

verus! {

/// Relies on `String::push_str`: `t` appended to `s`.
#[verifier::external_body]
pub(crate) fn push_text(s: &mut String, t: &str)
    ensures
        final(s)@ == old(s)@ + t@,
{
    s.push_str(t)
}

} // verus!
