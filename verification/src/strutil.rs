//! String helpers shared by the analyzers and the trace store.

use vstd::prelude::*;

verus! {

/// Relies on str's PartialEq: two string slices are equal exactly when
/// their character sequences are.
#[verifier::external_body]
pub(crate) fn str_eq(a: &str, b: &str) -> (r: bool)
    ensures
        r == (a@ == b@),
{
    a == b
}

/// Whether the character sequence `s` contains the value `a`.
pub open spec fn seq_has(s: Seq<Seq<char>>, a: Seq<char>) -> bool {
    exists|i: int| 0 <= i < s.len() && s[i] == a
}

/// Whether the trace contains the activity, by character-wise equality.
pub fn trace_contains(trace: &Vec<&str>, a: &str) -> (r: bool)
    ensures
        r == seq_has(trace.deep_view(), a@),
{
    let ghost dv = trace.deep_view();
    let mut i: usize = 0;
    while i < trace.len()
        invariant
            0 <= i <= trace.len(),
            dv == trace.deep_view(),
            dv.len() == trace.len(),
            forall|j: int| 0 <= j < trace.len() ==> dv[j] == trace[j]@,
            forall|j: int| 0 <= j < i ==> dv[j] != a@,
        decreases trace.len() - i,
    {
        if str_eq(trace[i], a) {
            proof {
                assert(dv[i as int] == a@);
            }
            return true;
        }
        i += 1;
    }
    false
}

} // verus!
