use vstd::prelude::*;

verus! {

/// The verdict of the fuzzy matcher on a candidate name and a query: a
/// typo-tolerant, case-insensitive approximate containment test.  It depends
/// on the two strings alone.
pub uninterp spec fn fuzzy_match(name: Seq<char>, query: Seq<char>) -> bool;

/// Relies on `sniffer_rs::sniffer::Sniffer::new` and `Sniffer::matches`: with
/// the default configuration the verdict is a function of the two strings
/// alone, and a string always matches itself — its distance to itself is zero
/// and its containment check passes on equal strings.
#[verifier::external_body]
fn sniffer_matches(name: &str, query: &str) -> (r: bool)
    ensures
        r == fuzzy_match(name@, query@),
        name@ == query@ ==> r,
{
    sniffer_rs::sniffer::Sniffer::new().matches(name, query)
}

/// Whether `query` approximately matches `candidate_name`, case-insensitively
/// and tolerating typos.  Every name matches itself.  An empty query is given
/// its meaning by the query router, not here.
pub fn matches(candidate_name: &str, query: &str) -> (r: bool)
    ensures
        r == fuzzy_match(candidate_name@, query@),
        candidate_name@ == query@ ==> r,
{
    sniffer_matches(candidate_name, query)
}

} // verus!
