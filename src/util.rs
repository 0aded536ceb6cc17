//! Byte string utilities.
use vstd::prelude::*;

verus! {

/// What replacing all matches of the patterns in a byte string gives, each match by the
/// replacement of the same index, with aho-corasick's standard match semantics.
pub uninterp spec fn replaced_all(h: Seq<u8>, patterns: Seq<Seq<u8>>, replacements: Seq<Seq<u8>>) -> Seq<u8>;

/// Whether `aho_corasick::AhoCorasick::new` accepts these patterns (it refuses only
/// pattern sets too large for its automaton).
pub uninterp spec fn ac_builds(patterns: Seq<Seq<u8>>) -> bool;

/// Relies on `aho_corasick::AhoCorasick::new`, which fails exactly when the automaton
/// cannot be built, and `replace_all_bytes`, which replaces every match by the
/// replacement of the same index and does not fail on an automaton built this way
/// (unanchored searches are the default).
#[verifier::external_body]
pub(crate) fn replace_all(h: &[u8], patterns: &Vec<Vec<u8>>, replacements: &Vec<Vec<u8>>) -> (r: Option<Vec<u8>>)
    requires
        patterns@.len() == replacements@.len(),
    ensures
        r is None <==> !ac_builds(patterns@.map_values(|p: Vec<u8>| p@)),
        r matches Some(v) ==> v@ == replaced_all(
            h@,
            patterns@.map_values(|p: Vec<u8>| p@),
            replacements@.map_values(|p: Vec<u8>| p@),
        ),
{
    match aho_corasick::AhoCorasick::new(patterns) {
        Ok(ac) => Some(ac.replace_all_bytes(h, replacements)),
        Err(_) => None,
    }
}

/// Replaces, in `src`, every match of the first element of a pair by its second element,
/// all in one pass; `None` exactly when the patterns cannot be compiled into a searcher.
pub fn replace_many(src: &[u8], replacements: &Vec<(Vec<u8>, Vec<u8>)>) -> (r: Option<Vec<u8>>)
    ensures
        r is None <==> !ac_builds(replacements@.map_values(|p: (Vec<u8>, Vec<u8>)| p.0@)),
        r matches Some(v) ==> v@ == replaced_all(
            src@,
            replacements@.map_values(|p: (Vec<u8>, Vec<u8>)| p.0@),
            replacements@.map_values(|p: (Vec<u8>, Vec<u8>)| p.1@),
        ),
{
    let mut patterns: Vec<Vec<u8>> = Vec::new();
    let mut values: Vec<Vec<u8>> = Vec::new();
    let mut k: usize = 0;
    while k < replacements.len()
        invariant
            k <= replacements@.len(),
            patterns@.len() == k,
            values@.len() == k,
            forall|m: int| 0 <= m < k ==> #[trigger] patterns@[m]@ == replacements@[m].0@,
            forall|m: int| 0 <= m < k ==> #[trigger] values@[m]@ == replacements@[m].1@,
        decreases replacements@.len() - k,
    {
        patterns.push(crate::assets::copy_of(replacements[k].0.as_slice()));
        values.push(crate::assets::copy_of(replacements[k].1.as_slice()));
        k = k + 1;
    }
    assert(patterns@.map_values(|p: Vec<u8>| p@) =~= replacements@.map_values(
        |p: (Vec<u8>, Vec<u8>)| p.0@,
    ));
    assert(values@.map_values(|p: Vec<u8>| p@) =~= replacements@.map_values(
        |p: (Vec<u8>, Vec<u8>)| p.1@,
    ));
    replace_all(src, &patterns, &values)
}

} // verus!
