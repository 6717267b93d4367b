use vstd::prelude::*;

use crate::highlighting::{highlight_search_query_in_mpn, highlighted, Fragment, HighlightError};

verus! {

/// The parameters of a search request: the text the user searched for.
pub struct QueryData {
    pub query: String,
}

/// What the request handler does once it knows whether the request was seen
/// before.
pub enum AfterCache {
    /// Answer at once with these highlighted candidates; nothing is recorded.
    Respond(Vec<Vec<Fragment>>),
    /// Ask the part-search provider for the candidates that match the query.
    Search,
}

/// What the request handler does once the part-search provider answered.
pub enum AfterSearch {
    /// Answer that the search found nothing.
    NoContent,
    /// Record the request as a successful search, then answer with these
    /// highlighted candidates.
    StoreAndRespond(Vec<Vec<Fragment>>),
}

/// Each of `targets` rendered under `query`, in the same order.
pub open spec fn all_highlighted(query: Seq<char>, targets: Seq<String>) -> Seq<Seq<Fragment>> {
    targets.map_values(|t: String| highlighted(query, t@))
}

/// The fragments of each rendering in `v`, in order.
pub open spec fn renderings_view(v: Seq<Vec<Fragment>>) -> Seq<Seq<Fragment>> {
    v.map_values(|f: Vec<Fragment>| f@)
}

/// Renders every candidate part number under `query`, in the order given;
/// fails with `InvalidQuery` when the query is empty.
pub fn highlight_candidates(query: &str, candidates: &Vec<String>) -> (r: Result<
    Vec<Vec<Fragment>>,
    HighlightError,
>)
    ensures
        query@.len() == 0 <==> r is Err,
        r matches Err(e) ==> e == HighlightError::InvalidQuery,
        r matches Ok(v) ==> renderings_view(v@) == all_highlighted(query@, candidates@),
{
    if query.is_empty() {
        return Err(HighlightError::InvalidQuery);
    }
    let mut out: Vec<Vec<Fragment>> = Vec::new();
    for i in 0..candidates.len()
        invariant
            query@.len() > 0,
            renderings_view(out@) =~= all_highlighted(query@, candidates@.take(i as int)),
    {
        let ghost before = out@;
        match highlight_search_query_in_mpn(query, candidates[i].as_str()) {
            Ok(f) => {
                assert(f@ == highlighted(query@, candidates@[i as int]@));
                out.push(f);
                assert(renderings_view(out@) =~= renderings_view(before).push(f@));
                assert(candidates@.take(i + 1) =~= candidates@.take(i as int).push(candidates@[i as int]));
            },
            Err(e) => {
                return Err(e);
            },
        }
    }
    assert(candidates@.take(candidates.len() as int) =~= candidates@);
    Ok(out)
}

/// The step after the cache of past requests was consulted: a request already
/// seen is answered at once with no candidates; a new one goes to the provider.
pub fn on_cache_checked(seen_before: bool) -> (r: AfterCache)
    ensures
        seen_before ==> (r matches AfterCache::Respond(v) && v@.len() == 0),
        !seen_before ==> r is Search,
{
    if seen_before {
        AfterCache::Respond(Vec::new())
    } else {
        AfterCache::Search
    }
}

/// The step after the provider answered with `candidates`: none means no
/// content; otherwise the request is recorded and every candidate is rendered
/// under `query`.
pub fn on_candidates(query: &str, candidates: &Vec<String>) -> (r: Result<
    AfterSearch,
    HighlightError,
>)
    ensures
        candidates@.len() == 0 ==> r matches Ok(AfterSearch::NoContent),
        candidates@.len() > 0 ==> (query@.len() == 0 <==> r is Err),
        r matches Err(e) ==> e == HighlightError::InvalidQuery,
        candidates@.len() > 0 && query@.len() > 0 ==> (r matches Ok(
            AfterSearch::StoreAndRespond(v),
        ) && renderings_view(v@) == all_highlighted(query@, candidates@)),
{
    if candidates.len() == 0 {
        return Ok(AfterSearch::NoContent);
    }
    match highlight_candidates(query, candidates) {
        Ok(v) => Ok(AfterSearch::StoreAndRespond(v)),
        Err(e) => Err(e),
    }
}

} // verus!
