//! Case-insensitive multi-term filtering of a list of texts.
use vstd::prelude::*;
use crate::text::{
    contains_all_terms, has_all_terms, lower_of, lowercase, split_terms, trim_text, trimmed, views,
    words,
};

verus! {

/// The terms of a query: its trimmed, lowercased text split on whitespace.
pub open spec fn query_terms(query: Seq<char>) -> Seq<Seq<char>> {
    words(lower_of(trimmed(query)))
}

/// The indices below `n`, ascending, of the texts whose lowercased form
/// holds every one of `terms`.
pub open spec fn hits(texts: Seq<Seq<char>>, terms: Seq<Seq<char>>, n: int) -> Seq<int>
    decreases n,
{
    if n <= 0 {
        Seq::empty()
    } else {
        let before = hits(texts, terms, n - 1);
        if has_all_terms(terms, lower_of(texts[n - 1])) {
            before.push(n - 1)
        } else {
            before
        }
    }
}

/// The most indices a search returns: `limit`, but at least one.
pub open spec fn effective_cap(limit: u32) -> int {
    if limit == 0 {
        1
    } else {
        limit as int
    }
}

/// The first `effective_cap(limit)` indices of the texts that hold every
/// term of `query`; none when the query has no terms.
pub open spec fn search_result(texts: Seq<Seq<char>>, query: Seq<char>, limit: u32) -> Seq<int> {
    let terms = query_terms(query);
    let all = hits(texts, terms, texts.len() as int);
    if terms.len() == 0 {
        Seq::empty()
    } else if all.len() <= effective_cap(limit) {
        all
    } else {
        all.take(effective_cap(limit))
    }
}

/// The hits among fewer texts are a prefix of the hits among more.
proof fn lemma_hits_prefix(texts: Seq<Seq<char>>, terms: Seq<Seq<char>>, i: int, n: int)
    requires
        0 <= i <= n,
    ensures
        hits(texts, terms, i).len() <= hits(texts, terms, n).len(),
        hits(texts, terms, n).take(hits(texts, terms, i).len() as int) == hits(texts, terms, i),
    decreases n - i,
{
    if i < n {
        lemma_hits_prefix(texts, terms, i, n - 1);
        let h = hits(texts, terms, n - 1);
        let hi = hits(texts, terms, i);
        assert(hits(texts, terms, n).take(hi.len() as int) =~= h.take(hi.len() as int));
    } else {
        assert(hits(texts, terms, n).take(hits(texts, terms, n).len() as int) =~= hits(
            texts,
            terms,
            n,
        ));
    }
}

/// Indices as integers.
pub open spec fn as_ints(v: Seq<u32>) -> Seq<int> {
    v.map_values(|x: u32| x as int)
}

/// Returns, in ascending order, the indices of the messages whose lowercased
/// text contains every whitespace-separated term of the trimmed, lowercased
/// query, at most `limit` of them (at least one when `limit` is zero).
pub fn search_contains_indices(messages: Vec<String>, query: String, limit: u32) -> (r: Vec<u32>)
    requires
        messages@.len() <= u32::MAX as int + 1,
    ensures
        as_ints(r@) == search_result(views(messages@), query@, limit),
        r@.len() <= effective_cap(limit),
{
    let ghost texts = views(messages@);
    let cap: usize = if limit == 0 {
        1
    } else {
        limit as usize
    };
    let lowered = lowercase(trim_text(query.as_str()));
    let terms = split_terms(lowered.as_str());
    let ghost tv = views(terms@);
    if terms.len() == 0 {
        return Vec::new();
    }
    let mut out: Vec<u32> = Vec::new();
    let mut idx: usize = 0;
    while idx < messages.len() && out.len() < cap
        invariant
            texts == views(messages@),
            tv == query_terms(query@),
            tv == views(terms@),
            cap as int == effective_cap(limit),
            messages@.len() <= u32::MAX as int + 1,
            idx <= messages@.len(),
            out@.len() <= cap,
            as_ints(out@) == hits(texts, tv, idx as int),
        decreases messages@.len() - idx,
    {
        let hay = lowercase(messages[idx].as_str());
        let ghost prev = out@;
        if contains_all_terms(hay.as_str(), &terms) {
            out.push(idx as u32);
            proof {
                assert(as_ints(out@) =~= as_ints(prev).push(idx as int));
            }
        }
        idx += 1;
    }
    proof {
        let all = hits(texts, tv, texts.len() as int);
        lemma_hits_prefix(texts, tv, idx as int, texts.len() as int);
        if idx < messages@.len() {
            assert(out@.len() == cap);
            if all.len() <= cap {
                assert(all =~= all.take(cap as int));
            }
        } else {
            assert(all =~= hits(texts, tv, idx as int));
        }
    }
    out
}

} // verus!
