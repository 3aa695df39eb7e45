//! The search engine: given the full input text and a configuration, return
//! the ordered subsequence of lines that contain the query, comparing
//! lowercased text when the configuration ignores case.

use vstd::prelude::*;

verus! {

use crate::config::Config;
use crate::text::contains_seq;
use crate::text::contains_str;
use crate::text::lemma_contains_empty;
use crate::text::lines_spec;
use crate::text::split_lines;

/// The characters of `s` lowercased, as `str::to_lowercase` maps them.
pub uninterp spec fn lower_of(s: Seq<char>) -> Seq<char>;

/// Relies on `str::to_lowercase`: the result is a function of the input
/// characters alone, and an empty input gives an empty result.
#[verifier::external_body]
fn lowercase(s: &str) -> (r: String)
    ensures
        r@ == lower_of(s@),
        s@.len() == 0 ==> r@.len() == 0,
{
    s.to_lowercase()
}

/// A query or a line as matching sees it: lowercased when case is ignored,
/// verbatim otherwise.
pub open spec fn normalized(s: Seq<char>, ignore_case: bool) -> Seq<char> {
    if ignore_case {
        lower_of(s)
    } else {
        s
    }
}

/// Whether a line matches a query: an empty query matches every line, and
/// otherwise the normalized line must contain the normalized query.
pub open spec fn line_matches(line: Seq<char>, query: Seq<char>, ignore_case: bool) -> bool {
    ||| query.len() == 0
    ||| contains_seq(normalized(line, ignore_case), normalized(query, ignore_case))
}

/// The matching predicate for a fixed query and mode, in the form `filter`
/// takes.
pub open spec fn match_pred(query: Seq<char>, ignore_case: bool) -> spec_fn(Seq<char>) -> bool {
    |line: Seq<char>| line_matches(line, query, ignore_case)
}

/// What `search` returns: the matching lines of `contents`, in their
/// original order.
pub open spec fn search_spec(contents: Seq<char>, query: Seq<char>, ignore_case: bool) -> Seq<
    Seq<char>,
> {
    lines_spec(contents).filter(match_pred(query, ignore_case))
}

/// Returns the lines of `contents` that match the query of `config`, in
/// original order and original casing, as slices of the original buffer.
pub fn search<'a>(contents: &'a str, config: &Config) -> (r: Vec<&'a str>)
    ensures
        r.deep_view() == search_spec(contents@, config.query@, config.ignore_case),
{
    let lines = split_lines(contents);
    let ghost lns = lines_spec(contents@);
    let ghost pred = match_pred(config.query@, config.ignore_case);
    let mut out: Vec<&'a str> = Vec::new();
    proof {
        assert(lns.subrange(0, 0) =~= Seq::<Seq<char>>::empty());
        reveal(Seq::filter);
        assert(out.deep_view() =~= lns.subrange(0, 0).filter(pred));
    }
    if config.ignore_case {
        let query_norm = lowercase(config.query.as_str());
        let mut k: usize = 0;
        while k < lines.len()
            invariant
                lines.deep_view() == lns,
                query_norm@ == lower_of(config.query@),
                config.query@.len() == 0 ==> query_norm@.len() == 0,
                pred == match_pred(config.query@, config.ignore_case),
                config.ignore_case,
                k <= lines.len(),
                out.deep_view() == lns.subrange(0, k as int).filter(pred),
            decreases lines.len() - k,
        {
            let line: &str = lines[k];
            let line_norm = lowercase(line);
            let m = contains_str(line_norm.as_str(), query_norm.as_str());
            proof {
                assert(line@ == lns[k as int]);
                if config.query@.len() == 0 {
                    lemma_contains_empty(line_norm@, query_norm@);
                }
                assert(m == pred(lns[k as int]));
            }
            let ghost out0 = out.deep_view();
            if m {
                out.push(line);
            }
            proof {
                let cur = lns.subrange(0, k as int + 1);
                assert(cur.drop_last() =~= lns.subrange(0, k as int));
                assert(cur.last() == lns[k as int]);
                reveal(Seq::filter);
                if m {
                    assert(out.deep_view() =~= out0.push(lns[k as int]));
                }
                assert(out.deep_view() == cur.filter(pred));
            }
            k = k + 1;
        }
        proof {
            assert(lns.subrange(0, lines@.len() as int) =~= lns);
        }
    } else {
        let mut k: usize = 0;
        while k < lines.len()
            invariant
                lines.deep_view() == lns,
                pred == match_pred(config.query@, config.ignore_case),
                !config.ignore_case,
                k <= lines.len(),
                out.deep_view() == lns.subrange(0, k as int).filter(pred),
            decreases lines.len() - k,
        {
            let line: &str = lines[k];
            let m = contains_str(line, config.query.as_str());
            proof {
                assert(line@ == lns[k as int]);
                if config.query@.len() == 0 {
                    lemma_contains_empty(line@, config.query@);
                }
                assert(m == pred(lns[k as int]));
            }
            let ghost out0 = out.deep_view();
            if m {
                out.push(line);
            }
            proof {
                let cur = lns.subrange(0, k as int + 1);
                assert(cur.drop_last() =~= lns.subrange(0, k as int));
                assert(cur.last() == lns[k as int]);
                reveal(Seq::filter);
                if m {
                    assert(out.deep_view() =~= out0.push(lns[k as int]));
                }
                assert(out.deep_view() == cur.filter(pred));
            }
            k = k + 1;
        }
        proof {
            assert(lns.subrange(0, lines@.len() as int) =~= lns);
        }
    }
    out
}

/// Soundness, completeness and order for a non-empty query: the search
/// result is exactly the subsequence of lines whose normalized text contains
/// the normalized query; every returned line matches, and every matching
/// line of the input is returned.
pub proof fn lemma_search_sound_and_complete(contents: Seq<char>, query: Seq<char>, ignore_case: bool)
    requires
        query.len() > 0,
    ensures
        search_spec(contents, query, ignore_case) == lines_spec(contents).filter(
            match_pred(query, ignore_case),
        ),
        forall|i: int|
            0 <= i < search_spec(contents, query, ignore_case).len() ==> contains_seq(
                normalized(#[trigger] search_spec(contents, query, ignore_case)[i], ignore_case),
                normalized(query, ignore_case),
            ),
        forall|j: int|
            0 <= j < lines_spec(contents).len() && contains_seq(
                normalized(#[trigger] lines_spec(contents)[j], ignore_case),
                normalized(query, ignore_case),
            ) ==> search_spec(contents, query, ignore_case).contains(lines_spec(contents)[j]),
{
    let lns = lines_spec(contents);
    let pred = match_pred(query, ignore_case);
    let res = search_spec(contents, query, ignore_case);
    assert forall|i: int|
        0 <= i < res.len() implies contains_seq(
        normalized(res[i], ignore_case),
        normalized(query, ignore_case),
    ) by {
        lns.lemma_filter_pred(pred, i);
    }
    assert forall|j: int|
        0 <= j < lns.len() && contains_seq(
            normalized(lns[j], ignore_case),
            normalized(query, ignore_case),
        ) implies res.contains(lns[j]) by {
        lns.lemma_filter_contains(pred, j);
    }
}

/// A strictly increasing choice of positions that produces a filtered
/// sequence from its source: what `filter` keeps stays in source order.
proof fn lemma_filter_embedding(s: Seq<Seq<char>>, pred: spec_fn(Seq<char>) -> bool) -> (ix: Seq<
    int,
>)
    ensures
        ix.len() == s.filter(pred).len(),
        forall|i: int|
            0 <= i < ix.len() ==> 0 <= #[trigger] ix[i] < s.len() && s.filter(pred)[i] == s[ix[i]],
        forall|i: int, j: int| 0 <= i < j < ix.len() ==> ix[i] < ix[j],
    decreases s.len(),
{
    reveal(Seq::filter);
    if s.len() == 0 {
        Seq::empty()
    } else {
        let sub = lemma_filter_embedding(s.drop_last(), pred);
        if pred(s.last()) {
            let ix = sub.push(s.len() - 1);
            assert forall|i: int|
                0 <= i < ix.len() implies 0 <= #[trigger] ix[i] < s.len() && s.filter(pred)[i]
                == s[ix[i]] by {
                if i < sub.len() {
                    assert(s.filter(pred)[i] == s.drop_last().filter(pred)[i]);
                    assert(s.drop_last()[sub[i]] == s[sub[i]]);
                }
            }
            ix
        } else {
            sub
        }
    }
}

/// Order preservation: the search result is read off the lines of `contents`
/// at a strictly increasing choice of positions, so matching lines keep
/// their original relative order.
pub proof fn lemma_search_preserves_order(
    contents: Seq<char>,
    query: Seq<char>,
    ignore_case: bool,
) -> (ix: Seq<int>)
    requires
        query.len() > 0,
    ensures
        ix.len() == search_spec(contents, query, ignore_case).len(),
        forall|i: int|
            0 <= i < ix.len() ==> 0 <= #[trigger] ix[i] < lines_spec(contents).len()
                && search_spec(contents, query, ignore_case)[i] == lines_spec(contents)[ix[i]],
        forall|i: int, j: int| 0 <= i < j < ix.len() ==> ix[i] < ix[j],
{
    lemma_filter_embedding(lines_spec(contents), match_pred(query, ignore_case))
}

/// Searching is a function of the text, the query and the matching mode
/// alone: two runs over identical inputs give identical results.
pub proof fn lemma_search_idempotent(
    contents: Seq<char>,
    query: Seq<char>,
    ignore_case: bool,
    r1: Seq<Seq<char>>,
    r2: Seq<Seq<char>>,
)
    requires
        r1 == search_spec(contents, query, ignore_case),
        r2 == search_spec(contents, query, ignore_case),
    ensures
        r1 == r2,
{
}

/// `filter` keeps every element when the query is empty, since an empty
/// query matches every line.
proof fn lemma_filter_empty_query_id(s: Seq<Seq<char>>, query: Seq<char>, ignore_case: bool)
    requires
        query.len() == 0,
    ensures
        s.filter(match_pred(query, ignore_case)) == s,
    decreases s.len(),
{
    reveal(Seq::filter);
    if s.len() > 0 {
        lemma_filter_empty_query_id(s.drop_last(), query, ignore_case);
        assert(s.filter(match_pred(query, ignore_case)) =~= s.drop_last().push(s.last()));
        assert(s.drop_last().push(s.last()) =~= s);
    }
}

/// An empty query matches every line: the search returns all lines of
/// `contents`, unchanged and in order.
pub proof fn lemma_empty_query_matches_all(contents: Seq<char>, query: Seq<char>, ignore_case: bool)
    requires
        query.len() == 0,
    ensures
        search_spec(contents, query, ignore_case) == lines_spec(contents),
{
    lemma_filter_empty_query_id(lines_spec(contents), query, ignore_case);
}

} // verus!
