//! The search engine: filtering a corpus's lines by substring containment of
//! a query, exactly or after ASCII case folding of both sides, and the laws
//! that the two operations obey.

use vstd::prelude::*;
use crate::config::Config;
use crate::text::{
    contains_at, contains_str, has_substring, lines_of, lower_seq, lowercase, split_lines,
};

verus! {

/// The lines of `c` that contain `q`, in their original order.
pub open spec fn match_lines(q: Seq<char>, c: Seq<char>) -> Seq<Seq<char>> {
    lines_of(c).filter(|l: Seq<char>| has_substring(l, q))
}

/// The lines of `c` that contain `q` after ASCII case folding of both sides,
/// in their original order.
pub open spec fn match_lines_ci(q: Seq<char>, c: Seq<char>) -> Seq<Seq<char>> {
    lines_of(c).filter(|l: Seq<char>| has_substring(lower_seq(l), lower_seq(q)))
}

/// `a` is a subsequence of `b`: the entries of `a` all appear in `b`, in the
/// same order.
pub open spec fn subsequence_of<A>(a: Seq<A>, b: Seq<A>) -> bool
    decreases a.len() + b.len(),
{
    if a.len() == 0 {
        true
    } else if b.len() == 0 {
        false
    } else {
        (a.last() == b.last() && subsequence_of(a.drop_last(), b.drop_last())) || subsequence_of(
            a,
            b.drop_last(),
        )
    }
}

proof fn lemma_filter_push<A>(s: Seq<A>, x: A, pred: spec_fn(A) -> bool)
    ensures
        s.push(x).filter(pred) == (if pred(x) {
            s.filter(pred).push(x)
        } else {
            s.filter(pred)
        }),
{
    reveal(Seq::filter);
    assert(s.push(x).drop_last() =~= s);
    assert(s.push(x).last() == x);
}

/// The lines of `contents` that contain `query` as a literal substring, in
/// their original order, as slices of `contents`.
pub fn search<'a>(query: &str, contents: &'a str) -> (res: Vec<&'a str>)
    ensures
        res.deep_view() == match_lines(query@, contents@),
{
    let lines = split_lines(contents);
    let mut res: Vec<&'a str> = Vec::new();
    let n = lines.len();
    let mut i: usize = 0;
    proof {
        reveal(Seq::filter);
        assert(lines.deep_view().subrange(0, 0) =~= Seq::<Seq<char>>::empty());
        assert(res.deep_view() =~= Seq::<Seq<char>>::empty());
    }
    while i < n
        invariant
            n == lines@.len(),
            i <= n,
            lines.deep_view() == lines_of(contents@),
            res.deep_view() == lines.deep_view().subrange(0, i as int).filter(
                |l: Seq<char>| has_substring(l, query@),
            ),
        decreases n - i,
    {
        let ghost prefix = lines.deep_view().subrange(0, i as int);
        let ghost old_res = res.deep_view();
        let line = lines[i];
        proof {
            assert(line@ == lines.deep_view()[i as int]);
        }
        let found = contains_str(line, query);
        if found {
            res.push(line);
            proof {
                assert(res.deep_view() =~= old_res.push(line@));
            }
        }
        i = i + 1;
        proof {
            assert(lines.deep_view().subrange(0, i as int) =~= prefix.push(line@));
            lemma_filter_push(prefix, line@, |l: Seq<char>| has_substring(l, query@));
        }
    }
    proof {
        assert(lines.deep_view().subrange(0, n as int) =~= lines.deep_view());
    }
    res
}

/// The lines of `contents` that contain `query` after ASCII case folding of
/// both sides, in their original order, as slices of `contents`. The query
/// is folded once, each line is folded before the test, and the returned
/// lines keep their original characters.
pub fn search_case_insensitive<'a>(query: &str, contents: &'a str) -> (res: Vec<&'a str>)
    ensures
        res.deep_view() == match_lines_ci(query@, contents@),
{
    let folded_query = lowercase(query);
    let lines = split_lines(contents);
    let mut res: Vec<&'a str> = Vec::new();
    let n = lines.len();
    let mut i: usize = 0;
    proof {
        reveal(Seq::filter);
        assert(lines.deep_view().subrange(0, 0) =~= Seq::<Seq<char>>::empty());
        assert(res.deep_view() =~= Seq::<Seq<char>>::empty());
    }
    while i < n
        invariant
            n == lines@.len(),
            i <= n,
            folded_query@ == lower_seq(query@),
            lines.deep_view() == lines_of(contents@),
            res.deep_view() == lines.deep_view().subrange(0, i as int).filter(
                |l: Seq<char>| has_substring(lower_seq(l), lower_seq(query@)),
            ),
        decreases n - i,
    {
        let ghost prefix = lines.deep_view().subrange(0, i as int);
        let ghost old_res = res.deep_view();
        let line = lines[i];
        proof {
            assert(line@ == lines.deep_view()[i as int]);
        }
        let folded_line = lowercase(line);
        let found = contains_str(folded_line.as_str(), folded_query.as_str());
        if found {
            res.push(line);
            proof {
                assert(res.deep_view() =~= old_res.push(line@));
            }
        }
        i = i + 1;
        proof {
            assert(lines.deep_view().subrange(0, i as int) =~= prefix.push(line@));
            lemma_filter_push(
                prefix,
                line@,
                |l: Seq<char>| has_substring(lower_seq(l), lower_seq(query@)),
            );
        }
    }
    proof {
        assert(lines.deep_view().subrange(0, n as int) =~= lines.deep_view());
    }
    res
}

proof fn lemma_filter_subsequence<A>(s: Seq<A>, pred: spec_fn(A) -> bool)
    ensures
        subsequence_of(s.filter(pred), s),
    decreases s.len(),
{
    reveal(Seq::filter);
    if s.len() == 0 {
    } else {
        lemma_filter_subsequence(s.drop_last(), pred);
        if pred(s.last()) {
            let a = s.filter(pred);
            assert(a == s.drop_last().filter(pred).push(s.last()));
            assert(a.last() == s.last());
            assert(a.drop_last() =~= s.drop_last().filter(pred));
        }
    }
}

proof fn lemma_filter_mono<A>(s: Seq<A>, p: spec_fn(A) -> bool, q: spec_fn(A) -> bool)
    requires
        forall|x: A| #[trigger] p(x) ==> q(x),
    ensures
        subsequence_of(s.filter(p), s.filter(q)),
    decreases s.len(),
{
    reveal(Seq::filter);
    if s.len() == 0 {
    } else {
        lemma_filter_mono(s.drop_last(), p, q);
        let a = s.filter(p);
        let b = s.filter(q);
        if p(s.last()) {
            assert(q(s.last()));
            assert(a.last() == s.last() && b.last() == s.last());
            assert(a.drop_last() =~= s.drop_last().filter(p));
            assert(b.drop_last() =~= s.drop_last().filter(q));
        } else if q(s.last()) {
            assert(b.drop_last() =~= s.drop_last().filter(q));
            if a.len() > 0 {
                assert(subsequence_of(a, b.drop_last()));
            }
        }
    }
}

proof fn lemma_subsequence_contains<A>(a: Seq<A>, b: Seq<A>)
    requires
        subsequence_of(a, b),
    ensures
        forall|i: int| 0 <= i < a.len() ==> b.contains(#[trigger] a[i]),
    decreases a.len() + b.len(),
{
    if a.len() == 0 {
    } else if b.len() == 0 {
    } else if a.last() == b.last() && subsequence_of(a.drop_last(), b.drop_last()) {
        lemma_subsequence_contains(a.drop_last(), b.drop_last());
        assert forall|i: int| 0 <= i < a.len() implies b.contains(#[trigger] a[i]) by {
            if i < a.len() - 1 {
                assert(b.drop_last().contains(a.drop_last()[i]));
                let j = choose|j: int|
                    0 <= j < b.drop_last().len() && b.drop_last()[j] == a.drop_last()[i];
                assert(b[j] == a[i]);
            } else {
                assert(b[b.len() - 1] == a[i]);
            }
        }
    } else {
        assert(subsequence_of(a, b.drop_last()));
        lemma_subsequence_contains(a, b.drop_last());
        assert forall|i: int| 0 <= i < a.len() implies b.contains(#[trigger] a[i]) by {
            assert(b.drop_last().contains(a[i]));
            let j = choose|j: int| 0 <= j < b.drop_last().len() && b.drop_last()[j] == a[i];
            assert(b[j] == a[i]);
        }
    }
}

proof fn lemma_filter_all<A>(s: Seq<A>, pred: spec_fn(A) -> bool)
    requires
        forall|i: int| 0 <= i < s.len() ==> pred(#[trigger] s[i]),
    ensures
        s.filter(pred) == s,
    decreases s.len(),
{
    reveal(Seq::filter);
    if s.len() == 0 {
        assert(s.filter(pred) =~= s);
    } else {
        assert forall|i: int| 0 <= i < s.drop_last().len() implies pred(
            #[trigger] s.drop_last()[i],
        ) by {
            assert(pred(s[i]));
        }
        lemma_filter_all(s.drop_last(), pred);
        assert(pred(s[s.len() - 1]));
        assert(s.filter(pred) =~= s);
    }
}

/// Folding both sides to lower case preserves containment: wherever the
/// needle occurred, its folded form occurs in the folded hay.
proof fn lemma_has_substring_lower(hay: Seq<char>, needle: Seq<char>)
    requires
        has_substring(hay, needle),
    ensures
        has_substring(lower_seq(hay), lower_seq(needle)),
{
    let i = choose|i: int| contains_at(hay, needle, i);
    assert(lower_seq(hay).subrange(i, i + needle.len()) =~= lower_seq(needle)) by {
        assert forall|t: int| 0 <= t < needle.len() implies lower_seq(hay)[i + t] == lower_seq(
            needle,
        )[t] by {
            assert(hay.subrange(i, i + needle.len())[t] == needle[t]);
        }
    }
    assert(contains_at(lower_seq(hay), lower_seq(needle), i));
}

/// Every returned line contains the query, every returned line is a line of
/// the corpus, and every line of the corpus that contains the query is
/// returned: the matches are exactly the containing lines.
pub proof fn lemma_search_sound_complete(q: Seq<char>, c: Seq<char>)
    ensures
        forall|i: int|
            0 <= i < match_lines(q, c).len() ==> has_substring(#[trigger] match_lines(q, c)[i], q),
        forall|i: int|
            0 <= i < match_lines(q, c).len() ==> lines_of(c).contains(
                #[trigger] match_lines(q, c)[i],
            ),
        forall|i: int|
            0 <= i < lines_of(c).len() && has_substring(#[trigger] lines_of(c)[i], q)
                ==> match_lines(q, c).contains(lines_of(c)[i]),
{
    let pred = |l: Seq<char>| has_substring(l, q);
    assert forall|i: int| 0 <= i < match_lines(q, c).len() implies has_substring(
        #[trigger] match_lines(q, c)[i],
        q,
    ) by {
        lines_of(c).lemma_filter_pred(pred, i);
    }
    assert forall|i: int|
        0 <= i < lines_of(c).len() && has_substring(
            #[trigger] lines_of(c)[i],
            q,
        ) implies match_lines(q, c).contains(lines_of(c)[i]) by {
        lines_of(c).lemma_filter_contains(pred, i);
    }
    lemma_filter_subsequence(lines_of(c), pred);
    lemma_subsequence_contains(match_lines(q, c), lines_of(c));
}

/// Both searches preserve the corpus's original line order: each result is a
/// subsequence of the corpus's lines.
pub proof fn lemma_search_preserves_order(q: Seq<char>, c: Seq<char>)
    ensures
        subsequence_of(match_lines(q, c), lines_of(c)),
        subsequence_of(match_lines_ci(q, c), lines_of(c)),
{
    lemma_filter_subsequence(lines_of(c), |l: Seq<char>| has_substring(l, q));
    lemma_filter_subsequence(
        lines_of(c),
        |l: Seq<char>| has_substring(lower_seq(l), lower_seq(q)),
    );
}

/// The case-insensitive search returns every line that the exact search
/// returns, in the same order: its result is a superset, as case-folded
/// containment is the weaker condition.
pub proof fn lemma_case_insensitive_superset(q: Seq<char>, c: Seq<char>)
    ensures
        subsequence_of(match_lines(q, c), match_lines_ci(q, c)),
{
    let p = |l: Seq<char>| has_substring(l, q);
    let pf = |l: Seq<char>| has_substring(lower_seq(l), lower_seq(q));
    assert forall|x: Seq<char>| #[trigger] p(x) implies pf(x) by {
        lemma_has_substring_lower(x, q);
    }
    lemma_filter_mono(lines_of(c), p, pf);
}

/// The empty query is contained in every line, so searching for it returns
/// every line of the corpus.
pub proof fn lemma_empty_query_returns_all(c: Seq<char>)
    ensures
        match_lines(Seq::<char>::empty(), c) == lines_of(c),
{
    let pred = |l: Seq<char>| has_substring(l, Seq::<char>::empty());
    assert forall|i: int| 0 <= i < lines_of(c).len() implies pred(#[trigger] lines_of(c)[i]) by {
        let l = lines_of(c)[i];
        assert(l.subrange(0, 0) =~= Seq::<char>::empty());
        assert(contains_at(l, Seq::<char>::empty(), 0));
    }
    lemma_filter_all(lines_of(c), pred);
}

/// Runs the search that the request asks for: exact when `case_sensitive`,
/// case-folded otherwise.
pub fn run_search<'a>(config: &Config, contents: &'a str) -> (res: Vec<&'a str>)
    ensures
        config.case_sensitive ==> res.deep_view() == match_lines(config.query@, contents@),
        !config.case_sensitive ==> res.deep_view() == match_lines_ci(config.query@, contents@),
{
    if config.case_sensitive {
        search(config.query.as_str(), contents)
    } else {
        search_case_insensitive(config.query.as_str(), contents)
    }
}

} // verus!
