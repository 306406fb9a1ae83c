//! Relevance-ranked search over candidate documents.
//!
//! A candidate is a path with its text, or with no text when the file
//! could not be read — an unreadable candidate's content contributes
//! nothing.  Scores are kept in tenths of a point, so every value of the
//! scoring formula is exact: an exact file-stem match scores 200 tenths,
//! a substring match 100; content with any term occurrences scores ten
//! tenths for taking part plus one tenth per occurrence, capped at sixty
//! tenths in all.  Zero-scored candidates are dropped; the rest are
//! ordered by descending score, ties broken by ascending lowercased file
//! stem.

use vstd::prelude::*;
use crate::entry::RecipeEntryError;
use crate::paths::{file_name_of, file_stem_of, file_stem};
use crate::text::{
    lower_of, lowercase, tokens_of, split_tokens, contains_seq, contains_str, count_occurrences,
    count_str, str_eq, lex_le, lemma_lex_le_total, lemma_lex_le_trans, str_lex_le, lines_of,
    split_lines,
};

verus! {

/// One scored candidate.  The score is in tenths of a point.
#[derive(Debug, Clone)]
pub struct SearchResult {
    pub path: String,
    pub score: u64,
}

impl SearchResult {
    /// A fresh result with no score yet.
    pub fn new(path: String) -> (r: SearchResult)
        ensures
            r.path@ == path@,
            r.score == 0,
    {
        SearchResult { path, score: 0 }
    }

    /// Adds points to the score.
    pub fn add_score(&mut self, points: u64)
        requires
            old(self).score + points <= u64::MAX,
        ensures
            final(self).score == old(self).score + points,
            final(self).path@ == old(self).path@,
    {
        self.score = self.score + points;
    }
}

/// What can go wrong during a search.
#[derive(Debug, Clone)]
pub enum SearchError {
    /// A directory could not be read.
    GlobError(String),
    /// A search pattern could not be built.
    PatternError(String),
    /// A selected document could not be loaded.
    RecipeEntryError(RecipeEntryError),
    /// A file could not be read.
    IoError(String),
}

/// The filename signal, in tenths: 200 for an exact stem match, 100 for
/// a substring match, else 0; a path without a file name scores 0.
pub open spec fn filename_points(p: Seq<char>, query_l: Seq<char>) -> int {
    if file_name_of(p).len() == 0 {
        0
    } else {
        let sl = lower_of(file_stem_of(p));
        if sl == query_l {
            200
        } else if contains_seq(sl, query_l) {
            100
        } else {
            0
        }
    }
}

/// Occurrences of the terms from `j` on in one lowercased line.
pub open spec fn line_occ(line_l: Seq<char>, terms: Seq<Seq<char>>, j: int) -> int
    decreases terms.len() - j,
{
    if j < 0 || j >= terms.len() {
        0
    } else {
        count_occurrences(line_l, terms[j]) + line_occ(line_l, terms, j + 1)
    }
}

/// Occurrences of all terms in the lowercased lines from `i` on.
pub open spec fn text_occ(lines: Seq<Seq<char>>, terms: Seq<Seq<char>>, i: int) -> int
    decreases lines.len() - i,
{
    if i < 0 || i >= lines.len() {
        0
    } else {
        line_occ(lower_of(lines[i]), terms, 0) + text_occ(lines, terms, i + 1)
    }
}

/// Occurrences of all terms anywhere in the text, line by line,
/// overlapping ones included.
pub open spec fn content_occurrences(s: Seq<char>, terms: Seq<Seq<char>>) -> int {
    text_occ(lines_of(s), terms, 0)
}

/// The occurrence count clamped just above the score cap.
pub open spec fn clamp51(x: int) -> int {
    if x > 51 {
        51
    } else {
        x
    }
}

/// The content signal, in tenths: nothing without an occurrence, else
/// ten tenths for taking part plus one tenth per occurrence, capped at
/// fifty tenths of density bonus.
pub open spec fn content_points(occ: int) -> int {
    if occ == 0 {
        0
    } else {
        10 + (if occ > 50 {
            50
        } else {
            occ
        })
    }
}

/// The content signal is nothing exactly on zero occurrences, and
/// otherwise lies between eleven and sixty tenths.
pub proof fn lemma_content_points_range(occ: int)
    requires
        occ >= 0,
    ensures
        (content_points(occ) == 0) <==> (occ == 0),
        occ > 0 ==> 11 <= content_points(occ) <= 60,
{
}

/// More occurrences never score less: the content signal is monotone.
pub proof fn lemma_content_points_monotone(a: int, b: int)
    requires
        0 <= a <= b,
    ensures
        content_points(a) <= content_points(b),
{
}

/// The content signal of a candidate's text, when it could be read.
pub open spec fn content_points_of(t: Option<Seq<char>>, terms: Seq<Seq<char>>) -> int {
    match t {
        None => 0,
        Some(s) => content_points(content_occurrences(s, terms)),
    }
}

/// The total score of one candidate, in tenths.
pub open spec fn score_of(p: Seq<char>, t: Option<Seq<char>>, query: Seq<char>) -> int {
    filename_points(p, lower_of(query)) + content_points_of(t, tokens_of(lower_of(query)))
}

proof fn lemma_line_occ_nonneg(line_l: Seq<char>, terms: Seq<Seq<char>>, j: int)
    ensures
        line_occ(line_l, terms, j) >= 0,
    decreases terms.len() - j,
{
    if 0 <= j < terms.len() {
        lemma_line_occ_nonneg(line_l, terms, j + 1);
    }
}

proof fn lemma_text_occ_nonneg(lines: Seq<Seq<char>>, terms: Seq<Seq<char>>, i: int)
    ensures
        text_occ(lines, terms, i) >= 0,
    decreases lines.len() - i,
{
    if 0 <= i < lines.len() {
        lemma_line_occ_nonneg(lower_of(lines[i]), terms, 0);
        lemma_text_occ_nonneg(lines, terms, i + 1);
    }
}

/// The filename signal of a candidate against the lowercased query.
pub fn score_filename_match(path: &str, query_l: &str) -> (r: u64)
    ensures
        r as int == filename_points(path@, query_l@),
{
    match file_stem(path) {
        None => 0,
        Some(stem) => {
            let sl = lowercase(stem.as_str());
            if str_eq(sl.as_str(), query_l) {
                200
            } else if contains_str(sl.as_str(), query_l) {
                100
            } else {
                0
            }
        },
    }
}

/// Counts the terms' occurrences in the text, clamped just above the
/// score cap so that the count stays small while the score formula is
/// kept exact.
pub fn count_matches(text: &str, terms: &Vec<String>) -> (r: u64)
    requires
        forall|k: int| 0 <= k < terms.deep_view().len() ==> #[trigger] terms.deep_view()[k].len()
            > 0,
    ensures
        r as int == clamp51(content_occurrences(text@, terms.deep_view())),
{
    let ghost ts = terms.deep_view();
    let lines = split_lines(text);
    let ghost lns = lines_of(text@);
    let mut acc: u64 = 0;
    let mut i: usize = 0;
    proof {
        lemma_text_occ_nonneg(lns, ts, 0);
    }
    while i < lines.len()
        invariant
            i <= lines.len(),
            acc <= 51,
            lines.deep_view() == lns,
            lines.deep_view().len() == lines.len(),
            ts == terms.deep_view(),
            forall|k: int| 0 <= k < ts.len() ==> #[trigger] ts[k].len() > 0,
            acc as int == clamp51(text_occ(lns, ts, 0) - text_occ(lns, ts, i as int)),
            text_occ(lns, ts, 0) - text_occ(lns, ts, i as int) >= 0,
        decreases lines.len() - i,
    {
        proof {
            assert(lns[i as int] == lines@[i as int]@);
            lemma_line_occ_nonneg(lower_of(lns[i as int]), ts, 0);
            lemma_text_occ_nonneg(lns, ts, i + 1);
        }
        let low = lowercase(lines[i].as_str());
        let mut line_acc: u64 = 0;
        let mut j: usize = 0;
        while j < terms.len()
            invariant
                j <= terms.len(),
                line_acc <= 51,
                low@ == lower_of(lns[i as int]),
                0 <= i < lns.len(),
                ts == terms.deep_view(),
                ts.len() == terms.len(),
                forall|k: int| 0 <= k < ts.len() ==> #[trigger] ts[k].len() > 0,
                line_acc as int == clamp51(
                    line_occ(low@, ts, 0) - line_occ(low@, ts, j as int),
                ),
                line_occ(low@, ts, 0) - line_occ(low@, ts, j as int) >= 0,
            decreases terms.len() - j,
        {
            proof {
                assert(ts[j as int] == terms@[j as int]@);
                lemma_line_occ_nonneg(low@, ts, j + 1);
            }
            let cnt = count_str(low.as_str(), terms[j].as_str());
            if cnt > 51 - line_acc as usize {
                line_acc = 51;
            } else {
                line_acc = line_acc + cnt as u64;
                if line_acc > 51 {
                    line_acc = 51;
                }
            }
            j = j + 1;
        }
        proof {
            assert(line_occ(low@, ts, terms.len() as int) == 0);
            assert(line_acc as int == clamp51(line_occ(lower_of(lns[i as int]), ts, 0)));
            assert(text_occ(lns, ts, i as int) == line_occ(lower_of(lns[i as int]), ts, 0)
                + text_occ(lns, ts, i + 1));
        }
        if line_acc > 51 - acc {
            acc = 51;
        } else {
            acc = acc + line_acc;
            if acc > 51 {
                acc = 51;
            }
        }
        i = i + 1;
    }
    proof {
        assert(text_occ(lns, ts, lines.len() as int) == 0);
    }
    acc
}

/// The content signal of a candidate's text against the query terms.
pub fn score_content_matches(text: &str, terms: &Vec<String>) -> (r: u64)
    requires
        forall|k: int| 0 <= k < terms.deep_view().len() ==> #[trigger] terms.deep_view()[k].len()
            > 0,
    ensures
        r as int == content_points(content_occurrences(text@, terms.deep_view())),
{
    let m = count_matches(text, terms);
    if m == 0 {
        0
    } else if m > 50 {
        60
    } else {
        10 + m
    }
}

/// The tie-break key: the lowercased file stem, or the lowercased empty
/// string for a path without one.
pub open spec fn stem_key(p: Seq<char>) -> Seq<char> {
    lower_of(
        if file_name_of(p).len() > 0 {
            file_stem_of(p)
        } else {
            Seq::empty()
        },
    )
}

/// The ranking order on scored candidates: higher score first, ties by
/// ascending stem key.
pub open spec fn rank_le(a: (Seq<char>, int), b: (Seq<char>, int)) -> bool {
    a.1 > b.1 || (a.1 == b.1 && lex_le(stem_key(a.0), stem_key(b.0)))
}

/// The ranking order is total.
pub proof fn lemma_rank_le_total(a: (Seq<char>, int), b: (Seq<char>, int))
    ensures
        rank_le(a, b) || rank_le(b, a),
{
    if a.1 == b.1 {
        lemma_lex_le_total(stem_key(a.0), stem_key(b.0));
    }
}

/// The ranking order is transitive.
pub proof fn lemma_rank_le_trans(a: (Seq<char>, int), b: (Seq<char>, int), c: (Seq<char>, int))
    requires
        rank_le(a, b),
        rank_le(b, c),
    ensures
        rank_le(a, c),
{
    if a.1 == b.1 && b.1 == c.1 {
        lemma_lex_le_trans(stem_key(a.0), stem_key(b.0), stem_key(c.0));
    }
}

/// The view of one scored result.
pub open spec fn result_view(r: SearchResult) -> (Seq<char>, int) {
    (r.path@, r.score as int)
}

/// The views of a list of scored results.
pub open spec fn result_views(rs: Seq<SearchResult>) -> Seq<(Seq<char>, int)> {
    rs.map_values(|r: SearchResult| result_view(r))
}

/// Compares two results in ranking order.
fn rank_le_exec(a: &SearchResult, b: &SearchResult) -> (r: bool)
    ensures
        r == rank_le(result_view(*a), result_view(*b)),
{
    if a.score > b.score {
        true
    } else if a.score < b.score {
        false
    } else {
        let sa = match file_stem(a.path.as_str()) {
            Some(s) => s,
            None => String::new(),
        };
        let sb = match file_stem(b.path.as_str()) {
            Some(s) => s,
            None => String::new(),
        };
        let la = lowercase(sa.as_str());
        let lb = lowercase(sb.as_str());
        str_lex_le(la.as_str(), lb.as_str())
    }
}

/// Sorts results by descending score, ties by ascending lowercased stem;
/// the contents are kept as a multiset.
pub fn sort_results(v: &mut Vec<SearchResult>)
    ensures
        final(v)@.len() == old(v)@.len(),
        result_views(final(v)@).to_multiset() == result_views(old(v)@).to_multiset(),
        forall|a: int, b: int|
            0 <= a < b < final(v)@.len() ==> rank_le(
                result_view(#[trigger] final(v)@[a]),
                result_view(#[trigger] final(v)@[b]),
            ),
{
    let ghost orig = result_views(v@);
    let n = v.len();
    if n == 0 {
        return ;
    }
    let mut i: usize = 1;
    while i < n
        invariant
            1 <= i <= n,
            n == v@.len(),
            result_views(v@).to_multiset() == orig.to_multiset(),
            forall|a: int, b: int|
                0 <= a < b < i ==> rank_le(
                    result_view(#[trigger] v@[a]),
                    result_view(#[trigger] v@[b]),
                ),
        decreases n - i,
    {
        let mut j: usize = i;
        while j > 0 && !rank_le_exec(&v[j - 1], &v[j])
            invariant
                0 <= j <= i < n,
                n == v@.len(),
                result_views(v@).to_multiset() == orig.to_multiset(),
                forall|a: int, b: int|
                    0 <= a < b <= i && b != j ==> rank_le(
                        result_view(#[trigger] v@[a]),
                        result_view(#[trigger] v@[b]),
                    ),
            decreases j,
        {
            let ghost before = v@;
            let x = v.remove(j);
            v.insert(j - 1, x);
            proof {
                broadcast use vstd::seq_lib::group_seq_properties;

                assert(v@ =~= before.update(j - 1, before[j as int]).update(
                    j as int,
                    before[j - 1],
                ));
                lemma_swap_multiset(before, v@, j - 1, j as int);
                assert forall|a: int, b: int|
                    0 <= a < b <= i && b != j - 1 implies rank_le(
                    result_view(v@[a]),
                    result_view(v@[b]),
                ) by {
                    lemma_rank_le_total(
                        result_view(before[j - 1]),
                        result_view(before[j as int]),
                    );
                    if a == j - 1 || a == j {
                        if b == j {
                            assert(rank_le(result_view(v@[a]), result_view(v@[b])));
                        }
                    }
                }
            }
            j = j - 1;
        }
        proof {
            assert forall|a: int, b: int| 0 <= a < b <= i implies rank_le(
                result_view(v@[a]),
                result_view(v@[b]),
            ) by {
                if b == j {
                    if j > 0 {
                        if a < j - 1 {
                            lemma_rank_le_trans(
                                result_view(v@[a]),
                                result_view(v@[j - 1]),
                                result_view(v@[b]),
                            );
                        }
                    }
                }
            }
        }
        i = i + 1;
    }
}

/// Swapping two positions keeps the multiset of views.
proof fn lemma_swap_multiset(s1: Seq<SearchResult>, s2: Seq<SearchResult>, a: int, b: int)
    requires
        0 <= a < b < s1.len(),
        s2 == s1.update(a, s1[b]).update(b, s1[a]),
    ensures
        result_views(s2).to_multiset() == result_views(s1).to_multiset(),
{
    let v1 = result_views(s1);
    let v2 = result_views(s2);
    assert(v2 =~= v1.update(a, v1[b]).update(b, v1[a]));
    lemma_multisets_by_remove(v1, v2, a, b);
}

/// A sequence with two of its elements exchanged keeps its multiset.
pub proof fn lemma_multisets_by_remove<T>(v: Seq<T>, w: Seq<T>, a: int, b: int)
    requires
        0 <= a < b < v.len(),
        w == v.update(a, v[b]).update(b, v[a]),
    ensures
        w.to_multiset() == v.to_multiset(),
{
    broadcast use vstd::seq_lib::group_to_multiset_ensures;
    broadcast use vstd::multiset::group_multiset_axioms;
    broadcast use vstd::multiset::group_multiset_properties;

    let bw = w.remove(b);
    let bv = v.remove(b);
    let baw = bw.remove(a);
    let bav = bv.remove(a);
    assert(baw =~= bav);
    assert(w.contains(w[b]));
    assert(bw.contains(bw[a]));
    assert(v.contains(v[b]));
    assert(bv.contains(bv[a]));
    assert(bw[a] == w[a]);
    assert(bv[a] == v[a]);
    assert(w[a] == v[b] && w[b] == v[a]);
    assert forall|y: T| w.to_multiset().count(y) == v.to_multiset().count(y) by {
        assert(bw.to_multiset() =~= w.to_multiset().remove(w[b]));
        assert(baw.to_multiset() =~= bw.to_multiset().remove(bw[a]));
        assert(bv.to_multiset() =~= v.to_multiset().remove(v[b]));
        assert(bav.to_multiset() =~= bv.to_multiset().remove(bv[a]));
        assert(w.to_multiset().count(w[b]) > 0);
        assert(bw.to_multiset().count(bw[a]) > 0);
        assert(v.to_multiset().count(v[b]) > 0);
        assert(bv.to_multiset().count(bv[a]) > 0);
    }
    assert(w.to_multiset() =~= v.to_multiset());
}

/// The candidates that score, each with its score, in candidate order.
pub open spec fn filtered_scored(
    cands: Seq<(Seq<char>, Option<Seq<char>>)>,
    q: Seq<char>,
) -> Seq<(Seq<char>, int)>
    decreases cands.len(),
{
    if cands.len() == 0 {
        Seq::empty()
    } else {
        let s = score_of(cands[0].0, cands[0].1, q);
        (if s > 0 {
            seq![(cands[0].0, s)]
        } else {
            Seq::empty()
        }) + filtered_scored(cands.subrange(1, cands.len() as int), q)
    }
}

/// Every scored candidate kept has a positive score.
pub proof fn lemma_filtered_positive(cands: Seq<(Seq<char>, Option<Seq<char>>)>, q: Seq<char>)
    ensures
        forall|k: int|
            0 <= k < filtered_scored(cands, q).len() ==> #[trigger] filtered_scored(
                cands,
                q,
            )[k].1 > 0,
    decreases cands.len(),
{
    if cands.len() > 0 {
        lemma_filtered_positive(cands.subrange(1, cands.len() as int), q);
        let out = filtered_scored(cands, q);
        let rest = filtered_scored(cands.subrange(1, cands.len() as int), q);
        let s = score_of(cands[0].0, cands[0].1, q);
        assert forall|k: int| 0 <= k < out.len() implies #[trigger] out[k].1 > 0 by {
            if s > 0 {
                if k > 0 {
                    assert(out[k] == rest[k - 1]);
                }
            } else {
                assert(out[k] == rest[k]);
            }
        }
    }
}

/// Scores every candidate against the query, drops the scoreless, and
/// returns the rest ordered by descending score, ties by ascending
/// lowercased stem.
pub fn rank_candidates(candidates: &Vec<(String, Option<String>)>, query: &str) -> (r: Vec<
    SearchResult,
>)
    ensures
        result_views(r@).to_multiset() == filtered_scored(
            candidates.deep_view(),
            query@,
        ).to_multiset(),
        forall|k: int| 0 <= k < r@.len() ==> #[trigger] r@[k].score > 0,
        forall|a: int, b: int|
            0 <= a < b < r@.len() ==> rank_le(
                result_view(#[trigger] r@[a]),
                result_view(#[trigger] r@[b]),
            ),
{
    let ghost cs = candidates.deep_view();
    let query_l = lowercase(query);
    let terms = split_tokens(query_l.as_str());
    let mut out: Vec<SearchResult> = Vec::new();
    let mut i: usize = 0;
    proof {
        assert(cs.subrange(0, cs.len() as int) =~= cs);
        assert(result_views(out@) =~= Seq::<(Seq<char>, int)>::empty());
        assert(result_views(out@) + filtered_scored(cs.subrange(0, cs.len() as int), query@)
            =~= filtered_scored(cs, query@));
    }
    while i < candidates.len()
        invariant
            i <= candidates.len(),
            cs == candidates.deep_view(),
            cs.len() == candidates.len(),
            query_l@ == lower_of(query@),
            terms.deep_view() == tokens_of(lower_of(query@)),
            forall|k: int| 0 <= k < terms.deep_view().len()
                ==> #[trigger] terms.deep_view()[k].len() > 0,
            result_views(out@) + filtered_scored(
                cs.subrange(i as int, cs.len() as int),
                query@,
            ) =~= filtered_scored(cs, query@),
        decreases candidates.len() - i,
    {
        let ghost rest = cs.subrange(i as int, cs.len() as int);
        proof {
            assert(rest[0] == cs[i as int]);
            assert(cs[i as int] == (candidates@[i as int].0@, candidates@[
                i as int
            ].1.deep_view()));
            assert(rest.subrange(1, rest.len() as int) =~= cs.subrange(
                i + 1,
                cs.len() as int,
            ));
        }
        let fp = score_filename_match(candidates[i].0.as_str(), query_l.as_str());
        let cp: u64 = match &candidates[i].1 {
            Some(t) => score_content_matches(t.as_str(), &terms),
            None => 0,
        };
        let total = fp + cp;
        let ghost old_views = result_views(out@);
        if total > 0 {
            out.push(SearchResult { path: candidates[i].0.clone(), score: total });
            proof {
                assert(result_views(out@) =~= old_views.push(
                    (cs[i as int].0, total as int),
                ));
                assert(total as int == score_of(cs[i as int].0, cs[i as int].1, query@));
            }
        }
        i = i + 1;
    }
    proof {
        assert(filtered_scored(cs.subrange(cs.len() as int, cs.len() as int), query@)
            =~= Seq::<(Seq<char>, int)>::empty());
        assert(result_views(out@) =~= filtered_scored(cs, query@));
        assert(result_views(out@).to_multiset() =~= filtered_scored(cs, query@).to_multiset());
        assert forall|k: int| 0 <= k < out@.len() implies #[trigger] out@[k].score > 0 by {
            lemma_filtered_positive(cs, query@);
            assert(result_views(out@)[k] == result_view(out@[k]));
            assert(result_views(out@)[k] == filtered_scored(cs, query@)[k]);
            assert(filtered_scored(cs, query@)[k].1 > 0);
        }
    }
    let ghost pre_sort = out@;
    sort_results(&mut out);
    proof {
        broadcast use vstd::seq_lib::group_to_multiset_ensures;

        assert forall|k: int| 0 <= k < out@.len() implies #[trigger] out@[k].score > 0 by {
            lemma_filtered_positive(cs, query@);
            let y = result_views(out@)[k];
            assert(y == result_view(out@[k]));
            assert(result_views(out@).contains(y));
            assert(result_views(out@).to_multiset().count(y) > 0);
            assert(filtered_scored(cs, query@).to_multiset().count(y) > 0);
            assert(filtered_scored(cs, query@).contains(y));
            let j = choose|j: int|
                0 <= j < filtered_scored(cs, query@).len() && filtered_scored(cs, query@)[j]
                    == y;
            assert(filtered_scored(cs, query@)[j].1 > 0);
        }
    }
    out
}

/// The paths of the ranked candidates, most relevant first: there is a
/// scoring of the candidates — the positive-scored ones, ordered by
/// descending score with ties by ascending lowercased stem — whose paths
/// these are.
pub fn search_paths(candidates: &Vec<(String, Option<String>)>, query: &str) -> (r: Vec<
    String,
>)
    ensures
        exists|scored: Seq<(Seq<char>, int)>|
            {
                &&& #[trigger] scored.to_multiset() == filtered_scored(
                    candidates.deep_view(),
                    query@,
                ).to_multiset()
                &&& forall|a: int, b: int|
                    0 <= a < b < scored.len() ==> rank_le(
                        #[trigger] scored[a],
                        #[trigger] scored[b],
                    )
                &&& forall|k: int| 0 <= k < scored.len() ==> (#[trigger] scored[k]).1 > 0
                &&& r.deep_view() == scored.map_values(|x: (Seq<char>, int)| x.0)
            },
{
    let ranked = rank_candidates(candidates, query);
    let mut r: Vec<String> = Vec::new();
    let mut i: usize = 0;
    while i < ranked.len()
        invariant
            i <= ranked.len(),
            r.deep_view() =~= result_views(ranked@).map_values(
                |x: (Seq<char>, int)| x.0,
            ).subrange(0, i as int),
        decreases ranked.len() - i,
    {
        let ghost old_r = r.deep_view();
        r.push(ranked[i].path.clone());
        proof {
            let mapped = result_views(ranked@).map_values(|x: (Seq<char>, int)| x.0);
            assert(result_views(ranked@)[i as int] == result_view(ranked@[i as int]));
            assert(mapped[i as int] == result_views(ranked@)[i as int].0);
            assert(r.deep_view() =~= old_r.push(ranked@[i as int].path@));
            assert(mapped.subrange(0, i + 1) =~= mapped.subrange(0, i as int).push(
                mapped[i as int],
            ));
            assert(r.deep_view() =~= mapped.subrange(0, i + 1));
        }
        i = i + 1;
    }
    proof {
        let scored = result_views(ranked@);
        assert(scored.map_values(|x: (Seq<char>, int)| x.0).subrange(
            0,
            ranked.len() as int,
        ) =~= scored.map_values(|x: (Seq<char>, int)| x.0));
        assert forall|k: int| 0 <= k < scored.len() implies (#[trigger] scored[k]).1 > 0 by {
            assert(scored[k] == result_view(ranked@[k]));
        }
        assert forall|a: int, b: int| 0 <= a < b < scored.len() implies rank_le(
            #[trigger] scored[a],
            #[trigger] scored[b],
        ) by {
            assert(scored[a] == result_view(ranked@[a]));
            assert(scored[b] == result_view(ranked@[b]));
        }
    }
    r
}

/// Holding the content signal fixed, an exact stem match outranks a
/// substring match, and a substring match outranks no filename match.
pub proof fn lemma_filename_signal_order(
    p1: Seq<char>,
    p2: Seq<char>,
    p3: Seq<char>,
    t: Option<Seq<char>>,
    q: Seq<char>,
)
    requires
        file_name_of(p1).len() > 0,
        lower_of(file_stem_of(p1)) == lower_of(q),
        file_name_of(p2).len() > 0,
        lower_of(file_stem_of(p2)) != lower_of(q),
        contains_seq(lower_of(file_stem_of(p2)), lower_of(q)),
        file_name_of(p3).len() == 0 || (lower_of(file_stem_of(p3)) != lower_of(q)
            && !contains_seq(lower_of(file_stem_of(p3)), lower_of(q))),
    ensures
        score_of(p1, t, q) > score_of(p2, t, q),
        score_of(p2, t, q) > score_of(p3, t, q),
{
}

} // verus!

