//! Case-insensitive subsequence fuzzy matching and scoring.
//!
//! A candidate matches a query when the query's characters appear in
//! the candidate in the same relative order, compared without regard
//! to ASCII case; the matched positions are the earliest possible
//! (greedy from the left). A match's score rewards early positions,
//! runs of consecutive matches (the longer the run, the larger the
//! bonus, up to a cap), and matches that start a word: the first
//! character, or one right after a non-alphanumeric separator.

use vstd::prelude::*;

use crate::text::{is_alnum, lower_char, views};

verus! {

/// The first position at or after `from` whose character matches
/// `ch` without regard to case, or the candidate's length when there
/// is none.
pub open spec fn first_pos(c: Seq<char>, ch: char, from: int) -> int
    decreases c.len() - from,
{
    if from < 0 || from >= c.len() {
        c.len() as int
    } else if lower_char(c[from]) == lower_char(ch) {
        from
    } else {
        first_pos(c, ch, from + 1)
    }
}

pub proof fn lemma_first_pos(c: Seq<char>, ch: char, from: int)
    requires
        0 <= from <= c.len(),
    ensures
        from <= first_pos(c, ch, from) <= c.len(),
        first_pos(c, ch, from) < c.len() ==> lower_char(c[first_pos(c, ch, from)]) == lower_char(
            ch,
        ),
        forall|k: int| from <= k < first_pos(c, ch, from) ==> lower_char(c[k]) != lower_char(ch),
    decreases c.len() - from,
{
    if from < c.len() && lower_char(c[from]) != lower_char(ch) {
        lemma_first_pos(c, ch, from + 1);
    }
}

/// The greedy matched positions for `q[qi..]` within `c`, searching
/// from `from`: each query character takes the earliest position
/// after the previous one, or the whole match fails.
pub open spec fn greedy_from(q: Seq<char>, c: Seq<char>, qi: int, from: int) -> Option<Seq<int>>
    decreases q.len() - qi,
{
    if qi < 0 || qi >= q.len() {
        Some(seq![])
    } else {
        let p = first_pos(c, q[qi], from);
        if p >= c.len() {
            None
        } else {
            match greedy_from(q, c, qi + 1, p + 1) {
                Some(rest) => Some(seq![p] + rest),
                None => None,
            }
        }
    }
}

/// The matched positions of the whole query, or `None` when the
/// query is not a subsequence of the candidate.
pub open spec fn match_positions(q: Seq<char>, c: Seq<char>) -> Option<Seq<int>> {
    greedy_from(q, c, 0, 0)
}

/// Whether the candidate matches the query.
pub open spec fn fuzzy_matches(q: Seq<char>, c: Seq<char>) -> bool {
    match_positions(q, c) is Some
}

/// Reward for an early match position, fading to nothing by position
/// eight.
pub open spec fn pos_bonus(p: int) -> int {
    if 0 <= p < 8 {
        2 * (8 - p)
    } else {
        0
    }
}

/// Reward for a match that starts a word: the candidate's first
/// character, or one right after a non-alphanumeric separator.
pub open spec fn boundary_bonus(c: Seq<char>, p: int) -> int {
    if p == 0 || (0 < p < c.len() && !is_alnum(c[p - 1])) {
        12
    } else {
        0
    }
}

/// The score of the matched positions `ps[k..]`, where `run` is the
/// length of the consecutive run ending just before `ps[k]`, capped
/// at four.
pub open spec fn score_go(c: Seq<char>, ps: Seq<int>, k: int, run: int) -> int
    decreases ps.len() - k,
{
    if k < 0 || k >= ps.len() {
        0
    } else {
        let consec = k > 0 && ps[k] == ps[k - 1] + 1;
        let r2: int = if consec {
            if run < 4 {
                run + 1
            } else {
                4
            }
        } else {
            0
        };
        pos_bonus(ps[k]) + boundary_bonus(c, ps[k]) + 6 * r2 + score_go(c, ps, k + 1, r2)
    }
}

/// The score of a match's positions within a candidate.
pub open spec fn score_of(c: Seq<char>, ps: Seq<int>) -> int {
    score_go(c, ps, 0, 0)
}

/// The score of a candidate against a query: the score of the greedy
/// match, or zero when there is none.
pub open spec fn fuzzy_score(q: Seq<char>, c: Seq<char>) -> int {
    match match_positions(q, c) {
        Some(ps) => score_of(c, ps),
        None => 0,
    }
}

/// Every per-character reward lies between 0 and 52, so a whole
/// score lies between 0 and 52 per matched character.
pub proof fn lemma_score_go_bounds(c: Seq<char>, ps: Seq<int>, k: int, run: int)
    requires
        0 <= k <= ps.len(),
        0 <= run,
    ensures
        0 <= score_go(c, ps, k, run) <= 52 * (ps.len() - k),
    decreases ps.len() - k,
{
    if k < ps.len() {
        let consec = k > 0 && ps[k] == ps[k - 1] + 1;
        let r2: int = if consec {
            if run < 4 {
                run + 1
            } else {
                4
            }
        } else {
            0
        };
        lemma_score_go_bounds(c, ps, k + 1, r2);
    }
}

proof fn lemma_first_pos_absent(c: Seq<char>, ch: char, from: int)
    requires
        0 <= from,
        forall|j: int| 0 <= j < c.len() ==> lower_char(#[trigger] c[j]) != lower_char(ch),
    ensures
        first_pos(c, ch, from) == c.len(),
    decreases c.len() - from,
{
    if from < c.len() {
        lemma_first_pos_absent(c, ch, from + 1);
    }
}

proof fn lemma_greedy_fails_on_absent(q: Seq<char>, c: Seq<char>, qi: int, from: int, i: int)
    requires
        0 <= qi <= i < q.len(),
        0 <= from,
        forall|j: int| 0 <= j < c.len() ==> lower_char(#[trigger] c[j]) != lower_char(q[i]),
    ensures
        greedy_from(q, c, qi, from) is None,
    decreases i - qi,
{
    if qi == i {
        lemma_first_pos_absent(c, q[i], from);
    } else {
        let p = first_pos(c, q[qi], from);
        if p < c.len() {
            assert(from <= c.len());
            lemma_first_pos(c, q[qi], from);
            lemma_greedy_fails_on_absent(q, c, qi + 1, p + 1, i);
        }
    }
}

/// A query with a character that appears nowhere in a candidate
/// (without regard to case) excludes that candidate entirely.
pub proof fn lemma_absent_char_excludes(q: Seq<char>, c: Seq<char>, i: int)
    requires
        0 <= i < q.len(),
        forall|j: int| 0 <= j < c.len() ==> lower_char(#[trigger] c[j]) != lower_char(q[i]),
    ensures
        !fuzzy_matches(q, c),
{
    lemma_greedy_fails_on_absent(q, c, 0, 0, i);
}

/// The empty query matches every candidate, with a neutral score.
pub proof fn lemma_empty_query_matches(c: Seq<char>)
    ensures
        fuzzy_matches(Seq::<char>::empty(), c),
        fuzzy_score(Seq::<char>::empty(), c) == 0,
{
    assert(match_positions(Seq::<char>::empty(), c) == Some(Seq::<int>::empty())) by {
        assert(Seq::<int>::empty() =~= seq![]);
    }
}

/// One ranked entry: which candidate, its length in characters, its
/// score, and the matched positions for highlighting.
pub struct Ranked {
    pub idx: usize,
    pub clen: usize,
    pub score: u128,
    pub positions: Vec<usize>,
}

/// The matched positions as mathematical integers.
pub open spec fn pos_view(ps: Seq<usize>) -> Seq<int> {
    ps.map_values(|p: usize| p as int)
}

fn find_from(c: &str, ch: char, from: usize) -> (r: usize)
    requires
        from <= c@.len(),
    ensures
        r as int == first_pos(c@, ch, from as int),
        from <= r <= c@.len(),
    {
    let n = c.unicode_len();
    let mut i = from;
    let lch = crate::text::to_lower(ch);
    while i < n
        invariant
            n == c@.len(),
            from <= i <= n,
            lch == lower_char(ch),
            first_pos(c@, ch, from as int) == first_pos(c@, ch, i as int),
        decreases n - i,
    {
        let cc = crate::text::to_lower(c.get_char(i));
        if cc == lch {
            return i;
        }
        i = i + 1;
    }
    n
}

/// Matches one candidate against the query: the greedy positions and
/// their score, or nothing when the query is not a subsequence of
/// the candidate. `idx` is the candidate's place in the input order,
/// carried through for ranking.
pub fn match_candidate(q: &Vec<char>, c: &str, idx: usize) -> (r: Option<Ranked>)
    ensures
        r is Some <==> fuzzy_matches(q@, c@),
        r matches Some(m) ==> {
            &&& m.idx == idx
            &&& m.clen == c@.len()
            &&& match_positions(q@, c@) == Some(pos_view(m.positions@))
            &&& m.score as int == fuzzy_score(q@, c@)
        },
{
    let n = q.len();
    let clen = c.unicode_len();
    let mut positions: Vec<usize> = Vec::new();
    let mut qi: usize = 0;
    let mut from: usize = 0;
    proof {
        assert(pos_view(positions@) =~= Seq::<int>::empty());
    }
    while qi < n
        invariant
            n == q@.len(),
            clen == c@.len(),
            qi <= n,
            from <= clen,
            positions@.len() == qi,
            forall|m: int| 0 <= m < positions@.len() ==> (#[trigger] positions@[m]) < clen,
            match greedy_from(q@, c@, qi as int, from as int) {
                Some(rest) => match_positions(q@, c@) == Some(pos_view(positions@) + rest),
                None => greedy_from(q@, c@, 0, 0) is None,
            },
        decreases n - qi,
    {
        let p = find_from(c, q[qi], from);
        if p == clen {
            return None;
        }
        let ghost pre = positions@;
        positions.push(p);
        proof {
            assert(pos_view(positions@) =~= pos_view(pre) + seq![p as int]);
            let rest = greedy_from(q@, c@, qi as int, from as int)->Some_0;
            let rest2 = greedy_from(q@, c@, qi as int + 1, p as int + 1);
            if rest2 is Some {
                assert(rest == seq![p as int] + rest2->Some_0);
                assert(pos_view(pre) + rest =~= pos_view(positions@) + rest2->Some_0);
            }
        }
        from = p + 1;
        qi = qi + 1;
    }
    proof {
        assert(greedy_from(q@, c@, qi as int, from as int) == Some(Seq::<int>::empty())) by {
            assert(Seq::<int>::empty() =~= seq![]);
        }
        assert(pos_view(positions@) + Seq::<int>::empty() =~= pos_view(positions@));
        assert(match_positions(q@, c@) == Some(pos_view(positions@)));
    }
    // Score the matched positions.
    let ghost psv = pos_view(positions@);
    let mut score: u128 = 0;
    let mut run: usize = 0;
    let mut k: usize = 0;
    proof {
        lemma_score_go_bounds(c@, psv, 0, 0);
    }
    while k < n
        invariant
            n == q@.len(),
            clen == c@.len(),
            positions@.len() == n,
            psv == pos_view(positions@),
            forall|m: int| 0 <= m < positions@.len() ==> (#[trigger] positions@[m]) < clen,
            k <= n,
            run <= 4,
            score as int + score_go(c@, psv, k as int, run as int) == score_of(c@, psv),
            score as int <= 52 * (k as int),
        decreases n - k,
    {
        let p = positions[k];
        let consec = k > 0 && positions[k - 1] + 1 == p;
        run = if consec {
            if run < 4 {
                run + 1
            } else {
                4
            }
        } else {
            0
        };
        let mut add: u128 = 0;
        if p < 8 {
            add = add + 2 * ((8 - p) as u128);
        }
        if p == 0 {
            add = add + 12;
        } else {
            let prev = c.get_char(p - 1);
            if !crate::text::is_alnum_char(prev) {
                add = add + 12;
            }
        }
        add = add + 6 * (run as u128);
        proof {
            assert(add as int == pos_bonus(psv[k as int]) + boundary_bonus(c@, psv[k as int]) + 6
                * (run as int));
            lemma_score_go_bounds(c@, psv, k as int + 1, run as int);
        }
        score = score + add;
        k = k + 1;
    }
    Some(Ranked { idx, clen, score, positions })
}

/// Whether candidate `i` outranks candidate `j` against the query:
/// a higher score, or an equal score and a shorter candidate.
pub open spec fn outranks(cands: Seq<Seq<char>>, q: Seq<char>, i: int, j: int) -> bool {
    let si = fuzzy_score(q, cands[i]);
    let sj = fuzzy_score(q, cands[j]);
    si > sj || (si == sj && cands[i].len() < cands[j].len())
}

/// The ranked order: higher score first, then shorter candidate,
/// then original input order.
pub open spec fn ranked_before(cands: Seq<Seq<char>>, q: Seq<char>, i: int, j: int) -> bool {
    outranks(cands, q, i, j) || (!outranks(cands, q, i, j) && !outranks(cands, q, j, i) && i <= j)
}

/// One ranked entry is about a real candidate that matches the
/// query, and carries its exact length, score and match positions.
pub open spec fn ranked_entry_ok(cands: Seq<Seq<char>>, q: Seq<char>, it: Ranked) -> bool {
    &&& it.idx < cands.len()
    &&& fuzzy_matches(q, cands[it.idx as int])
    &&& it.clen == cands[it.idx as int].len()
    &&& it.score as int == fuzzy_score(q, cands[it.idx as int])
    &&& match_positions(q, cands[it.idx as int]) == Some(pos_view(it.positions@))
}

/// What a ranked list is: every entry a correct match, every
/// matching candidate present exactly once, the order by score,
/// length and input position — and for the empty query, exactly the
/// candidate list in its original order.
pub open spec fn ranking_ok(cands: Seq<Seq<char>>, q: Seq<char>, r: Seq<Ranked>) -> bool {
    &&& forall|k: int| 0 <= k < r.len() ==> ranked_entry_ok(cands, q, #[trigger] r[k])
    &&& forall|i: int|
        0 <= i < cands.len() && fuzzy_matches(q, #[trigger] cands[i]) ==> exists|k: int|
            0 <= k < r.len() && (#[trigger] r[k]).idx == i
    &&& q.len() > 0 ==> forall|k1: int, k2: int|
        0 <= k1 < k2 < r.len() ==> (#[trigger] r[k1]).idx != (#[trigger] r[k2]).idx
            && ranked_before(cands, q, r[k1].idx as int, r[k2].idx as int)
    &&& q.len() == 0 ==> r.len() == cands.len() && forall|k: int|
        0 <= k < r.len() ==> (#[trigger] r[k]).idx == k
}

proof fn lemma_outranks_chain(cands: Seq<Seq<char>>, q: Seq<char>, a: int, b: int, c2: int)
    requires
        outranks(cands, q, a, b),
        ranked_before(cands, q, b, c2),
    ensures
        outranks(cands, q, a, c2),
{
}

/// Scores and ranks every candidate against the query. For the empty
/// query every candidate matches neutrally and the list keeps its
/// original order; otherwise the matching candidates come out by
/// falling score, ties broken by shorter length, then input order.
pub fn rank_candidates(cands: &Vec<String>, q: &Vec<char>) -> (r: Vec<Ranked>)
    ensures
        ranking_ok(views(cands@), q@, r@),
{
    let n = cands.len();
    let mut out: Vec<Ranked> = Vec::new();
    if q.len() == 0 {
        let mut i: usize = 0;
        while i < n
            invariant
                n == cands@.len(),
                q@.len() == 0,
                i <= n,
                out@.len() == i,
                forall|k: int| 0 <= k < i ==> (#[trigger] out@[k]).idx == k,
                forall|k: int|
                    0 <= k < i ==> ranked_entry_ok(views(cands@), q@, #[trigger] out@[k]),
            decreases n - i,
        {
            let clen = cands[i].as_str().unicode_len();
            let item = Ranked { idx: i, clen, score: 0, positions: Vec::new() };
            proof {
                assert(q@ =~= Seq::<char>::empty());
                lemma_empty_query_matches(cands@[i as int]@);
                assert(pos_view(item.positions@) =~= Seq::<int>::empty());
                assert(match_positions(q@, cands@[i as int]@) == Some(Seq::<int>::empty())) by {
                    assert(Seq::<int>::empty() =~= seq![]);
                }
                assert(ranked_entry_ok(views(cands@), q@, item));
            }
            out.push(item);
            i = i + 1;
        }
        proof {
            assert forall|i2: int|
                0 <= i2 < views(cands@).len() && fuzzy_matches(
                    q@,
                    #[trigger] views(cands@)[i2],
                ) implies exists|k: int| 0 <= k < out@.len() && (#[trigger] out@[k]).idx == i2 by {
                assert(0 <= i2 < out@.len() && (out@[i2]).idx == i2);
            }
        }
        return out;
    }
    let mut i: usize = 0;
    while i < n
        invariant
            n == cands@.len(),
            q@.len() > 0,
            i <= n,
            forall|k: int| 0 <= k < out@.len() ==> ranked_entry_ok(views(cands@), q@, #[trigger] out@[k]),
            forall|k: int| 0 <= k < out@.len() ==> (#[trigger] out@[k]).idx < i,
            forall|k1: int, k2: int|
                0 <= k1 < k2 < out@.len() ==> (#[trigger] out@[k1]).idx != (#[trigger] out@[k2]).idx
                    && ranked_before(views(cands@), q@, out@[k1].idx as int, out@[k2].idx as int),
            forall|i2: int|
                0 <= i2 < i && fuzzy_matches(q@, #[trigger] views(cands@)[i2]) ==> exists|k: int|
                    0 <= k < out@.len() && (#[trigger] out@[k]).idx == i2,
        decreases n - i,
    {
        let m = match_candidate(q, cands[i].as_str(), i);
        match m {
            Some(item) => {
                proof {
                    assert(views(cands@)[i as int] == cands@[i as int]@);
                    assert(ranked_entry_ok(views(cands@), q@, item));
                }
                let mut p: usize = 0;
                while p < out.len() && !(item.score > out[p].score || (item.score == out[p].score
                    && item.clen < out[p].clen))
                    invariant
                        p <= out@.len(),
                        forall|k: int| 0 <= k < out@.len() ==> ranked_entry_ok(views(cands@), q@, #[trigger] out@[k]),
                        item.idx == i < n == cands@.len(),
                        item.clen == views(cands@)[i as int].len(),
                        item.score as int == fuzzy_score(q@, views(cands@)[i as int]),
                        forall|k: int|
                            0 <= k < p ==> !outranks(
                                views(cands@),
                                q@,
                                i as int,
                                (#[trigger] out@[k]).idx as int,
                            ),
                    decreases out@.len() - p,
                {
                    p = p + 1;
                }
                let ghost pre_out = out@;
                let ghost cvs = views(cands@);
                proof {
                    if p < pre_out.len() {
                        assert(outranks(cvs, q@, i as int, pre_out[p as int].idx as int));
                    }
                }
                out.insert(p, item);
                proof {
                    assert(forall|k: int| 0 <= k < p ==> out@[k] == pre_out[k]);
                    assert(out@[p as int] == item);
                    assert(forall|k: int| p < k < out@.len() ==> out@[k] == pre_out[k - 1]);
                    assert forall|k1: int, k2: int|
                        0 <= k1 < k2 < out@.len() implies (#[trigger] out@[k1]).idx != (
                    #[trigger] out@[k2]).idx && ranked_before(
                        cvs,
                        q@,
                        out@[k1].idx as int,
                        out@[k2].idx as int,
                    ) by {
                        if k2 == p {
                            // an earlier entry against the new one: the new
                            // entry does not outrank it, and its input
                            // position is larger
                            assert(!outranks(cvs, q@, i as int, out@[k1].idx as int));
                            assert(out@[k1].idx < i);
                        } else if k1 == p {
                            // the new entry against a shifted one
                            assert(out@[k2] == pre_out[k2 - 1]);
                            if k2 - 1 > p {
                                lemma_outranks_chain(
                                    cvs,
                                    q@,
                                    i as int,
                                    pre_out[p as int].idx as int,
                                    pre_out[k2 - 1].idx as int,
                                );
                            }
                            assert(out@[k2].idx < i);
                        } else if k1 < p && k2 > p {
                            assert(out@[k1] == pre_out[k1] && out@[k2] == pre_out[k2 - 1]);
                            if k1 == k2 - 1 {
                                assert(!outranks(cvs, q@, i as int, pre_out[k1].idx as int));
                            }
                        }
                    }
                    assert forall|i2: int|
                        0 <= i2 < i + 1 && fuzzy_matches(q@, #[trigger] cvs[i2]) implies exists|
                        k: int,
                    |
                        0 <= k < out@.len() && (#[trigger] out@[k]).idx == i2 by {
                        if i2 == i {
                            assert(out@[p as int].idx == i2);
                        } else {
                            let k0 = choose|k0: int|
                                0 <= k0 < pre_out.len() && (#[trigger] pre_out[k0]).idx == i2;
                            if k0 < p {
                                assert(out@[k0].idx == i2);
                            } else {
                                assert(out@[k0 + 1].idx == i2);
                            }
                        }
                    }
                }
            },
            None => {
                proof {
                    assert(views(cands@)[i as int] == cands@[i as int]@);
                    assert forall|i2: int|
                        0 <= i2 < i + 1 && fuzzy_matches(
                            q@,
                            #[trigger] views(cands@)[i2],
                        ) implies exists|k: int|
                        0 <= k < out@.len() && (#[trigger] out@[k]).idx == i2 by {
                        assert(i2 != i);
                    }
                }
            },
        }
        i = i + 1;
    }
    out
}

} // verus!
