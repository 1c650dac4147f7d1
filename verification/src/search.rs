use vstd::prelude::*;
use crate::keyed::{as_map, distinct_keys, has_key, index_of, lemma_entry, lemma_len};
use crate::point::{Point, PointIdView, PointView};
use crate::rank::{lemma_rank_total, lemma_rank_transitive, outranks, ranks_before};
use crate::score::{cosine, max_len, score_of, Score};

verus! {

/// A point of a search result with its similarity to the query.
#[derive(Debug)]
pub struct ScoredPoint {
    pub point: Point,
    pub score: Score,
}

/// What a [`ScoredPoint`] stands for.
pub struct ScoredPointView {
    pub point: PointView,
    pub score: Score,
}

impl View for ScoredPoint {
    type V = ScoredPointView;

    open spec fn view(&self) -> ScoredPointView {
        ScoredPointView { point: self.point@, score: self.score }
    }
}

/// The plain values of a search result.
pub open spec fn scored_views(s: Seq<ScoredPoint>) -> Seq<ScoredPointView> {
    s.map_values(|p: ScoredPoint| p@)
}

/// A list of points as entries under their identifiers.
pub open spec fn entries_of(s: Seq<Point>) -> Seq<(PointIdView, PointView)> {
    s.map_values(|p: Point| (p.id@, p@))
}

/// The result `r` lists the point `id`.
pub open spec fn listed(r: Seq<ScoredPointView>, id: PointIdView) -> bool {
    exists|j: int| 0 <= j < r.len() && (#[trigger] r[j]).point.id == id
}

/// The smaller of a limit and a number of points.
pub open spec fn at_most_limit(limit: int, count: int) -> int {
    if limit <= count {
        limit
    } else {
        count
    }
}

/// `r` is the answer to a search for `query` among `points` with the limit
/// `limit`: the `limit` best points, or all of them if there are fewer,
/// each with its score, the best first.
pub open spec fn is_top_ranked(
    points: Map<PointIdView, PointView>,
    query: Seq<i16>,
    limit: int,
    r: Seq<ScoredPointView>,
) -> bool {
    &&& r.len() == at_most_limit(limit, points.len() as int)
    &&& forall|j: int|
        0 <= j < r.len() ==> {
            &&& points.contains_key((#[trigger] r[j]).point.id)
            &&& points[r[j].point.id] == r[j].point
            &&& r[j].score == score_of(query, r[j].point.vector)
        }
    &&& forall|j: int, k: int|
        0 <= j < k < r.len() ==> ranks_before(
            (#[trigger] r[j]).score,
            r[j].point.id,
            (#[trigger] r[k]).score,
            r[k].point.id,
        )
    &&& forall|id: PointIdView, j: int|
        points.contains_key(id) && !listed(r, id) && 0 <= j < r.len() ==> ranks_before(
            (#[trigger] r[j]).score,
            r[j].point.id,
            score_of(query, (#[trigger] points[id]).vector),
            id,
        )
}

/// The point at `i` ranks before the point at `j` in a search for `query`.
pub open spec fn before(points: Seq<Point>, query: Seq<i16>, i: int, j: int) -> bool {
    ranks_before(
        score_of(query, points[i].vector@),
        points[i].id@,
        score_of(query, points[j].vector@),
        points[j].id@,
    )
}

/// The scores of all points against `query`, in the order of the points.
fn scores_of(points: &Vec<Point>, query: &Vec<i16>) -> (scores: Vec<Score>)
    requires
        query.len() <= max_len(),
        forall|i: int| 0 <= i < points@.len() ==> (#[trigger] points@[i]).vector@.len() == query@.len(),
    ensures
        scores@.len() == points@.len(),
        forall|i: int|
            0 <= i < points@.len() ==> #[trigger] scores@[i] == score_of(
                query@,
                points@[i].vector@,
            ),
{
    let mut scores: Vec<Score> = Vec::new();
    let mut i: usize = 0;
    while i < points.len()
        invariant
            query.len() <= max_len(),
            forall|i: int|
                0 <= i < points@.len() ==> (#[trigger] points@[i]).vector@.len() == query@.len(),
            i <= points.len(),
            scores@.len() == i,
            forall|j: int|
                0 <= j < i ==> #[trigger] scores@[j] == score_of(query@, points@[j].vector@),
        decreases points.len() - i,
    {
        let s = cosine(query, &points[i].vector);
        scores.push(s);
        i = i + 1;
    }
    scores
}

/// The places `0 .. n`, in order.
fn places(n: usize) -> (all: Vec<usize>)
    ensures
        all@.len() == n,
        forall|i: int| 0 <= i < n ==> #[trigger] all@[i] == i,
{
    let mut all: Vec<usize> = Vec::new();
    let mut i: usize = 0;
    while i < n
        invariant
            i <= n,
            all@.len() == i,
            forall|j: int| 0 <= j < i ==> #[trigger] all@[j] == j,
        decreases n - i,
    {
        all.push(i);
        i = i + 1;
    }
    all
}

/// The place in `remaining` of the point that ranks before all the others
/// named there.
fn best_of(points: &Vec<Point>, scores: &Vec<Score>, query: Ghost<Seq<i16>>, remaining: &Vec<usize>) -> (best: usize)
    requires
        remaining@.len() > 0,
        scores@.len() == points@.len(),
        forall|i: int|
            0 <= i < points@.len() ==> #[trigger] scores@[i] == score_of(
                query@,
                points@[i].vector@,
            ),
        forall|t: int| 0 <= t < remaining@.len() ==> #[trigger] remaining@[t] < points@.len(),
        forall|t: int, u: int| 0 <= t < u < remaining@.len() ==> remaining@[t] != remaining@[u],
        distinct_keys(entries_of(points@)),
    ensures
        best < remaining@.len(),
        forall|u: int|
            0 <= u < remaining@.len() && u != best ==> before(
                points@,
                query@,
                remaining@[best as int] as int,
                #[trigger] remaining@[u] as int,
            ),
{
    let mut best: usize = 0;
    let mut t: usize = 1;
    while t < remaining.len()
        invariant
            remaining@.len() > 0,
            scores@.len() == points@.len(),
            forall|i: int|
                0 <= i < points@.len() ==> #[trigger] scores@[i] == score_of(
                    query@,
                    points@[i].vector@,
                ),
            forall|t: int| 0 <= t < remaining@.len() ==> #[trigger] remaining@[t] < points@.len(),
            forall|t: int, u: int|
                0 <= t < u < remaining@.len() ==> remaining@[t] != remaining@[u],
            distinct_keys(entries_of(points@)),
            best < t <= remaining@.len(),
            forall|u: int|
                0 <= u < t && u != best ==> before(
                    points@,
                    query@,
                    remaining@[best as int] as int,
                    #[trigger] remaining@[u] as int,
                ),
        decreases remaining.len() - t,
    {
        let c = remaining[t];
        let b = remaining[best];
        let ghost sc = score_of(query@, points@[c as int].vector@);
        let ghost sb = score_of(query@, points@[b as int].vector@);
        let ghost ic = points@[c as int].id@;
        let ghost ib = points@[b as int].id@;
        assert(scores@[c as int] == sc && scores@[b as int] == sb);
        if outranks(&scores[c], &points[c].id, &scores[b], &points[b].id) {
            assert forall|u: int| 0 <= u < t + 1 && u != t implies before(
                points@,
                query@,
                c as int,
                #[trigger] remaining@[u] as int,
            ) by {
                if u != best {
                    let x = remaining@[u] as int;
                    lemma_rank_transitive(
                        sc,
                        ic,
                        sb,
                        ib,
                        score_of(query@, points@[x].vector@),
                        points@[x].id@,
                    );
                }
            }
            best = t;
        } else {
            proof {
                assert(remaining@[best as int] != remaining@[t as int]);
                assert(entries_of(points@)[b as int].0 == ib);
                assert(entries_of(points@)[c as int].0 == ic);
                assert(ib != ic);
                lemma_rank_total(sb, ib, sc, ic);
            }
        }
        t = t + 1;
    }
    best
}

/// Ranks `points` against `query` and returns the `limit` best, or all of
/// them if there are fewer, best first.
pub fn rank_points(points: &Vec<Point>, query: &Vec<i16>, limit: usize) -> (out: Vec<ScoredPoint>)
    requires
        query.len() <= max_len(),
        forall|i: int| 0 <= i < points@.len() ==> (#[trigger] points@[i]).vector@.len() == query@.len(),
        distinct_keys(entries_of(points@)),
    ensures
        is_top_ranked(as_map(entries_of(points@)), query@, limit as int, scored_views(out@)),
{
    let n = points.len();
    let scores = scores_of(points, query);
    let mut remaining = places(n);
    let mut out: Vec<ScoredPoint> = Vec::new();
    let ghost mut picked: Seq<usize> = Seq::empty();
    assert forall|i: usize| i < n implies #[trigger] remaining@.contains(i) by {
        assert(remaining@[i as int] == i);
    }
    while out.len() < limit && remaining.len() > 0
        invariant
            n == points@.len(),
            scores@.len() == n,
            forall|i: int|
                0 <= i < n ==> #[trigger] scores@[i] == score_of(query@, points@[i].vector@),
            distinct_keys(entries_of(points@)),
            remaining@.len() + picked.len() == n,
            out@.len() == picked.len(),
            out@.len() <= limit,
            forall|t: int| 0 <= t < remaining@.len() ==> #[trigger] remaining@[t] < n,
            forall|j: int| 0 <= j < picked.len() ==> #[trigger] picked[j] < n,
            forall|t: int, u: int|
                0 <= t < u < remaining@.len() ==> remaining@[t] != remaining@[u],
            forall|i: usize| i < n ==> picked.contains(i) || #[trigger] remaining@.contains(i),
            forall|j: int, k: int|
                0 <= j < k < picked.len() ==> before(
                    points@,
                    query@,
                    #[trigger] picked[j] as int,
                    #[trigger] picked[k] as int,
                ),
            forall|j: int, t: int|
                0 <= j < picked.len() && 0 <= t < remaining@.len() ==> before(
                    points@,
                    query@,
                    #[trigger] picked[j] as int,
                    #[trigger] remaining@[t] as int,
                ),
            forall|j: int|
                0 <= j < picked.len() ==> (#[trigger] out@[j])@ == (ScoredPointView {
                    point: points@[picked[j] as int]@,
                    score: score_of(query@, points@[picked[j] as int].vector@),
                }),
        decreases remaining@.len(),
    {
        let best = best_of(points, &scores, Ghost(query@), &remaining);
        let ghost before_removal = remaining@;
        let chosen = remaining.swap_remove(best);
        let point = points[chosen].clone();
        let score = scores[chosen];
        out.push(ScoredPoint { point, score });
        proof {
            let last = before_removal.len() - 1;
            assert forall|t: int| 0 <= t < remaining@.len() implies (#[trigger] remaining@[t] < n
                && remaining@[t] != chosen && before(
                points@,
                query@,
                chosen as int,
                remaining@[t] as int,
            )) by {
                if t == best {
                    assert(remaining@[t] == before_removal[last]);
                    assert(before_removal[best as int] != before_removal[last]);
                } else {
                    assert(remaining@[t] == before_removal[t]);
                    if t < best {
                        assert(before_removal[t] != before_removal[best as int]);
                    } else {
                        assert(before_removal[best as int] != before_removal[t]);
                    }
                }
            }
            assert forall|t: int, u: int| 0 <= t < u < remaining@.len() implies remaining@[t]
                != remaining@[u] by {
                let t0 = if t == best { last } else { t };
                let u0 = if u == best { last } else { u };
                assert(remaining@[t] == before_removal[t0] && remaining@[u] == before_removal[u0]);
                if t0 < u0 {
                    assert(before_removal[t0] != before_removal[u0]);
                } else {
                    assert(before_removal[u0] != before_removal[t0]);
                }
            }
            let grown = picked.push(chosen);
            assert forall|i: usize| i < n implies grown.contains(i) || #[trigger] remaining@.contains(
                i,
            ) by {
                if picked.contains(i) {
                    let j = choose|j: int| 0 <= j < picked.len() && picked[j] == i;
                    assert(grown[j] == i);
                } else if i == chosen {
                    assert(grown[picked.len() as int] == i);
                } else {
                    assert(before_removal.contains(i));
                    let t = choose|t: int| 0 <= t < before_removal.len() && before_removal[t] == i;
                    if t == last {
                        assert(remaining@[best as int] == i);
                    } else {
                        assert(remaining@[t] == i);
                    }
                }
            }
            assert forall|j: int, k: int| 0 <= j < k < grown.len() implies before(
                points@,
                query@,
                #[trigger] grown[j] as int,
                #[trigger] grown[k] as int,
            ) by {
                if k == picked.len() {
                    assert(before(points@, query@, picked[j] as int, before_removal[best as int] as int));
                }
            }
            assert forall|j: int, t: int|
                0 <= j < grown.len() && 0 <= t < remaining@.len() implies before(
                points@,
                query@,
                #[trigger] grown[j] as int,
                #[trigger] remaining@[t] as int,
            ) by {
                if j < picked.len() {
                    let t0 = if t == best { last } else { t };
                    assert(remaining@[t] == before_removal[t0]);
                    assert(before(points@, query@, picked[j] as int, before_removal[t0] as int));
                }
            }
            picked = grown;
        }
    }
    proof {
        let entries = entries_of(points@);
        let map = as_map(entries);
        let r = scored_views(out@);
        lemma_len(entries);
        assert forall|j: int| 0 <= j < r.len() implies {
            &&& map.contains_key((#[trigger] r[j]).point.id)
            &&& map[r[j].point.id] == r[j].point
            &&& r[j].score == score_of(query@, r[j].point.vector)
        } by {
            lemma_entry(entries, picked[j] as int);
            assert(r[j] == out@[j]@);
        }
        assert forall|j: int, k: int| 0 <= j < k < r.len() implies ranks_before(
            (#[trigger] r[j]).score,
            r[j].point.id,
            (#[trigger] r[k]).score,
            r[k].point.id,
        ) by {
            assert(r[j] == out@[j]@ && r[k] == out@[k]@);
            assert(before(points@, query@, picked[j] as int, picked[k] as int));
        }
        assert forall|id: PointIdView, j: int|
            map.contains_key(id) && !listed(r, id) && 0 <= j < r.len() implies ranks_before(
            (#[trigger] r[j]).score,
            r[j].point.id,
            score_of(query@, (#[trigger] map[id]).vector),
            id,
        ) by {
            let i = index_of(entries, id);
            assert(has_key(entries, id));
            lemma_entry(entries, i);
            assert(r[j] == out@[j]@);
            let iu = i as usize;
            if picked.contains(iu) {
                let k = choose|k: int| 0 <= k < picked.len() && picked[k] == iu;
                assert(r[k] == out@[k]@);
                assert(r[k].point.id == id);
                assert(listed(r, id));
            } else {
                assert(remaining@.contains(iu));
                let t = choose|t: int| 0 <= t < remaining@.len() && remaining@[t] == iu;
                assert(before(points@, query@, picked[j] as int, remaining@[t] as int));
            }
        }
    }
    out
}

} // verus!
