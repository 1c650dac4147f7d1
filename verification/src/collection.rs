use vstd::prelude::*;
use crate::error::Error;
use crate::keyed::{
    as_map, distinct_keys, has_key, lemma_absent, lemma_empty, lemma_entry, lemma_len, lemma_push,
    lemma_remove, lemma_update,
};
use crate::point::{Point, PointId, PointIdView, PointView};
use crate::search::{entries_of, is_top_ranked, rank_points, scored_views, ScoredPoint};

verus! {

/// What a [`Collection`] stands for: its dimension and its points by
/// identifier.
pub struct CollectionView {
    pub dimension: u32,
    pub points: Map<PointIdView, PointView>,
}

impl CollectionView {
    /// Every point is kept under its own identifier and has a vector of the
    /// collection's dimension.
    pub open spec fn wf(self) -> bool {
        &&& self.dimension > 0
        &&& self.points.dom().finite()
        &&& forall|id: PointIdView| #[trigger]
            self.points.contains_key(id) ==> self.points[id].id == id
                && self.points[id].vector.len() == self.dimension
    }
}

/// The plain values of a list of points.
pub open spec fn point_views(s: Seq<Point>) -> Seq<PointView> {
    s.map_values(|p: Point| p@)
}

/// The plain values of a list of identifiers.
pub open spec fn id_views(s: Seq<PointId>) -> Seq<PointIdView> {
    s.map_values(|id: PointId| id@)
}

/// Every vector of the batch has the length `dimension`.
pub open spec fn fits(dimension: u32, batch: Seq<PointView>) -> bool {
    forall|i: int| 0 <= i < batch.len() ==> (#[trigger] batch[i]).vector.len() == dimension
}

/// The points after the batch was applied point by point: each point of
/// the batch takes the place of what was kept under its identifier, and of
/// two points of the batch with one identifier the later one stays.
pub open spec fn upsert_all(points: Map<PointIdView, PointView>, batch: Seq<PointView>) -> Map<
    PointIdView,
    PointView,
>
    decreases batch.len(),
{
    if batch.len() == 0 {
        points
    } else {
        upsert_all(points, batch.drop_last()).insert(batch.last().id, batch.last())
    }
}

/// The identifiers that occur in `ids`.
pub open spec fn id_set(ids: Seq<PointIdView>) -> Set<PointIdView> {
    Set::new(|id: PointIdView| ids.contains(id))
}

/// A named set of points whose vectors all have one length.
#[derive(Debug)]
pub struct Collection {
    name: String,
    dimension: u32,
    points: Vec<Point>,
}

impl Collection {
    /// The points as entries under their identifiers, in the order in which
    /// they are kept.
    pub closed spec fn entries(&self) -> Seq<(PointIdView, PointView)> {
        entries_of(self.points@)
    }

    /// The collection's invariant: a dimension above 0, no identifier
    /// twice, and every vector of that dimension.
    pub closed spec fn wf(&self) -> bool {
        &&& self.dimension > 0
        &&& distinct_keys(self.entries())
        &&& forall|i: int|
            0 <= i < self.points@.len() ==> (#[trigger] self.points@[i]).vector@.len()
                == self.dimension
    }

    /// The collection's name.
    pub closed spec fn name(&self) -> Seq<char> {
        self.name@
    }
}

impl View for Collection {
    type V = CollectionView;

    closed spec fn view(&self) -> CollectionView {
        CollectionView { dimension: self.dimension, points: as_map(self.entries()) }
    }
}

impl Collection {
    /// The empty collection `name` for vectors of length `dimension`.
    pub fn new(name: String, dimension: u32) -> (c: Collection)
        requires
            dimension > 0,
        ensures
            c.wf(),
            c.name() == name@,
            c@ == (CollectionView { dimension, points: Map::empty() }),
    {
        let c = Collection { name, dimension, points: Vec::new() };
        proof {
            lemma_empty::<PointIdView, PointView>();
            assert(c.entries() =~= Seq::empty());
        }
        c
    }

    /// A well-formed collection stands for a well-formed value.
    pub proof fn lemma_view_wf(&self)
        requires
            self.wf(),
        ensures
            self@.wf(),
    {
        let s = self.entries();
        lemma_len(s);
        assert forall|id: PointIdView| #[trigger] self@.points.contains_key(id) implies self@.points[id].id
            == id && self@.points[id].vector.len() == self.dimension by {
            let i = crate::keyed::index_of(s, id);
            lemma_entry(s, i);
            assert(s[i] == (self.points@[i].id@, self.points@[i]@));
        }
    }

    /// The name.
    pub fn name_str(&self) -> (s: &str)
        ensures
            s@ == self.name(),
    {
        self.name.as_str()
    }

    /// Tells whether the collection has the name `name`.
    pub fn has_name(&self, name: &String) -> (r: bool)
        ensures
            r == (self.name() == name@),
    {
        self.name == *name
    }

    /// The length that every vector of the collection has.
    pub fn dimension(&self) -> (d: u32)
        ensures
            d == self@.dimension,
    {
        self.dimension
    }

    /// The number of points.
    pub fn len(&self) -> (n: usize)
        requires
            self.wf(),
        ensures
            n == self@.points.len(),
    {
        proof {
            lemma_len(self.entries());
        }
        self.points.len()
    }

    /// The place at which the point `id` is kept, if it is there.
    fn position(&self, id: &PointId) -> (r: Option<usize>)
        ensures
            match r {
                Some(i) => i < self.points@.len() && self.entries()[i as int].0 == id@,
                None => !has_key(self.entries(), id@),
            },
    {
        let mut i: usize = 0;
        while i < self.points.len()
            invariant
                i <= self.points.len(),
                forall|j: int| 0 <= j < i ==> (#[trigger] self.entries()[j]).0 != id@,
            decreases self.points.len() - i,
        {
            if self.points[i].id.same(id) {
                return Some(i);
            }
            i = i + 1;
        }
        proof {
            lemma_absent(self.entries(), id@);
        }
        None
    }

    /// The point `id`, if the collection has it.
    pub fn get(&self, id: &PointId) -> (r: Option<&Point>)
        requires
            self.wf(),
        ensures
            match r {
                Some(p) => self@.points.contains_key(id@) && self@.points[id@] == p@,
                None => !self@.points.contains_key(id@),
            },
    {
        match self.position(id) {
            Some(i) => {
                proof {
                    lemma_entry(self.entries(), i as int);
                }
                Some(&self.points[i])
            },
            None => None,
        }
    }

    /// Tells whether every vector of the batch has the collection's
    /// dimension.
    pub fn accepts(&self, batch: &Vec<Point>) -> (r: bool)
        ensures
            r == fits(self@.dimension, point_views(batch@)),
    {
        let mut i: usize = 0;
        while i < batch.len()
            invariant
                i <= batch.len(),
                forall|j: int|
                    0 <= j < i ==> (#[trigger] point_views(batch@)[j]).vector.len()
                        == self.dimension,
            decreases batch.len() - i,
        {
            if batch[i].vector.len() != self.dimension as usize {
                assert(point_views(batch@)[i as int].vector.len() != self.dimension);
                return false;
            }
            i = i + 1;
        }
        true
    }

    /// Puts one point of the right dimension into the collection, in place
    /// of the point with its identifier if there is one.
    fn put(&mut self, p: Point)
        requires
            old(self).wf(),
            p@.vector.len() == old(self)@.dimension,
        ensures
            final(self).wf(),
            final(self).name() == old(self).name(),
            final(self)@.dimension == old(self)@.dimension,
            final(self)@.points == old(self)@.points.insert(p@.id, p@),
    {
        let ghost before = self.entries();
        match self.position(&p.id) {
            Some(i) => {
                proof {
                    lemma_update(before, i as int, (p@.id, p@));
                }
                self.points[i] = p;
                assert(self.entries() =~= before.update(i as int, (p@.id, p@)));
            },
            None => {
                proof {
                    lemma_push(before, (p@.id, p@));
                }
                self.points.push(p);
                assert(self.entries() =~= before.push((p@.id, p@)));
            },
        }
    }

    /// Applies a batch of points: each one is inserted, or takes the place
    /// of the point with its identifier. Nothing is changed unless every
    /// vector of the batch has the collection's dimension.
    pub fn upsert(&mut self, batch: Vec<Point>) -> (r: Result<(), Error>)
        requires
            old(self).wf(),
        ensures
            final(self).wf(),
            final(self).name() == old(self).name(),
            final(self)@.dimension == old(self)@.dimension,
            fits(old(self)@.dimension, point_views(batch@)) ==> r == Ok::<(), Error>(())
                && final(self)@.points == upsert_all(old(self)@.points, point_views(batch@)),
            !fits(old(self)@.dimension, point_views(batch@)) ==> r == Err::<(), Error>(
                Error::DimensionMismatch,
            ) && final(self)@ == old(self)@,
    {
        if !self.accepts(&batch) {
            return Err(Error::DimensionMismatch);
        }
        let ghost all = point_views(batch@);
        for p in it: batch
            invariant
                self.wf(),
                self.name() == old(self).name(),
                self@.dimension == old(self)@.dimension,
                fits(self@.dimension, all),
                point_views(it.seq()) == all,
                self@.points == upsert_all(old(self)@.points, all.take(it.index())),
        {
            assert(p@ == all[it.index()]);
            assert(all.take(it.index() + 1).drop_last() =~= all.take(it.index()));
            assert(all.take(it.index() + 1).last() == all[it.index()]);
            self.put(p);
        }
        assert(all.take(all.len() as int) =~= all);
        Ok(())
    }

    /// Takes out the points with the given identifiers; an identifier that
    /// the collection does not have is passed over.
    pub fn delete(&mut self, ids: &Vec<PointId>)
        requires
            old(self).wf(),
        ensures
            final(self).wf(),
            final(self).name() == old(self).name(),
            final(self)@.dimension == old(self)@.dimension,
            final(self)@.points == old(self)@.points.remove_keys(id_set(id_views(ids@))),
    {
        let ghost all = id_views(ids@);
        let mut i: usize = 0;
        assert(old(self)@.points.remove_keys(id_set(all.take(0))) =~= old(self)@.points);
        while i < ids.len()
            invariant
                self.wf(),
                self.name() == old(self).name(),
                self@.dimension == old(self)@.dimension,
                all == id_views(ids@),
                i <= ids.len(),
                self@.points == old(self)@.points.remove_keys(id_set(all.take(i as int))),
            decreases ids.len() - i,
        {
            let ghost before = self.entries();
            let ghost id = ids@[i as int]@;
            match self.position(&ids[i]) {
                Some(k) => {
                    proof {
                        lemma_remove(before, k as int);
                    }
                    self.points.remove(k);
                    assert(self.entries() =~= before.remove(k as int));
                },
                None => {
                    assert(as_map(before).remove(id) =~= as_map(before));
                },
            }
            proof {
                let done = id_set(all.take(i as int));
                let more = id_set(all.take(i + 1));
                assert(all.take(i + 1) =~= all.take(i as int).push(id));
                assert forall|x: PointIdView| more.contains(x) <==> done.contains(x) || x == id by {
                    if all.take(i as int).contains(x) {
                        let j = choose|j: int|
                            0 <= j < all.take(i as int).len() && all.take(i as int)[j] == x;
                        assert(all.take(i + 1)[j] == x);
                    }
                    if x == id {
                        assert(all.take(i + 1)[i as int] == x);
                    }
                }
                assert(self@.points =~= old(self)@.points.remove_keys(more));
            }
            i = i + 1;
        }
        assert(all.take(i as int) =~= all);
    }

    /// Ranks the points by their similarity to `query` and returns the
    /// `limit` best, or all of them if there are fewer.
    pub fn search(&self, query: &Vec<i16>, limit: usize) -> (r: Result<Vec<ScoredPoint>, Error>)
        requires
            self.wf(),
        ensures
            query@.len() != self@.dimension ==> r == Err::<Vec<ScoredPoint>, Error>(
                Error::DimensionMismatch,
            ),
            query@.len() == self@.dimension ==> r is Ok && is_top_ranked(
                self@.points,
                query@,
                limit as int,
                scored_views(r->Ok_0@),
            ),
    {
        if query.len() != self.dimension as usize {
            return Err(Error::DimensionMismatch);
        }
        Ok(rank_points(&self.points, query, limit))
    }
}

} // verus!
