use vstd::prelude::*;
use crate::collection::{fits, id_set, id_views, point_views, upsert_all, Collection, CollectionView};
use crate::error::Error;
use crate::keyed::{
    as_map, distinct_keys, index_of, lemma_absent, lemma_empty, lemma_entry, lemma_push,
    lemma_update,
};
use crate::point::{Point, PointId, PointIdView, PointView};
use crate::search::{is_top_ranked, scored_views, ScoredPoint};

verus! {

/// What a [`VectorStore`] stands for: its collections by name.
pub type StoreModel = Map<Seq<char>, CollectionView>;

/// Every collection of the store is well formed.
pub open spec fn store_wf(store: StoreModel) -> bool {
    forall|name: Seq<char>| #[trigger] store.contains_key(name) ==> store[name].wf()
}

/// The collection without points for vectors of length `dimension`.
pub open spec fn empty_collection(dimension: u32) -> CollectionView {
    CollectionView { dimension, points: Map::empty() }
}

/// What `create_collection` answers: the name must be free, or taken by a
/// collection of the same dimension.
pub open spec fn create_outcome(store: StoreModel, name: Seq<char>, dimension: u32) -> Result<
    (),
    Error,
> {
    if store.contains_key(name) && store[name].dimension != dimension {
        Err(Error::DimensionMismatch)
    } else {
        Ok(())
    }
}

/// The store after `create_collection`: a free name is bound to an empty
/// collection, and nothing else changes.
pub open spec fn after_create(store: StoreModel, name: Seq<char>, dimension: u32) -> StoreModel {
    if store.contains_key(name) {
        store
    } else {
        store.insert(name, empty_collection(dimension))
    }
}

/// What `upsert` answers: the collection must exist and every vector of
/// the batch must have its dimension.
pub open spec fn upsert_outcome(store: StoreModel, name: Seq<char>, batch: Seq<PointView>) -> Result<
    (),
    Error,
> {
    if !store.contains_key(name) {
        Err(Error::UnknownCollection)
    } else if !fits(store[name].dimension, batch) {
        Err(Error::DimensionMismatch)
    } else {
        Ok(())
    }
}

/// The store after `upsert`: where the call succeeds the batch is applied
/// to the named collection, and otherwise nothing changes.
pub open spec fn after_upsert(store: StoreModel, name: Seq<char>, batch: Seq<PointView>) -> StoreModel {
    if upsert_outcome(store, name, batch) is Ok {
        store.insert(
            name,
            CollectionView {
                dimension: store[name].dimension,
                points: upsert_all(store[name].points, batch),
            },
        )
    } else {
        store
    }
}

/// What `delete` answers: the collection must exist.
pub open spec fn delete_outcome(store: StoreModel, name: Seq<char>) -> Result<(), Error> {
    if store.contains_key(name) {
        Ok(())
    } else {
        Err(Error::UnknownCollection)
    }
}

/// The store after `delete`: the named collection loses the points with
/// the given identifiers, and nothing else changes.
pub open spec fn after_delete(store: StoreModel, name: Seq<char>, ids: Seq<PointIdView>) -> StoreModel {
    if store.contains_key(name) {
        store.insert(
            name,
            CollectionView {
                dimension: store[name].dimension,
                points: store[name].points.remove_keys(id_set(ids)),
            },
        )
    } else {
        store
    }
}

/// What `get` answers.
pub open spec fn lookup(store: StoreModel, name: Seq<char>, id: PointIdView) -> Result<
    Option<PointView>,
    Error,
> {
    if !store.contains_key(name) {
        Err(Error::UnknownCollection)
    } else if store[name].points.contains_key(id) {
        Ok(Some(store[name].points[id]))
    } else {
        Ok(None)
    }
}

/// The number of points of the named collection, 0 if there is none.
pub open spec fn size_of(store: StoreModel, name: Seq<char>) -> nat {
    if store.contains_key(name) {
        store[name].points.len()
    } else {
        0
    }
}

/// The collections of one process, each under its name.
#[derive(Debug)]
pub struct VectorStore {
    collections: Vec<Collection>,
}

impl VectorStore {
    /// The collections as entries under their names, in the order in which
    /// they are kept.
    pub closed spec fn entries(&self) -> Seq<(Seq<char>, CollectionView)> {
        self.collections@.map_values(|c: Collection| (c.name(), c@))
    }

    /// The store's invariant: no name twice, and every collection well
    /// formed.
    pub closed spec fn wf(&self) -> bool {
        &&& distinct_keys(self.entries())
        &&& forall|i: int| 0 <= i < self.collections@.len() ==> (#[trigger] self.collections@[i]).wf()
    }
}

impl View for VectorStore {
    type V = StoreModel;

    closed spec fn view(&self) -> StoreModel {
        as_map(self.entries())
    }
}

impl VectorStore {
    /// The store without collections.
    pub fn new() -> (s: VectorStore)
        ensures
            s.wf(),
            s@ == Map::<Seq<char>, CollectionView>::empty(),
    {
        let s = VectorStore { collections: Vec::new() };
        proof {
            lemma_empty::<Seq<char>, CollectionView>();
            assert(s.entries() =~= Seq::empty());
        }
        s
    }

    /// A well-formed store stands for a well-formed value.
    pub proof fn lemma_view_wf(&self)
        requires
            self.wf(),
        ensures
            store_wf(self@),
    {
        let s = self.entries();
        assert forall|name: Seq<char>| #[trigger] self@.contains_key(name) implies self@[name].wf() by {
            let i = index_of(s, name);
            lemma_entry(s, i);
            self.collections@[i].lemma_view_wf();
        }
    }

    /// The place at which the collection `name` is kept, if it is there.
    fn find(&self, name: &str) -> (r: Option<usize>)
        requires
            self.wf(),
        ensures
            match r {
                Some(i) => i < self.collections@.len() && self.collections@[i as int].name()
                    == name@ && self@.contains_key(name@) && self@[name@]
                    == self.collections@[i as int]@,
                None => !self@.contains_key(name@),
            },
    {
        let wanted = String::from_str(name);
        let mut i: usize = 0;
        while i < self.collections.len()
            invariant
                self.wf(),
                wanted@ == name@,
                i <= self.collections.len(),
                forall|j: int| 0 <= j < i ==> (#[trigger] self.entries()[j]).0 != name@,
            decreases self.collections.len() - i,
        {
            if self.collections[i].has_name(&wanted) {
                proof {
                    lemma_entry(self.entries(), i as int);
                }
                return Some(i);
            }
            i = i + 1;
        }
        proof {
            lemma_absent(self.entries(), name@);
        }
        None
    }

    /// Makes sure that the collection `name` exists with the dimension
    /// `dimension`: a new name gets an empty collection, and a name that is
    /// taken must have been given that dimension.
    pub fn create_collection(&mut self, name: &str, dimension: u32) -> (r: Result<(), Error>)
        requires
            old(self).wf(),
            dimension > 0,
        ensures
            final(self).wf(),
            r == create_outcome(old(self)@, name@, dimension),
            r is Ok ==> final(self)@ == after_create(old(self)@, name@, dimension),
            r is Err ==> final(self)@ == old(self)@,
    {
        match self.find(name) {
            Some(i) => {
                if self.collections[i].dimension() == dimension {
                    Ok(())
                } else {
                    Err(Error::DimensionMismatch)
                }
            },
            None => {
                let c = Collection::new(String::from_str(name), dimension);
                let ghost before = self.entries();
                proof {
                    lemma_push(before, (name@, c@));
                }
                self.collections.push(c);
                assert(self.entries() =~= before.push((name@, c@)));
                Ok(())
            },
        }
    }

    /// Applies a batch of points to the collection `name`. Nothing is
    /// changed unless the collection exists and every vector of the batch
    /// has its dimension.
    pub fn upsert(&mut self, name: &str, batch: Vec<Point>) -> (r: Result<(), Error>)
        requires
            old(self).wf(),
        ensures
            final(self).wf(),
            r == upsert_outcome(old(self)@, name@, point_views(batch@)),
            final(self)@ == after_upsert(old(self)@, name@, point_views(batch@)),
    {
        match self.find(name) {
            Some(i) => {
                let ghost before = self.entries();
                let ghost old_collections = self.collections@;
                let r = self.collections[i].upsert(batch);
                proof {
                    let c = self.collections@[i as int];
                    assert(self.collections@ =~= old_collections.update(i as int, c));
                    assert(self.entries() =~= before.update(i as int, (name@, c@)));
                    lemma_update(before, i as int, (name@, c@));
                    if r is Err {
                        assert(as_map(before).insert(name@, c@) =~= as_map(before));
                    }
                }
                r
            },
            None => Err(Error::UnknownCollection),
        }
    }

    /// Takes the points with the given identifiers out of the collection
    /// `name`; an identifier that it does not have is passed over.
    pub fn delete(&mut self, name: &str, ids: &Vec<PointId>) -> (r: Result<(), Error>)
        requires
            old(self).wf(),
        ensures
            final(self).wf(),
            r == delete_outcome(old(self)@, name@),
            final(self)@ == after_delete(old(self)@, name@, id_views(ids@)),
    {
        match self.find(name) {
            Some(i) => {
                let ghost before = self.entries();
                let ghost old_collections = self.collections@;
                self.collections[i].delete(ids);
                proof {
                    let c = self.collections@[i as int];
                    assert(self.collections@ =~= old_collections.update(i as int, c));
                    assert(self.entries() =~= before.update(i as int, (name@, c@)));
                    lemma_update(before, i as int, (name@, c@));
                }
                Ok(())
            },
            None => Err(Error::UnknownCollection),
        }
    }

    /// The point `id` of the collection `name`, if the collection has it.
    pub fn get(&self, name: &str, id: &PointId) -> (r: Result<Option<&Point>, Error>)
        requires
            self.wf(),
        ensures
            match r {
                Ok(Some(p)) => lookup(self@, name@, id@) == Ok::<Option<PointView>, Error>(
                    Some(p@),
                ),
                Ok(None) => lookup(self@, name@, id@) == Ok::<Option<PointView>, Error>(None),
                Err(e) => lookup(self@, name@, id@) == Err::<Option<PointView>, Error>(e),
            },
    {
        match self.find(name) {
            Some(i) => Ok(self.collections[i].get(id)),
            None => Err(Error::UnknownCollection),
        }
    }

    /// Ranks the points of the collection `name` by their similarity to
    /// `query` and returns the `limit` best, or all of them if there are
    /// fewer.
    pub fn search(&self, name: &str, query: &Vec<i16>, limit: usize) -> (r: Result<
        Vec<ScoredPoint>,
        Error,
    >)
        requires
            self.wf(),
        ensures
            !self@.contains_key(name@) ==> r == Err::<Vec<ScoredPoint>, Error>(
                Error::UnknownCollection,
            ),
            self@.contains_key(name@) && query@.len() != self@[name@].dimension ==> r == Err::<
                Vec<ScoredPoint>,
                Error,
            >(Error::DimensionMismatch),
            self@.contains_key(name@) && query@.len() == self@[name@].dimension ==> r is Ok
                && is_top_ranked(
                self@[name@].points,
                query@,
                limit as int,
                scored_views(r->Ok_0@),
            ),
    {
        match self.find(name) {
            Some(i) => self.collections[i].search(query, limit),
            None => Err(Error::UnknownCollection),
        }
    }

    /// The number of points of the collection `name`, and 0 if there is no
    /// such collection.
    pub fn collection_size(&self, name: &str) -> (n: usize)
        requires
            self.wf(),
        ensures
            n == size_of(self@, name@),
    {
        match self.find(name) {
            Some(i) => self.collections[i].len(),
            None => 0,
        }
    }
}

} // verus!
