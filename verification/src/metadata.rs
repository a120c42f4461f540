//! The registry of collections: one record for each collection name.

use vstd::prelude::*;
use crate::error::CoordinationError;
use crate::system::now_seconds;
use crate::text::str_same;

verus! {

/// What is known of a collection.
#[derive(Debug)]
pub struct CollectionMetadata {
    pub name: String,
    pub dimension: usize,
    pub metric: String,
    pub index_type: String,
    pub shard_count: usize,
    pub replica_count: usize,
    pub created_at: u64,
    pub updated_at: u64,
}

/// The mathematical value of a [`CollectionMetadata`].
pub struct CollectionView {
    pub name: Seq<char>,
    pub dimension: usize,
    pub metric: Seq<char>,
    pub index_type: Seq<char>,
    pub shard_count: usize,
    pub replica_count: usize,
    pub created_at: u64,
    pub updated_at: u64,
}

impl View for CollectionMetadata {
    type V = CollectionView;

    open spec fn view(&self) -> CollectionView {
        CollectionView {
            name: self.name@,
            dimension: self.dimension,
            metric: self.metric@,
            index_type: self.index_type@,
            shard_count: self.shard_count,
            replica_count: self.replica_count,
            created_at: self.created_at,
            updated_at: self.updated_at,
        }
    }
}

impl Clone for CollectionMetadata {
    fn clone(&self) -> (copy: Self)
        ensures
            copy == *self,
    {
        CollectionMetadata {
            name: self.name.clone(),
            dimension: self.dimension,
            metric: self.metric.clone(),
            index_type: self.index_type.clone(),
            shard_count: self.shard_count,
            replica_count: self.replica_count,
            created_at: self.created_at,
            updated_at: self.updated_at,
        }
    }
}

/// The values of a sequence of records, in order.
pub open spec fn collection_views(records: Seq<CollectionMetadata>) -> Seq<CollectionView> {
    records.map_values(|c: CollectionMetadata| c@)
}

/// No name occurs twice among `records`.
pub open spec fn names_unique(records: Seq<CollectionView>) -> bool {
    forall|i: int, j: int| 0 <= i < j < records.len() ==> records[i].name != records[j].name
}

/// Some record of `records` is named `name`.
pub open spec fn has_name(records: Seq<CollectionView>, name: Seq<char>) -> bool {
    exists|i: int| 0 <= i < records.len() && records[i].name == name
}

/// The position of the first record named `name`, or the length of `records`
/// if there is none.
pub open spec fn position_of_name(records: Seq<CollectionView>, name: Seq<char>) -> int
    decreases records.len(),
{
    if records.len() == 0 {
        0
    } else if records[0].name == name {
        0
    } else {
        1 + position_of_name(records.drop_first(), name)
    }
}

/// The record named `name`, where there is one.
pub open spec fn record_named(records: Seq<CollectionView>, name: Seq<char>) -> CollectionView
    recommends
        has_name(records, name),
{
    records[position_of_name(records, name)]
}

/// `update` as it is stored over `current` at time `now`: the attributes are
/// those of `update`, the creation time stays, and the record was last updated
/// at `now`.
pub open spec fn revised(current: CollectionView, update: CollectionView, now: u64) -> CollectionView {
    CollectionView { created_at: current.created_at, updated_at: now, ..update }
}

/// `position_of_name` is the least position of a record with that name, and it
/// is within `records` exactly if the name occurs.
pub proof fn lemma_position_of_name(records: Seq<CollectionView>, name: Seq<char>)
    ensures
        0 <= position_of_name(records, name) <= records.len(),
        position_of_name(records, name) < records.len() <==> has_name(records, name),
        has_name(records, name) ==> records[position_of_name(records, name)].name == name,
        forall|j: int|
            0 <= j < position_of_name(records, name) ==> (#[trigger] records[j]).name != name,
    decreases records.len(),
{
    if records.len() > 0 {
        if records[0].name == name {
            assert(has_name(records, name));
        } else {
            let rest = records.drop_first();
            lemma_position_of_name(rest, name);
            let at = position_of_name(rest, name);
            assert forall|j: int| 0 <= j < 1 + at implies (#[trigger] records[j]).name != name by {
                if j > 0 {
                    assert(records[j] == rest[j - 1]);
                }
            }
            if at < rest.len() {
                assert(records[1 + at] == rest[at]);
                assert(has_name(records, name));
            }
            if has_name(records, name) {
                let k = choose|k: int| 0 <= k < records.len() && records[k].name == name;
                assert(rest[k - 1].name == name);
                assert(has_name(rest, name));
            }
        }
    }
}

/// A position before which no record is named `name` is `position_of_name`, if
/// the record there has the name or the position is the length.
pub proof fn lemma_position_of_name_is(records: Seq<CollectionView>, name: Seq<char>, at: int)
    requires
        0 <= at <= records.len(),
        forall|j: int| 0 <= j < at ==> (#[trigger] records[j]).name != name,
        at < records.len() ==> records[at].name == name,
    ensures
        position_of_name(records, name) == at,
{
    lemma_position_of_name(records, name);
    let f = position_of_name(records, name);
    if f < at {
        assert(records[f].name != name);
    }
    if at < f {
        assert(records[at].name != name);
    }
    if at == records.len() && f < records.len() {
        assert(has_name(records, name));
    }
}

/// The registry of collections, keyed by collection name.
#[derive(Debug)]
pub struct MetadataManager {
    collections: Vec<CollectionMetadata>,
}

impl View for MetadataManager {
    type V = Seq<CollectionView>;

    closed spec fn view(&self) -> Seq<CollectionView> {
        collection_views(self.collections@)
    }
}

impl MetadataManager {
    /// The invariant of the registry: no two records share a name.
    pub open spec fn wf(&self) -> bool {
        names_unique(self@)
    }

    /// An empty registry.
    pub fn new() -> (manager: Self)
        ensures
            manager.wf(),
            manager@ == Seq::<CollectionView>::empty(),
    {
        let manager = MetadataManager { collections: Vec::new() };
        assert(manager@ =~= Seq::<CollectionView>::empty());
        manager
    }

    /// The position of the record named `name`.
    fn find(&self, name: &str) -> (found: Option<usize>)
        ensures
            match found {
                Some(i) => i < self.collections.len() && i == position_of_name(self@, name@)
                    && has_name(self@, name@),
                None => !has_name(self@, name@),
            },
    {
        let ghost all = self@;
        let mut i: usize = 0;
        while i < self.collections.len()
            invariant
                i <= self.collections.len(),
                all == collection_views(self.collections@),
                forall|j: int| 0 <= j < i ==> (#[trigger] all[j]).name != name@,
            decreases self.collections.len() - i,
        {
            assert(all[i as int] == self.collections[i as int]@);
            if str_same(self.collections[i].name.as_str(), name) {
                proof {
                    lemma_position_of_name_is(all, name@, i as int);
                    lemma_position_of_name(all, name@);
                }
                return Some(i);
            }
            i += 1;
        }
        proof {
            lemma_position_of_name_is(all, name@, i as int);
            lemma_position_of_name(all, name@);
        }
        None
    }

    /// Registers `meta`. Fails with `DuplicateCollection`, and changes nothing,
    /// if a collection of that name is registered already.
    pub fn add_collection(&mut self, meta: CollectionMetadata) -> (res: Result<
        (),
        CoordinationError,
    >)
        requires
            old(self).wf(),
        ensures
            final(self).wf(),
            has_name(old(self)@, meta.name@) ==> res == Err::<(), CoordinationError>(
                CoordinationError::DuplicateCollection,
            ) && final(self)@ == old(self)@,
            !has_name(old(self)@, meta.name@) ==> res is Ok && final(self)@ == old(self)@.push(
                meta@,
            ),
    {
        match self.find(meta.name.as_str()) {
            Some(_) => Err(CoordinationError::DuplicateCollection),
            None => {
                self.collections.push(meta);
                assert(self@ =~= old(self)@.push(meta@));
                Ok(())
            },
        }
    }

    /// The record of the collection `name`. Fails with `NotFound` if no such
    /// collection is registered.
    pub fn get_collection(&self, name: &str) -> (res: Result<CollectionMetadata, CoordinationError>)
        ensures
            has_name(self@, name@) ==> res is Ok && res->Ok_0@ == record_named(self@, name@),
            !has_name(self@, name@) ==> res == Err::<CollectionMetadata, CoordinationError>(
                CoordinationError::NotFound,
            ),
    {
        match self.find(name) {
            Some(i) => {
                assert(self@[i as int] == self.collections[i as int]@);
                Ok(self.collections[i].clone())
            },
            None => Err(CoordinationError::NotFound),
        }
    }

    /// Replaces at time `now` the record of the collection that `meta` names by
    /// `meta`. The stored record keeps its creation time and was last updated at
    /// `now`. Fails with `NotFound`, and changes nothing, if no such collection
    /// is registered.
    pub fn update_collection_at(&mut self, meta: CollectionMetadata, now: u64) -> (res: Result<
        (),
        CoordinationError,
    >)
        requires
            old(self).wf(),
        ensures
            final(self).wf(),
            has_name(old(self)@, meta.name@) ==> res is Ok && final(self)@ == old(self)@.update(
                position_of_name(old(self)@, meta.name@),
                revised(record_named(old(self)@, meta.name@), meta@, now),
            ),
            !has_name(old(self)@, meta.name@) ==> res == Err::<(), CoordinationError>(
                CoordinationError::NotFound,
            ) && final(self)@ == old(self)@,
    {
        match self.find(meta.name.as_str()) {
            Some(i) => {
                let ghost before = self@;
                assert(before[i as int] == self.collections[i as int]@);
                let created_at = self.collections[i].created_at;
                let mut record = meta;
                record.created_at = created_at;
                record.updated_at = now;
                self.collections[i] = record;
                proof {
                    assert(self@ =~= before.update(
                        i as int,
                        revised(before[i as int], meta@, now),
                    ));
                    lemma_position_of_name(before, meta.name@);
                    assert forall|a: int, b: int| 0 <= a < b < self@.len() implies self@[a].name
                        != self@[b].name by {
                        assert(before[a].name != before[b].name);
                        assert(self@[a].name == before[a].name);
                        assert(self@[b].name == before[b].name);
                    }
                }
                Ok(())
            },
            None => Err(CoordinationError::NotFound),
        }
    }

    /// Replaces the record of the collection that `meta` names by `meta`, as of
    /// now. Fails with `NotFound`, and changes nothing, if no such collection is
    /// registered.
    pub fn update_collection(&mut self, meta: CollectionMetadata) -> (res: Result<
        (),
        CoordinationError,
    >)
        requires
            old(self).wf(),
        ensures
            final(self).wf(),
            has_name(old(self)@, meta.name@) ==> res is Ok && exists|now: u64|
                final(self)@ == old(self)@.update(
                    position_of_name(old(self)@, meta.name@),
                    revised(record_named(old(self)@, meta.name@), meta@, now),
                ),
            !has_name(old(self)@, meta.name@) ==> res == Err::<(), CoordinationError>(
                CoordinationError::NotFound,
            ) && final(self)@ == old(self)@,
    {
        let now = now_seconds();
        self.update_collection_at(meta, now)
    }

    /// Removes the record of the collection `name`. Fails with `NotFound`, and
    /// changes nothing, if no such collection is registered.
    pub fn delete_collection(&mut self, name: &str) -> (res: Result<(), CoordinationError>)
        requires
            old(self).wf(),
        ensures
            final(self).wf(),
            !has_name(final(self)@, name@),
            has_name(old(self)@, name@) ==> res is Ok && final(self)@ == old(self)@.remove(
                position_of_name(old(self)@, name@),
            ),
            !has_name(old(self)@, name@) ==> res == Err::<(), CoordinationError>(
                CoordinationError::NotFound,
            ) && final(self)@ == old(self)@,
    {
        match self.find(name) {
            Some(i) => {
                let ghost before = self@;
                self.collections.remove(i);
                proof {
                    assert(self@ =~= before.remove(i as int));
                    assert(before[i as int].name == name@) by {
                        lemma_position_of_name(before, name@);
                    }
                    assert forall|a: int| 0 <= a < self@.len() implies (#[trigger] self@[a]).name
                        != name@ by {
                        if a < i {
                            assert(self@[a] == before[a]);
                            assert(before[a].name != before[i as int].name);
                        } else {
                            assert(self@[a] == before[a + 1]);
                            assert(before[i as int].name != before[a + 1].name);
                        }
                    }
                    assert forall|a: int, b: int| 0 <= a < b < self@.len() implies self@[a].name
                        != self@[b].name by {
                        let a0 = if a < i { a } else { a + 1 };
                        let b0 = if b < i { b } else { b + 1 };
                        assert(self@[a] == before[a0]);
                        assert(self@[b] == before[b0]);
                        assert(before[a0].name != before[b0].name);
                    }
                }
                Ok(())
            },
            None => Err(CoordinationError::NotFound),
        }
    }

    /// Every record, in the order in which the collections were registered.
    pub fn list_collections(&self) -> (records: Vec<CollectionMetadata>)
        ensures
            collection_views(records@) == self@,
    {
        let mut out: Vec<CollectionMetadata> = Vec::new();
        let mut i: usize = 0;
        while i < self.collections.len()
            invariant
                i <= self.collections.len(),
                out@ == self.collections@.take(i as int),
            decreases self.collections.len() - i,
        {
            out.push(self.collections[i].clone());
            assert(self.collections@.take(i + 1) =~= self.collections@.take(i as int).push(
                self.collections@[i as int],
            ));
            i += 1;
        }
        assert(self.collections@.take(i as int) =~= self.collections@);
        out
    }
}

} // verus!
