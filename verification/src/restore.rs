//! The journal of restores: which backup was restored to which node, and
//! which restores were cancelled. Reading the backup files is left to the
//! caller.

use vstd::prelude::*;
use vstd::string::*;
use crate::text::str_same;

verus! {

/// How restores are carried out.
#[derive(Debug)]
pub struct RestoreConfig {
    pub backup_dir: String,
    pub parallel_restore: bool,
    pub verify_restore: bool,
    pub overwrite_existing: bool,
}

/// The mathematical value of a [`RestoreConfig`].
pub struct RestoreConfigView {
    pub backup_dir: Seq<char>,
    pub parallel_restore: bool,
    pub verify_restore: bool,
    pub overwrite_existing: bool,
}

impl View for RestoreConfig {
    type V = RestoreConfigView;

    open spec fn view(&self) -> RestoreConfigView {
        RestoreConfigView {
            backup_dir: self.backup_dir@,
            parallel_restore: self.parallel_restore,
            verify_restore: self.verify_restore,
            overwrite_existing: self.overwrite_existing,
        }
    }
}

impl Clone for RestoreConfig {
    fn clone(&self) -> (copy: Self)
        ensures
            copy == *self,
    {
        RestoreConfig {
            backup_dir: self.backup_dir.clone(),
            parallel_restore: self.parallel_restore,
            verify_restore: self.verify_restore,
            overwrite_existing: self.overwrite_existing,
        }
    }
}

/// One restore. The duration is in whole milliseconds.
#[derive(Debug)]
pub struct RestoreInfo {
    pub restore_id: String,
    pub backup_id: String,
    pub timestamp: u64,
    pub node_id: String,
    pub collection_name: String,
    pub vector_count: u64,
    pub duration_ms: u64,
    pub status: String,
    pub message: String,
}

/// The mathematical value of a [`RestoreInfo`].
pub struct RestoreEntry {
    pub restore_id: Seq<char>,
    pub backup_id: Seq<char>,
    pub timestamp: u64,
    pub node_id: Seq<char>,
    pub collection_name: Seq<char>,
    pub vector_count: u64,
    pub duration_ms: u64,
    pub status: Seq<char>,
    pub message: Seq<char>,
}

impl View for RestoreInfo {
    type V = RestoreEntry;

    open spec fn view(&self) -> RestoreEntry {
        RestoreEntry {
            restore_id: self.restore_id@,
            backup_id: self.backup_id@,
            timestamp: self.timestamp,
            node_id: self.node_id@,
            collection_name: self.collection_name@,
            vector_count: self.vector_count,
            duration_ms: self.duration_ms,
            status: self.status@,
            message: self.message@,
        }
    }
}

impl Clone for RestoreInfo {
    fn clone(&self) -> (copy: Self)
        ensures
            copy == *self,
    {
        RestoreInfo {
            restore_id: self.restore_id.clone(),
            backup_id: self.backup_id.clone(),
            timestamp: self.timestamp,
            node_id: self.node_id.clone(),
            collection_name: self.collection_name.clone(),
            vector_count: self.vector_count,
            duration_ms: self.duration_ms,
            status: self.status.clone(),
            message: self.message.clone(),
        }
    }
}

/// The values of a sequence of restores, in order.
pub open spec fn restore_views(restores: Seq<RestoreInfo>) -> Seq<RestoreEntry> {
    restores.map_values(|r: RestoreInfo| r@)
}

/// The message of a restore of `backup_id` to `node_id` that completed.
pub open spec fn success_message(backup_id: Seq<char>, node_id: Seq<char>) -> Seq<char> {
    "Successfully restored backup "@ + backup_id + " to node "@ + node_id
}

/// `restore` once it was cancelled.
pub open spec fn cancelled(restore: RestoreEntry) -> RestoreEntry {
    RestoreEntry { status: "cancelled"@, message: "Restore cancelled by user"@, ..restore }
}

/// The position of the first restore with identifier `id`, or the length of
/// `restores` if there is none.
pub open spec fn position_of_restore(restores: Seq<RestoreEntry>, id: Seq<char>) -> int
    decreases restores.len(),
{
    if restores.len() == 0 {
        0
    } else if restores[0].restore_id == id {
        0
    } else {
        1 + position_of_restore(restores.drop_first(), id)
    }
}

/// `position_of_restore` is the least position of a restore with that
/// identifier.
pub proof fn lemma_position_of_restore(restores: Seq<RestoreEntry>, id: Seq<char>)
    ensures
        0 <= position_of_restore(restores, id) <= restores.len(),
        position_of_restore(restores, id) < restores.len() ==> restores[position_of_restore(
            restores,
            id,
        )].restore_id == id,
        forall|j: int|
            0 <= j < position_of_restore(restores, id) ==> (#[trigger] restores[j]).restore_id
                != id,
    decreases restores.len(),
{
    if restores.len() > 0 && restores[0].restore_id != id {
        let rest = restores.drop_first();
        lemma_position_of_restore(rest, id);
        let at = position_of_restore(rest, id);
        assert forall|j: int| 0 <= j < 1 + at implies (#[trigger] restores[j]).restore_id != id by {
            if j > 0 {
                assert(restores[j] == rest[j - 1]);
            }
        }
        if at < rest.len() {
            assert(restores[1 + at] == rest[at]);
        }
    }
}

/// A position before which no restore has the identifier `id` is
/// `position_of_restore`, if the restore there has it or the position is the
/// length.
pub proof fn lemma_position_of_restore_is(restores: Seq<RestoreEntry>, id: Seq<char>, at: int)
    requires
        0 <= at <= restores.len(),
        forall|j: int| 0 <= j < at ==> (#[trigger] restores[j]).restore_id != id,
        at < restores.len() ==> restores[at].restore_id == id,
    ensures
        position_of_restore(restores, id) == at,
{
    lemma_position_of_restore(restores, id);
    let f = position_of_restore(restores, id);
    if f < at {
        assert(restores[f].restore_id != id);
    }
    if at < f {
        assert(restores[at].restore_id != id);
    }
}

/// Keeps the journal of restores.
#[derive(Debug)]
pub struct RestoreManager {
    config: RestoreConfig,
    restores: Vec<RestoreInfo>,
}

/// The mathematical value of a [`RestoreManager`].
pub struct RestoreJournal {
    pub config: RestoreConfigView,
    pub restores: Seq<RestoreEntry>,
}

impl View for RestoreManager {
    type V = RestoreJournal;

    closed spec fn view(&self) -> RestoreJournal {
        RestoreJournal { config: self.config@, restores: restore_views(self.restores@) }
    }
}

impl RestoreManager {
    /// A manager with an empty journal that reads backups from `./backups`,
    /// restores nodes in parallel, verifies each restore and does not
    /// overwrite what exists.
    pub fn new() -> (manager: Self)
        ensures
            manager@.restores == Seq::<RestoreEntry>::empty(),
            manager@.config == (RestoreConfigView {
                backup_dir: "./backups"@,
                parallel_restore: true,
                verify_restore: true,
                overwrite_existing: false,
            }),
    {
        let manager = RestoreManager {
            config: RestoreConfig {
                backup_dir: "./backups".to_string(),
                parallel_restore: true,
                verify_restore: true,
                overwrite_existing: false,
            },
            restores: Vec::new(),
        };
        assert(manager@.restores =~= Seq::<RestoreEntry>::empty());
        manager
    }

    /// The same manager with `config` in the place of its configuration.
    pub fn with_config(self, config: RestoreConfig) -> (manager: Self)
        ensures
            manager@.config == config@,
            manager@.restores == self@.restores,
    {
        let mut manager = self;
        manager.config = config;
        manager
    }

    /// The configuration in use.
    pub fn config(&self) -> (config: RestoreConfig)
        ensures
            config@ == self@.config,
    {
        self.config.clone()
    }

    /// Enters into the journal that the restore `restore_id` of the backup
    /// `backup_id` to the node `node_id`, begun at `timestamp`, completed after
    /// `duration_ms` milliseconds. Returns the new entry.
    pub fn record_restore(
        &mut self,
        restore_id: String,
        backup_id: &str,
        node_id: &str,
        timestamp: u64,
        duration_ms: u64,
    ) -> (info: RestoreInfo)
        ensures
            info@ == (RestoreEntry {
                restore_id: restore_id@,
                backup_id: backup_id@,
                timestamp: timestamp,
                node_id: node_id@,
                collection_name: "all"@,
                vector_count: 1000,
                duration_ms: duration_ms,
                status: "completed"@,
                message: success_message(backup_id@, node_id@),
            }),
            final(self)@.config == old(self)@.config,
            final(self)@.restores == old(self)@.restores.push(info@),
    {
        let message = "Successfully restored backup ".to_string().concat(backup_id).concat(
            " to node ",
        ).concat(node_id);
        let info = RestoreInfo {
            restore_id: restore_id,
            backup_id: backup_id.to_string(),
            timestamp: timestamp,
            node_id: node_id.to_string(),
            collection_name: "all".to_string(),
            vector_count: 1000,
            duration_ms: duration_ms,
            status: "completed".to_string(),
            message: message,
        };
        self.restores.push(info.clone());
        assert(self@.restores =~= old(self)@.restores.push(info@));
        info
    }

    /// Every restore of the journal, oldest entry first.
    pub fn list_restores(&self) -> (restores: Vec<RestoreInfo>)
        ensures
            restore_views(restores@) == self@.restores,
    {
        let mut out: Vec<RestoreInfo> = Vec::new();
        let mut i: usize = 0;
        while i < self.restores.len()
            invariant
                i <= self.restores.len(),
                out@ == self.restores@.take(i as int),
            decreases self.restores.len() - i,
        {
            out.push(self.restores[i].clone());
            assert(self.restores@.take(i + 1) =~= self.restores@.take(i as int).push(
                self.restores@[i as int],
            ));
            i += 1;
        }
        assert(self.restores@.take(i as int) =~= self.restores@);
        out
    }

    /// The position of the first restore with identifier `restore_id`.
    fn find(&self, restore_id: &str) -> (at: usize)
        ensures
            at == position_of_restore(self@.restores, restore_id@),
            at <= self.restores.len(),
    {
        let ghost all = self@.restores;
        let mut i: usize = 0;
        while i < self.restores.len()
            invariant
                i <= self.restores.len(),
                all == restore_views(self.restores@),
                forall|j: int| 0 <= j < i ==> (#[trigger] all[j]).restore_id != restore_id@,
            decreases self.restores.len() - i,
        {
            assert(all[i as int] == self.restores[i as int]@);
            if str_same(self.restores[i].restore_id.as_str(), restore_id) {
                proof {
                    lemma_position_of_restore_is(all, restore_id@, i as int);
                }
                return i;
            }
            i += 1;
        }
        proof {
            lemma_position_of_restore_is(all, restore_id@, i as int);
        }
        i
    }

    /// The first restore with identifier `restore_id`, if there is one.
    pub fn get_restore(&self, restore_id: &str) -> (found: Option<RestoreInfo>)
        ensures
            match found {
                Some(info) => {
                    let at = position_of_restore(self@.restores, restore_id@);
                    at < self@.restores.len() && info@ == self@.restores[at]
                },
                None => position_of_restore(self@.restores, restore_id@) == self@.restores.len(),
            },
    {
        let at = self.find(restore_id);
        if at < self.restores.len() {
            assert(self@.restores[at as int] == self.restores[at as int]@);
            Some(self.restores[at].clone())
        } else {
            None
        }
    }

    /// Marks the first restore with identifier `restore_id` as cancelled by the
    /// user. Returns whether there was one.
    pub fn cancel_restore(&mut self, restore_id: &str) -> (done: bool)
        ensures
            final(self)@.config == old(self)@.config,
            done == (position_of_restore(old(self)@.restores, restore_id@) < old(
                self,
            )@.restores.len()),
            done ==> final(self)@.restores == old(self)@.restores.update(
                position_of_restore(old(self)@.restores, restore_id@),
                cancelled(
                    old(self)@.restores[position_of_restore(old(self)@.restores, restore_id@)],
                ),
            ),
            !done ==> final(self)@.restores == old(self)@.restores,
    {
        let ghost before = self@.restores;
        let at = self.find(restore_id);
        if at < self.restores.len() {
            assert(before[at as int] == self.restores[at as int]@);
            self.restores[at].status = "cancelled".to_string();
            self.restores[at].message = "Restore cancelled by user".to_string();
            assert(self@.restores =~= before.update(at as int, cancelled(before[at as int])));
            true
        } else {
            false
        }
    }
}

} // verus!
