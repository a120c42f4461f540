//! The catalogue of backups: which backups exist, and which have outlived
//! their retention. Writing and deleting the backup files is left to the
//! caller.

use vstd::prelude::*;
use crate::seqs::{lemma_filter_take_step, lemma_filter_take_zero};
use crate::text::str_same;

verus! {

/// The number of seconds in a day.
pub const SECONDS_PER_DAY: u64 = 86_400;

/// How backups are taken and kept. The interval is in whole seconds.
#[derive(Debug)]
pub struct BackupConfig {
    pub backup_dir: String,
    pub backup_interval_secs: u64,
    pub retention_days: u32,
    pub compression: bool,
    pub encryption: bool,
    pub encryption_key: Option<String>,
}

/// The mathematical value of a [`BackupConfig`].
pub struct BackupConfigView {
    pub backup_dir: Seq<char>,
    pub backup_interval_secs: u64,
    pub retention_days: u32,
    pub compression: bool,
    pub encryption: bool,
    pub encryption_key: Option<Seq<char>>,
}

impl View for BackupConfig {
    type V = BackupConfigView;

    open spec fn view(&self) -> BackupConfigView {
        BackupConfigView {
            backup_dir: self.backup_dir@,
            backup_interval_secs: self.backup_interval_secs,
            retention_days: self.retention_days,
            compression: self.compression,
            encryption: self.encryption,
            encryption_key: match self.encryption_key {
                Some(key) => Some(key@),
                None => None,
            },
        }
    }
}

impl Clone for BackupConfig {
    fn clone(&self) -> (copy: Self)
        ensures
            copy@ == self@,
    {
        BackupConfig {
            backup_dir: self.backup_dir.clone(),
            backup_interval_secs: self.backup_interval_secs,
            retention_days: self.retention_days,
            compression: self.compression,
            encryption: self.encryption,
            encryption_key: match &self.encryption_key {
                Some(key) => Some(key.clone()),
                None => None,
            },
        }
    }
}

/// One backup. The compression ratio is in percent of the uncompressed size.
#[derive(Debug)]
pub struct BackupInfo {
    pub backup_id: String,
    pub timestamp: u64,
    pub node_id: String,
    pub collection_name: String,
    pub vector_count: u64,
    pub size_bytes: u64,
    pub compression_percent: u32,
    pub status: String,
}

/// The mathematical value of a [`BackupInfo`].
pub struct BackupView {
    pub backup_id: Seq<char>,
    pub timestamp: u64,
    pub node_id: Seq<char>,
    pub collection_name: Seq<char>,
    pub vector_count: u64,
    pub size_bytes: u64,
    pub compression_percent: u32,
    pub status: Seq<char>,
}

impl View for BackupInfo {
    type V = BackupView;

    open spec fn view(&self) -> BackupView {
        BackupView {
            backup_id: self.backup_id@,
            timestamp: self.timestamp,
            node_id: self.node_id@,
            collection_name: self.collection_name@,
            vector_count: self.vector_count,
            size_bytes: self.size_bytes,
            compression_percent: self.compression_percent,
            status: self.status@,
        }
    }
}

impl Clone for BackupInfo {
    fn clone(&self) -> (copy: Self)
        ensures
            copy == *self,
    {
        BackupInfo {
            backup_id: self.backup_id.clone(),
            timestamp: self.timestamp,
            node_id: self.node_id.clone(),
            collection_name: self.collection_name.clone(),
            vector_count: self.vector_count,
            size_bytes: self.size_bytes,
            compression_percent: self.compression_percent,
            status: self.status.clone(),
        }
    }
}

/// The values of a sequence of backups, in order.
pub open spec fn backup_views(backups: Seq<BackupInfo>) -> Seq<BackupView> {
    backups.map_values(|b: BackupInfo| b@)
}

/// A backup taken at `timestamp` has outlived a retention of `retention_days`
/// days at time `now`.
pub open spec fn is_expired(timestamp: u64, now: u64, retention_days: u32) -> bool {
    timestamp + retention_days * SECONDS_PER_DAY < now
}

/// The backups of `backups` that have not outlived the retention at `now`.
pub open spec fn retained(backups: Seq<BackupView>, now: u64, retention_days: u32) -> Seq<
    BackupView,
> {
    backups.filter(|b: BackupView| !is_expired(b.timestamp, now, retention_days))
}

/// The backups of `backups` that have outlived the retention at `now`.
pub open spec fn expired(backups: Seq<BackupView>, now: u64, retention_days: u32) -> Seq<
    BackupView,
> {
    backups.filter(|b: BackupView| is_expired(b.timestamp, now, retention_days))
}

/// The identifiers of the backups of `backups` that have outlived the
/// retention at `now`.
pub open spec fn expired_ids(backups: Seq<BackupView>, now: u64, retention_days: u32) -> Seq<
    Seq<char>,
> {
    expired(backups, now, retention_days).map_values(|b: BackupView| b.backup_id)
}

/// The position of the first backup with identifier `id`, or the length of
/// `backups` if there is none.
pub open spec fn position_of_backup(backups: Seq<BackupView>, id: Seq<char>) -> int
    decreases backups.len(),
{
    if backups.len() == 0 {
        0
    } else if backups[0].backup_id == id {
        0
    } else {
        1 + position_of_backup(backups.drop_first(), id)
    }
}

/// `position_of_backup` is the least position of a backup with that
/// identifier.
pub proof fn lemma_position_of_backup(backups: Seq<BackupView>, id: Seq<char>)
    ensures
        0 <= position_of_backup(backups, id) <= backups.len(),
        position_of_backup(backups, id) < backups.len() ==> backups[position_of_backup(
            backups,
            id,
        )].backup_id == id,
        forall|j: int|
            0 <= j < position_of_backup(backups, id) ==> (#[trigger] backups[j]).backup_id != id,
    decreases backups.len(),
{
    if backups.len() > 0 && backups[0].backup_id != id {
        let rest = backups.drop_first();
        lemma_position_of_backup(rest, id);
        let at = position_of_backup(rest, id);
        assert forall|j: int| 0 <= j < 1 + at implies (#[trigger] backups[j]).backup_id != id by {
            if j > 0 {
                assert(backups[j] == rest[j - 1]);
            }
        }
        if at < rest.len() {
            assert(backups[1 + at] == rest[at]);
        }
    }
}

/// A position before which no backup has the identifier `id` is
/// `position_of_backup`, if the backup there has it or the position is the
/// length.
pub proof fn lemma_position_of_backup_is(backups: Seq<BackupView>, id: Seq<char>, at: int)
    requires
        0 <= at <= backups.len(),
        forall|j: int| 0 <= j < at ==> (#[trigger] backups[j]).backup_id != id,
        at < backups.len() ==> backups[at].backup_id == id,
    ensures
        position_of_backup(backups, id) == at,
{
    lemma_position_of_backup(backups, id);
    let f = position_of_backup(backups, id);
    if f < at {
        assert(backups[f].backup_id != id);
    }
    if at < f {
        assert(backups[at].backup_id != id);
    }
}

/// Whether a backup taken at `timestamp` has outlived a retention of
/// `retention_days` days at time `now`.
pub fn backup_is_expired(timestamp: u64, now: u64, retention_days: u32) -> (expired: bool)
    ensures
        expired == is_expired(timestamp, now, retention_days),
{
    let span: u128 = (retention_days as u128) * 86_400;
    let kept_until: u128 = (timestamp as u128) + span;
    kept_until < (now as u128)
}

/// Keeps the catalogue of backups.
#[derive(Debug)]
pub struct BackupManager {
    config: BackupConfig,
    backups: Vec<BackupInfo>,
}

/// The mathematical value of a [`BackupManager`].
pub struct BackupCatalogue {
    pub config: BackupConfigView,
    pub backups: Seq<BackupView>,
}

impl View for BackupManager {
    type V = BackupCatalogue;

    closed spec fn view(&self) -> BackupCatalogue {
        BackupCatalogue { config: self.config@, backups: backup_views(self.backups@) }
    }
}

impl BackupManager {
    /// A manager with an empty catalogue that keeps compressed, unencrypted
    /// backups under `./backups` for 7 days and takes one every 24 hours.
    pub fn new() -> (manager: Self)
        ensures
            manager@.backups == Seq::<BackupView>::empty(),
            manager@.config == (BackupConfigView {
                backup_dir: "./backups"@,
                backup_interval_secs: 86_400,
                retention_days: 7,
                compression: true,
                encryption: false,
                encryption_key: None,
            }),
    {
        let manager = BackupManager {
            config: BackupConfig {
                backup_dir: "./backups".to_string(),
                backup_interval_secs: 86_400,
                retention_days: 7,
                compression: true,
                encryption: false,
                encryption_key: None,
            },
            backups: Vec::new(),
        };
        assert(manager@.backups =~= Seq::<BackupView>::empty());
        manager
    }

    /// The same manager with `config` in the place of its configuration.
    pub fn with_config(self, config: BackupConfig) -> (manager: Self)
        ensures
            manager@.config == config@,
            manager@.backups == self@.backups,
    {
        let mut manager = self;
        manager.config = config;
        manager
    }

    /// The configuration in use.
    pub fn config(&self) -> (config: BackupConfig)
        ensures
            config@ == self@.config,
    {
        self.config.clone()
    }

    /// Enters into the catalogue a completed backup `backup_id` of
    /// `collection_name` on `node_id`, taken at `timestamp`, whose file holds
    /// `size_bytes` bytes. Returns the new entry.
    pub fn record_backup(
        &mut self,
        backup_id: String,
        node_id: &str,
        collection_name: &str,
        timestamp: u64,
        size_bytes: u64,
    ) -> (info: BackupInfo)
        ensures
            info@ == (BackupView {
                backup_id: backup_id@,
                timestamp: timestamp,
                node_id: node_id@,
                collection_name: collection_name@,
                vector_count: 1000,
                size_bytes: size_bytes,
                compression_percent: 50,
                status: "completed"@,
            }),
            final(self)@.config == old(self)@.config,
            final(self)@.backups == old(self)@.backups.push(info@),
    {
        let info = BackupInfo {
            backup_id: backup_id,
            timestamp: timestamp,
            node_id: node_id.to_string(),
            collection_name: collection_name.to_string(),
            vector_count: 1000,
            size_bytes: size_bytes,
            compression_percent: 50,
            status: "completed".to_string(),
        };
        self.backups.push(info.clone());
        assert(self@.backups =~= old(self)@.backups.push(info@));
        info
    }

    /// Every backup of the catalogue, oldest entry first.
    pub fn list_backups(&self) -> (backups: Vec<BackupInfo>)
        ensures
            backup_views(backups@) == self@.backups,
    {
        let mut out: Vec<BackupInfo> = Vec::new();
        let mut i: usize = 0;
        while i < self.backups.len()
            invariant
                i <= self.backups.len(),
                out@ == self.backups@.take(i as int),
            decreases self.backups.len() - i,
        {
            out.push(self.backups[i].clone());
            assert(self.backups@.take(i + 1) =~= self.backups@.take(i as int).push(
                self.backups@[i as int],
            ));
            i += 1;
        }
        assert(self.backups@.take(i as int) =~= self.backups@);
        out
    }

    /// The position of the first backup with identifier `backup_id`.
    fn find(&self, backup_id: &str) -> (at: usize)
        ensures
            at == position_of_backup(self@.backups, backup_id@),
            at <= self.backups.len(),
    {
        let ghost all = self@.backups;
        let mut i: usize = 0;
        while i < self.backups.len()
            invariant
                i <= self.backups.len(),
                all == backup_views(self.backups@),
                forall|j: int| 0 <= j < i ==> (#[trigger] all[j]).backup_id != backup_id@,
            decreases self.backups.len() - i,
        {
            assert(all[i as int] == self.backups[i as int]@);
            if str_same(self.backups[i].backup_id.as_str(), backup_id) {
                proof {
                    lemma_position_of_backup_is(all, backup_id@, i as int);
                }
                return i;
            }
            i += 1;
        }
        proof {
            lemma_position_of_backup_is(all, backup_id@, i as int);
        }
        i
    }

    /// The first backup with identifier `backup_id`, if there is one.
    pub fn get_backup(&self, backup_id: &str) -> (found: Option<BackupInfo>)
        ensures
            match found {
                Some(info) => {
                    let at = position_of_backup(self@.backups, backup_id@);
                    at < self@.backups.len() && info@ == self@.backups[at]
                },
                None => position_of_backup(self@.backups, backup_id@) == self@.backups.len(),
            },
    {
        let at = self.find(backup_id);
        if at < self.backups.len() {
            assert(self@.backups[at as int] == self.backups[at as int]@);
            Some(self.backups[at].clone())
        } else {
            None
        }
    }

    /// Strikes the first backup with identifier `backup_id` from the catalogue.
    /// Returns whether there was one.
    pub fn delete_backup(&mut self, backup_id: &str) -> (deleted: bool)
        ensures
            final(self)@.config == old(self)@.config,
            deleted == (position_of_backup(old(self)@.backups, backup_id@) < old(
                self,
            )@.backups.len()),
            deleted ==> final(self)@.backups == old(self)@.backups.remove(
                position_of_backup(old(self)@.backups, backup_id@),
            ),
            !deleted ==> final(self)@.backups == old(self)@.backups,
    {
        let at = self.find(backup_id);
        if at < self.backups.len() {
            self.backups.remove(at);
            assert(self@.backups =~= old(self)@.backups.remove(at as int));
            true
        } else {
            false
        }
    }

    /// Strikes from the catalogue every backup that has outlived the configured
    /// retention at time `now`, and returns the identifiers of those backups,
    /// oldest entry first, so that the caller can delete their files.
    pub fn cleanup_old_backups(&mut self, now: u64) -> (removed: Vec<String>)
        ensures
            final(self)@.config == old(self)@.config,
            final(self)@.backups == retained(
                old(self)@.backups,
                now,
                old(self)@.config.retention_days,
            ),
            removed@.map_values(|s: String| s@) == expired_ids(
                old(self)@.backups,
                now,
                old(self)@.config.retention_days,
            ),
    {
        let ghost all = self@.backups;
        let days = self.config.retention_days;
        let mut kept: Vec<BackupInfo> = Vec::new();
        let mut removed: Vec<String> = Vec::new();
        let mut i: usize = 0;
        proof {
            lemma_filter_take_zero(all, |b: BackupView| !is_expired(b.timestamp, now, days));
            lemma_filter_take_zero(all, |b: BackupView| is_expired(b.timestamp, now, days));
        }
        while i < self.backups.len()
            invariant
                i <= self.backups.len(),
                self@ == old(self)@,
                all == backup_views(self.backups@),
                days == self.config.retention_days,
                backup_views(kept@) =~= retained(all.take(i as int), now, days),
                removed@.map_values(|s: String| s@) =~= expired_ids(all.take(i as int), now, days),
            decreases self.backups.len() - i,
        {
            proof {
                lemma_filter_take_step(
                    all,
                    |b: BackupView| !is_expired(b.timestamp, now, days),
                    i as int,
                );
                lemma_filter_take_step(
                    all,
                    |b: BackupView| is_expired(b.timestamp, now, days),
                    i as int,
                );
                assert(all[i as int] == self.backups[i as int]@);
            }
            if backup_is_expired(self.backups[i].timestamp, now, days) {
                removed.push(self.backups[i].backup_id.clone());
                proof {
                    let shorter = expired(all.take(i as int), now, days);
                    let longer = expired(all.take(i + 1), now, days);
                    assert(longer == shorter.push(all[i as int]));
                    assert(longer.map_values(|b: BackupView| b.backup_id) =~= shorter.map_values(
                        |b: BackupView| b.backup_id,
                    ).push(all[i as int].backup_id));
                }
            } else {
                kept.push(self.backups[i].clone());
            }
            i += 1;
        }
        proof {
            assert(all.take(i as int) =~= all);
        }
        self.backups = kept;
        removed
    }
}

} // verus!
