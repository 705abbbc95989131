//! The download manager's decisions: mapping client states to task states,
//! recording dispatches, reconciling the client's snapshot into the task
//! table, and choosing what to do when a download completes.
use vstd::prelude::*;

use crate::renamer::{spec_join, spec_replace_path, BangumiInfo};
use crate::task_store::{
    spec_blocks_redispatch, spec_count_hash, spec_find_hash, DownloadTask, TaskRow, TaskStatus,
    TaskTable,
};
use crate::text::spec_find_char;
use crate::torrent::TorrentMeta;

verus! {

/// The torrent client variants the daemon can drive.
#[derive(Debug, Clone, Copy, PartialEq, Eq, Structural)]
pub enum DownloaderType {
    QBittorrent,
    Dummy,
}

/// The downloader adapter's error kinds.
#[derive(Debug)]
pub enum DownloaderError {
    InvalidAuthentication(String),
    ClientError(String),
    TorrentInaccessible(crate::torrent::TorrentInaccessibleError),
    DbError(String),
}

/// One torrent as the client's snapshot reports it.
#[derive(Debug)]
pub struct DownloadingTorrent {
    pub hash: String,
    pub status: TaskStatus,
    /// Directory the client stores the torrent's data in.
    pub save_path: String,
    /// File name for a single-file torrent, directory name otherwise.
    pub name: String,
}

impl Clone for DownloadingTorrent {
    fn clone(&self) -> (r: Self)
        ensures
            r == *self,
    {
        DownloadingTorrent {
            hash: self.hash.clone(),
            status: self.status,
            save_path: self.save_path.clone(),
            name: self.name.clone(),
        }
    }
}

impl DownloadingTorrent {
    /// The full path of the torrent's data: its save path joined with its
    /// name.
    pub fn get_file_path(&self) -> (r: String)
        ensures
            r@ == spec_join(self.save_path@, self.name@),
    {
        crate::renamer::join_path(self.save_path.as_str(), self.name.as_str())
    }
}

/// A state the torrent client reports for one torrent.
#[derive(Debug, Clone, Copy, PartialEq, Eq, Structural)]
pub enum ClientState {
    Allocating,
    CheckingUP,
    ForcedUP,
    Downloading,
    QueuedDL,
    StalledDL,
    CheckingDL,
    ForcedDL,
    CheckingResumeData,
    MetaDL,
    Uploading,
    PausedUP,
    QueuedUP,
    StalledUP,
    PausedDL,
    Error,
    MissingFiles,
    Moving,
    Unknown,
}

/// The task status a client state maps to: queued, checking, downloading and
/// forced states are `Downloading`; uploading and the paused-, queued- and
/// stalled-after-completion states are `Completed`; a download paused by the
/// user is `Pause`; errors, missing files, moving and unknown states are
/// `Error`.
pub open spec fn spec_task_status_of(s: ClientState) -> TaskStatus {
    match s {
        ClientState::Allocating => TaskStatus::Downloading,
        ClientState::CheckingUP => TaskStatus::Downloading,
        ClientState::ForcedUP => TaskStatus::Downloading,
        ClientState::Downloading => TaskStatus::Downloading,
        ClientState::QueuedDL => TaskStatus::Downloading,
        ClientState::StalledDL => TaskStatus::Downloading,
        ClientState::CheckingDL => TaskStatus::Downloading,
        ClientState::ForcedDL => TaskStatus::Downloading,
        ClientState::CheckingResumeData => TaskStatus::Downloading,
        ClientState::MetaDL => TaskStatus::Downloading,
        ClientState::Uploading => TaskStatus::Completed,
        ClientState::PausedUP => TaskStatus::Completed,
        ClientState::QueuedUP => TaskStatus::Completed,
        ClientState::StalledUP => TaskStatus::Completed,
        ClientState::PausedDL => TaskStatus::Pause,
        ClientState::Error => TaskStatus::Error,
        ClientState::MissingFiles => TaskStatus::Error,
        ClientState::Moving => TaskStatus::Error,
        ClientState::Unknown => TaskStatus::Error,
    }
}

/// Map a client state to the task status stored for it.
pub fn task_status_of(s: ClientState) -> (r: TaskStatus)
    ensures
        r == spec_task_status_of(s),
{
    match s {
        ClientState::Allocating => TaskStatus::Downloading,
        ClientState::CheckingUP => TaskStatus::Downloading,
        ClientState::ForcedUP => TaskStatus::Downloading,
        ClientState::Downloading => TaskStatus::Downloading,
        ClientState::QueuedDL => TaskStatus::Downloading,
        ClientState::StalledDL => TaskStatus::Downloading,
        ClientState::CheckingDL => TaskStatus::Downloading,
        ClientState::ForcedDL => TaskStatus::Downloading,
        ClientState::CheckingResumeData => TaskStatus::Downloading,
        ClientState::MetaDL => TaskStatus::Downloading,
        ClientState::Uploading => TaskStatus::Completed,
        ClientState::PausedUP => TaskStatus::Completed,
        ClientState::QueuedUP => TaskStatus::Completed,
        ClientState::StalledUP => TaskStatus::Completed,
        ClientState::PausedDL => TaskStatus::Pause,
        ClientState::Error => TaskStatus::Error,
        ClientState::MissingFiles => TaskStatus::Error,
        ClientState::Moving => TaskStatus::Error,
        ClientState::Unknown => TaskStatus::Error,
    }
}

/// Fill in the default save path and category a dispatch uses when the feed
/// left them unset.
pub fn with_default_placement(meta: &TorrentMeta) -> (r: TorrentMeta)
    ensures
        r.url == meta.url,
        match (meta.save_path, r.save_path) {
            (Some(p), Some(q)) => p == q,
            (None, Some(q)) => q@ == "/downloads/bangumi"@,
            _ => false,
        },
        match (meta.category, r.category) {
            (Some(p), Some(q)) => p == q,
            (None, Some(q)) => q@ == "Bangumi"@,
            _ => false,
        },
{
    let save_path = match &meta.save_path {
        Some(p) => Some(p.clone()),
        None => Some(String::from_str("/downloads/bangumi")),
    };
    let category = match &meta.category {
        Some(p) => Some(p.clone()),
        None => Some(String::from_str("Bangumi")),
    };
    TorrentMeta { url: meta.url.clone(), save_path, category }
}

/// Record an accepted dispatch in the task table: the task starts
/// `Downloading` and unrenamed, frozen with the renaming snapshot `info`.
/// Returns how many rows were inserted: 0 exactly when a row with the same
/// hash already blocked re-dispatch, and afterwards exactly one row carries
/// the hash.
pub fn record_dispatch(
    table: &mut TaskTable,
    rss_id: Option<i64>,
    torrent_hash: &str,
    torrent_url: &str,
    start_time: &str,
    info: &BangumiInfo,
) -> (r: u64)
    requires
        old(table).wf(),
    ensures
        final(table).wf(),
        spec_count_hash(final(table).rows@, torrent_hash@) == 1,
        ({
            let rows = old(table).rows@;
            let i = spec_find_hash(rows, torrent_hash@, 0);
            if i < rows.len() && spec_blocks_redispatch(rows[i].task.status) {
                r == 0 && final(table).rows@ == rows
            } else {
                let base = if i < rows.len() {
                    rows.remove(i)
                } else {
                    rows
                };
                let added = final(table).rows@.last();
                &&& r == 1
                &&& final(table).rows@ == base.push(added)
                &&& added.task.torrent_hash@ == torrent_hash@
                &&& added.task.status is Downloading
                &&& !added.task.renamed
                &&& added.task.id is None
                &&& added.task.rss_id == rss_id
                &&& match added.task.torrent_url {
                    Some(u) => u@ == torrent_url@,
                    None => false,
                }
                &&& added.task.start_time@ == start_time@
                &&& added.info == *info
                &&& added.download_path is None
            }
        }),
{
    let task = DownloadTask {
        id: None,
        rss_id,
        torrent_hash: torrent_hash.to_owned(),
        torrent_url: Some(torrent_url.to_owned()),
        start_time: start_time.to_owned(),
        status: TaskStatus::Downloading,
        renamed: false,
    };
    let row = TaskRow { task, info: info.clone(), download_path: None };
    table.add_task(row)
}

/// An event handed to the completion hooks: the status a torrent was
/// observed to change to, and the torrent as the snapshot reported it.
#[derive(Debug)]
pub struct HookEvent {
    pub status: TaskStatus,
    pub torrent: DownloadingTorrent,
}

/// No entry before position `j` of the snapshot carries hash `h`.
pub open spec fn spec_hash_not_before(snap: Seq<DownloadingTorrent>, j: int, h: Seq<char>) -> bool {
    forall|k: int| 0 <= k < j ==> (#[trigger] snap[k]).hash@ != h
}

/// The events one reconcile pass over `snap` emits, judged against the table
/// rows `rows` it started from, in snapshot order: one event per entry whose
/// hash a row tracks with a stored status differing from the observed one,
/// carrying the observed status and the entry itself.
pub open spec fn spec_reconcile_events(
    rows: Seq<TaskRow>,
    snap: Seq<DownloadingTorrent>,
    k: int,
) -> Seq<HookEvent>
    decreases snap.len() - k,
{
    if k < 0 {
        spec_reconcile_events(rows, snap, 0)
    } else if k >= snap.len() {
        Seq::empty()
    } else {
        let i = spec_find_hash(rows, snap[k].hash@, 0);
        (if i < rows.len() && rows[i].task.status != snap[k].status {
            seq![HookEvent { status: snap[k].status, torrent: snap[k] }]
        } else {
            Seq::<HookEvent>::empty()
        }) + spec_reconcile_events(rows, snap, k + 1)
    }
}

/// Tables whose rows carry the same hashes index a hash identically.
proof fn lemma_find_hash_same(rows1: Seq<TaskRow>, rows2: Seq<TaskRow>, h: Seq<char>, i: int)
    requires
        rows1.len() == rows2.len(),
        forall|k: int|
            0 <= k < rows1.len() ==> (#[trigger] rows1[k]).task.torrent_hash
                == rows2[k].task.torrent_hash,
        0 <= i <= rows1.len(),
    ensures
        spec_find_hash(rows1, h, i) == spec_find_hash(rows2, h, i),
    decreases rows1.len() - i,
{
    if i < rows1.len() && rows1[i].task.torrent_hash@ != h {
        lemma_find_hash_same(rows1, rows2, h, i + 1);
    }
}

/// Reconcile the client's snapshot into the task table. For each snapshot
/// entry whose hash the table tracks, when the observed status differs from
/// the stored one the row is brought up to date — status and download path,
/// unless the row is renamed and so terminal — and exactly one event is
/// emitted for the hooks, in snapshot order (`spec_reconcile_events`).
/// Entries the table does not track are skipped; rows whose hash the
/// snapshot does not report, and rows without a status delta, are left
/// untouched; nothing is ever inserted. The snapshot lists each torrent
/// once.
///
/// The contract carries the completion guarantees: an empty snapshot changes
/// nothing; an event exists exactly for an observed status change, so the
/// completion hook runs at most once per observed transition into
/// `Completed`; and after the call every tracked hash the snapshot reports
/// completed is stored completed, so the next reconcile sees no delta there
/// and stays silent.
#[verifier::rlimit(80)]
pub fn reconcile(table: &mut TaskTable, snapshot: &Vec<DownloadingTorrent>) -> (events: Vec<
    HookEvent,
>)
    requires
        old(table).wf(),
        forall|k1: int, k2: int|
            0 <= k1 < k2 < snapshot@.len() ==> (#[trigger] snapshot@[k1]).hash@
                != (#[trigger] snapshot@[k2]).hash@,
    ensures
        final(table).wf(),
        snapshot@.len() == 0 ==> final(table).rows@ == old(table).rows@ && events@.len() == 0,
        final(table).rows@.len() == old(table).rows@.len(),
        forall|i: int|
            0 <= i < old(table).rows@.len() ==> (#[trigger] final(table).rows@[i]).task.torrent_hash
                == old(table).rows@[i].task.torrent_hash,
        events@ == spec_reconcile_events(old(table).rows@, snapshot@, 0),
        forall|k: int|
            #![trigger snapshot@[k]]
            0 <= k < snapshot@.len() ==> ({
                let i = spec_find_hash(old(table).rows@, snapshot@[k].hash@, 0);
                i < old(table).rows@.len() ==> ({
                    let row0 = old(table).rows@[i];
                    if row0.task.status != snapshot@[k].status && !row0.task.renamed {
                        &&& final(table).rows@[i].task.status == snapshot@[k].status
                        &&& match final(table).rows@[i].download_path {
                            Some(p) => p@ == crate::renamer::spec_join(
                                snapshot@[k].save_path@,
                                snapshot@[k].name@,
                            ),
                            None => false,
                        }
                        &&& final(table).rows@[i].task.torrent_hash == row0.task.torrent_hash
                        &&& final(table).rows@[i].task.torrent_url == row0.task.torrent_url
                        &&& final(table).rows@[i].task.id == row0.task.id
                        &&& final(table).rows@[i].task.rss_id == row0.task.rss_id
                        &&& final(table).rows@[i].task.start_time == row0.task.start_time
                        &&& final(table).rows@[i].task.renamed == row0.task.renamed
                        &&& final(table).rows@[i].info == row0.info
                    } else {
                        final(table).rows@[i] == row0
                    }
                })
            }),
        forall|i: int|
            0 <= i < old(table).rows@.len() && spec_hash_not_before(
                snapshot@,
                snapshot@.len() as int,
                old(table).rows@[i].task.torrent_hash@,
            ) ==> (#[trigger] final(table).rows@[i]) == old(table).rows@[i],
        forall|k: int, i: int|
            0 <= k < snapshot@.len() && 0 <= i < final(table).rows@.len() ==> (((
            #[trigger] final(table).rows@[i]).task.torrent_hash@ == (
            #[trigger] snapshot@[k]).hash@ && snapshot@[k].status is Completed) ==> final(table).rows@[i].task.status is Completed),
{
    let ghost rows0 = old(table).rows@;
    let mut events: Vec<HookEvent> = Vec::new();
    if snapshot.len() == 0 {
        proof {
            assert(spec_reconcile_events(rows0, snapshot@, 0) =~= Seq::<HookEvent>::empty());
        }
        return events;
    }
    let mut j: usize = 0;
    proof {
        assert(events@ + spec_reconcile_events(rows0, snapshot@, 0) =~= spec_reconcile_events(
            rows0,
            snapshot@,
            0,
        ));
    }
    #[verifier::loop_isolation(false)]
    while j < snapshot.len()
        invariant
            j <= snapshot@.len(),
            table.wf(),
            table.rows@.len() == rows0.len(),
            forall|i: int|
                0 <= i < rows0.len() ==> (#[trigger] table.rows@[i]).task.torrent_hash
                    == rows0[i].task.torrent_hash,
            forall|i: int|
                0 <= i < rows0.len() && spec_hash_not_before(
                    snapshot@,
                    j as int,
                    rows0[i].task.torrent_hash@,
                ) ==> (#[trigger] table.rows@[i]) == rows0[i],
            spec_reconcile_events(rows0, snapshot@, 0) == events@ + spec_reconcile_events(
                rows0,
                snapshot@,
                j as int,
            ),
            forall|k: int|
                #![trigger snapshot@[k]]
                0 <= k < j ==> ({
                    let i = spec_find_hash(rows0, snapshot@[k].hash@, 0);
                    i < rows0.len() ==> ({
                        let row0 = rows0[i];
                        if row0.task.status != snapshot@[k].status && !row0.task.renamed {
                            &&& table.rows@[i].task.status == snapshot@[k].status
                            &&& match table.rows@[i].download_path {
                                Some(p) => p@ == crate::renamer::spec_join(
                                    snapshot@[k].save_path@,
                                    snapshot@[k].name@,
                                ),
                                None => false,
                            }
                            &&& table.rows@[i].task.torrent_hash == row0.task.torrent_hash
                            &&& table.rows@[i].task.torrent_url == row0.task.torrent_url
                            &&& table.rows@[i].task.id == row0.task.id
                            &&& table.rows@[i].task.rss_id == row0.task.rss_id
                            &&& table.rows@[i].task.start_time == row0.task.start_time
                            &&& table.rows@[i].task.renamed == row0.task.renamed
                            &&& table.rows@[i].info == row0.info
                        } else {
                            table.rows@[i] == row0
                        }
                    })
                }),
            forall|k: int, i: int|
                0 <= k < j && 0 <= i < table.rows@.len() ==> (((
                #[trigger] table.rows@[i]).task.torrent_hash@ == (#[trigger] snapshot@[k]).hash@
                    && snapshot@[k].status is Completed) ==> table.rows@[i].task.status
                    is Completed),
        decreases snapshot@.len() - j,
    {
        let ghost rows_pre = table.rows@;
        let torrent = &snapshot[j];
        proof {
            crate::task_store::lemma_find_hash_props(rows_pre, torrent.hash@, 0);
            lemma_find_hash_same(rows0, rows_pre, torrent.hash@, 0);
            assert(snapshot@[j as int] == *torrent);
        }
        let stored = table.get_task(torrent.hash.as_str());
        match stored {
            Some(task_in_store) => {
                let ghost i = crate::task_store::spec_find_hash(rows_pre, torrent.hash@, 0);
                proof {
                    // This hash was not seen earlier, so its row is untouched.
                    assert(rows_pre[i].task.torrent_hash@ == torrent.hash@);
                    assert(spec_hash_not_before(snapshot@, j as int, rows0[i].task.torrent_hash@));
                    assert(rows_pre[i] == rows0[i]);
                }
                if !status_eq(task_in_store.status, torrent.status) {
                    let path = torrent.get_file_path();
                    table.update_task_status(torrent.hash.as_str(), torrent.status, path.as_str());
                    let ghost ev = HookEvent { status: torrent.status, torrent: *torrent };
                    let ghost events0 = events@;
                    events.push(HookEvent { status: torrent.status, torrent: torrent.clone() });
                    proof {
                        assert(events@ == events0.push(ev));
                        assert(spec_reconcile_events(rows0, snapshot@, j as int) == seq![ev]
                            + spec_reconcile_events(rows0, snapshot@, j + 1 as int));
                        assert(events0 + (seq![ev] + spec_reconcile_events(
                            rows0,
                            snapshot@,
                            j + 1 as int,
                        )) =~= events0.push(ev) + spec_reconcile_events(
                            rows0,
                            snapshot@,
                            j + 1 as int,
                        ));
                        if rows_pre[i].task.renamed {
                            // A renamed row is terminal: the table is
                            // unchanged, and since its stored status is
                            // Completed, the differing observation is not.
                            assert(table.rows@ == rows_pre);
                            assert(rows_pre[i].task.status is Completed);
                        } else {
                            assert forall|ii: int|
                                0 <= ii < rows0.len() implies (#[trigger] table.rows@[ii]).task.torrent_hash
                                == rows0[ii].task.torrent_hash by {
                                if ii != i {
                                    assert(table.rows@[ii] == rows_pre[ii]);
                                }
                            }
                            assert(table.rows@[i].task.status == torrent.status);
                        }
                        assert(!spec_hash_not_before(
                            snapshot@,
                            j + 1 as int,
                            rows0[i].task.torrent_hash@,
                        )) by {
                            assert(snapshot@[j as int].hash@ == rows0[i].task.torrent_hash@);
                        }
                        assert forall|ii: int|
                            0 <= ii < rows0.len() && spec_hash_not_before(
                                snapshot@,
                                j + 1 as int,
                                rows0[ii].task.torrent_hash@,
                            ) implies (#[trigger] table.rows@[ii]) == rows0[ii] by {
                            assert(spec_hash_not_before(
                                snapshot@,
                                j as int,
                                rows0[ii].task.torrent_hash@,
                            ));
                            if ii != i {
                                assert(table.rows@[ii] == rows_pre[ii]);
                            }
                        }
                        assert forall|k: int|
                            #![trigger snapshot@[k]]
                            0 <= k < j + 1 implies ({
                            let ik = spec_find_hash(rows0, snapshot@[k].hash@, 0);
                            ik < rows0.len() ==> ({
                                let row0 = rows0[ik];
                                if row0.task.status != snapshot@[k].status && !row0.task.renamed {
                                    &&& table.rows@[ik].task.status == snapshot@[k].status
                                    &&& match table.rows@[ik].download_path {
                                        Some(p) => p@ == crate::renamer::spec_join(
                                            snapshot@[k].save_path@,
                                            snapshot@[k].name@,
                                        ),
                                        None => false,
                                    }
                                    &&& table.rows@[ik].task.torrent_hash
                                        == row0.task.torrent_hash
                                    &&& table.rows@[ik].task.torrent_url == row0.task.torrent_url
                                    &&& table.rows@[ik].task.id == row0.task.id
                                    &&& table.rows@[ik].task.rss_id == row0.task.rss_id
                                    &&& table.rows@[ik].task.start_time == row0.task.start_time
                                    &&& table.rows@[ik].task.renamed == row0.task.renamed
                                    &&& table.rows@[ik].info == row0.info
                                } else {
                                    table.rows@[ik] == row0
                                }
                            })
                        }) by {
                            let ik = spec_find_hash(rows0, snapshot@[k].hash@, 0);
                            crate::task_store::lemma_find_hash_props(
                                rows0,
                                snapshot@[k].hash@,
                                0,
                            );
                            if k < j && ik < rows0.len() {
                                if ik != i {
                                    assert(table.rows@[ik] == rows_pre[ik]);
                                } else {
                                    assert(rows0[ik].task.torrent_hash@ == snapshot@[k].hash@);
                                    assert(snapshot@[k].hash@ != snapshot@[j as int].hash@);
                                    assert(false);
                                }
                            }
                        }
                        assert forall|k: int, ii: int|
                            0 <= k < j + 1 && 0 <= ii < table.rows@.len() implies (((
                        #[trigger] table.rows@[ii]).task.torrent_hash@ == (
                        #[trigger] snapshot@[k]).hash@ && snapshot@[k].status is Completed)
                            ==> table.rows@[ii].task.status is Completed) by {
                            if ii != i {
                                assert(table.rows@[ii] == rows_pre[ii]);
                            } else {
                                if k < j {
                                    assert(snapshot@[k].hash@ != snapshot@[j as int].hash@);
                                }
                            }
                        }
                    }
                } else {
                    proof {
                        assert(spec_reconcile_events(rows0, snapshot@, j as int)
                            == spec_reconcile_events(rows0, snapshot@, j + 1 as int));
                        assert forall|k: int, ii: int|
                            0 <= k < j + 1 && 0 <= ii < table.rows@.len() implies (((
                        #[trigger] table.rows@[ii]).task.torrent_hash@ == (
                        #[trigger] snapshot@[k]).hash@ && snapshot@[k].status is Completed)
                            ==> table.rows@[ii].task.status is Completed) by {
                            if k == j && table.rows@[ii].task.torrent_hash@ == torrent.hash@ {
                                if ii != i {
                                    assert(table.rows@[ii].task.torrent_hash@
                                        == table.rows@[i].task.torrent_hash@);
                                    assert(false);
                                }
                            }
                        }
                    }
                }
            },
            None => {
                proof {
                    assert(spec_reconcile_events(rows0, snapshot@, j as int)
                        == spec_reconcile_events(rows0, snapshot@, j + 1 as int));
                    assert forall|k: int, ii: int|
                        0 <= k < j + 1 && 0 <= ii < table.rows@.len() implies (((
                    #[trigger] table.rows@[ii]).task.torrent_hash@ == (
                    #[trigger] snapshot@[k]).hash@ && snapshot@[k].status is Completed)
                        ==> table.rows@[ii].task.status is Completed) by {
                        if k == j {
                            assert(rows_pre[ii].task.torrent_hash@ != torrent.hash@);
                        }
                    }
                }
            },
        }
        j = j + 1;
    }
    proof {
        assert(spec_reconcile_events(rows0, snapshot@, snapshot@.len() as int) =~= Seq::<
            HookEvent,
        >::empty());
        assert(events@ + Seq::<HookEvent>::empty() =~= events@);
    }
    events
}


/// What the completion hook decides to do for one completed torrent.
#[derive(Debug)]
pub enum CompletionStep {
    /// The task is already renamed: nothing to do.
    SkipRenamed,
    /// No row carries the hash: the torrent was downloaded outside the
    /// pipeline.
    SkipUntracked,
    /// The row has no renaming snapshot: the task was added manually.
    SkipNoInfo,
    /// Rename: link the data found at `src_path` using `info`.
    DoRename { src_path: String, info: BangumiInfo },
}

/// Decide what the completion hook does for `torrent`: skip when its task is
/// already renamed, untracked, or has no renaming snapshot; otherwise rename
/// from the torrent's data path, translated through the path mapping rule.
pub fn completion_action(table: &TaskTable, torrent: &DownloadingTorrent, path_map: &str) -> (r:
    CompletionStep)
    requires
        path_map@.len() == 0 || spec_find_char(path_map@, 0, ':') < path_map@.len(),
    ensures
        ({
            let i = spec_find_hash(table.rows@, torrent.hash@, 0);
            if i >= table.rows@.len() {
                r is SkipUntracked
            } else if table.rows@[i].task.renamed {
                r is SkipRenamed
            } else {
                match r {
                    CompletionStep::DoRename { src_path, info } => src_path@ == spec_replace_path(
                        spec_join(torrent.save_path@, torrent.name@),
                        path_map@,
                    ) && info == table.rows@[i].info,
                    _ => false,
                }
            }
        }),
{
    match table.is_renamed(torrent.hash.as_str()) {
        None => CompletionStep::SkipUntracked,
        Some(true) => CompletionStep::SkipRenamed,
        Some(false) => {
            let src = torrent.get_file_path();
            let remapped = crate::renamer::replace_path(src.as_str(), path_map);
            match table.get_bangumi_info(torrent.hash.as_str()) {
                Some(info) => CompletionStep::DoRename { src_path: remapped, info },
                None => CompletionStep::SkipNoInfo,
            }
        },
    }
}

/// Whether two task statuses are the same.
fn status_eq(a: TaskStatus, b: TaskStatus) -> (r: bool)
    ensures
        r == (a == b),
{
    a == b
}

} // verus!
