//! The task table: the persistent record of dispatched torrents, keyed by
//! torrent hash, that anchors at-most-once dispatch. The table is modelled
//! in memory; the surrounding program mirrors every operation onto its
//! database row for row.
use vstd::prelude::*;

use crate::renamer::BangumiInfo;
use crate::text::str_equal;

verus! {

/// Lifecycle state of a download task.
#[derive(Debug, Clone, Copy, PartialEq, Eq, Structural)]
pub enum TaskStatus {
    Pause,
    Error,
    Downloading,
    Completed,
}

/// The lowercase label a status is stored under.
pub open spec fn spec_status_label(s: TaskStatus) -> Seq<char> {
    match s {
        TaskStatus::Pause => seq!['p', 'a', 'u', 's', 'e'],
        TaskStatus::Error => seq!['e', 'r', 'r', 'o', 'r'],
        TaskStatus::Downloading => seq![
            'd',
            'o',
            'w',
            'n',
            'l',
            'o',
            'a',
            'd',
            'i',
            'n',
            'g',
        ],
        TaskStatus::Completed => seq!['c', 'o', 'm', 'p', 'l', 'e', 't', 'e', 'd'],
    }
}

impl TaskStatus {
    /// The lowercase label this status is stored under.
    pub fn label(&self) -> (r: String)
        ensures
            r@ == spec_status_label(*self),
    {
        let mut out: Vec<char> = Vec::new();
        match self {
            TaskStatus::Pause => {
                out.push('p');
                out.push('a');
                out.push('u');
                out.push('s');
                out.push('e');
            },
            TaskStatus::Error => {
                out.push('e');
                out.push('r');
                out.push('r');
                out.push('o');
                out.push('r');
            },
            TaskStatus::Downloading => {
                out.push('d');
                out.push('o');
                out.push('w');
                out.push('n');
                out.push('l');
                out.push('o');
                out.push('a');
                out.push('d');
                out.push('i');
                out.push('n');
                out.push('g');
            },
            TaskStatus::Completed => {
                out.push('c');
                out.push('o');
                out.push('m');
                out.push('p');
                out.push('l');
                out.push('e');
                out.push('t');
                out.push('e');
                out.push('d');
            },
        }
        assert(out@ =~= spec_status_label(*self));
        crate::text::string_from_chars(&out)
    }

    /// The status a stored label denotes, if any.
    pub fn from_label(label: &str) -> (r: Option<TaskStatus>)
        ensures
            match r {
                Some(s) => label@ == spec_status_label(s),
                None => forall|s: TaskStatus| label@ != spec_status_label(s),
            },
    {
        let pause = TaskStatus::Pause;
        let error = TaskStatus::Error;
        let downloading = TaskStatus::Downloading;
        let completed = TaskStatus::Completed;
        if str_equal(label, pause.label().as_str()) {
            Some(pause)
        } else if str_equal(label, error.label().as_str()) {
            Some(error)
        } else if str_equal(label, downloading.label().as_str()) {
            Some(downloading)
        } else if str_equal(label, completed.label().as_str()) {
            Some(completed)
        } else {
            assert forall|s: TaskStatus| label@ != spec_status_label(s) by {
                match s {
                    TaskStatus::Pause => {},
                    TaskStatus::Error => {},
                    TaskStatus::Downloading => {},
                    TaskStatus::Completed => {},
                }
            }
            None
        }
    }
}

/// A dispatched torrent as recorded at dispatch time.
#[derive(Debug)]
pub struct DownloadTask {
    pub id: Option<i64>,
    pub rss_id: Option<i64>,
    pub torrent_hash: String,
    pub torrent_url: Option<String>,
    /// RFC 3339 timestamp of the dispatch, kept verbatim.
    pub start_time: String,
    pub status: TaskStatus,
    pub renamed: bool,
}

impl Clone for DownloadTask {
    fn clone(&self) -> (r: Self)
        ensures
            r == *self,
    {
        DownloadTask {
            id: self.id,
            rss_id: self.rss_id,
            torrent_hash: self.torrent_hash.clone(),
            torrent_url: crate::renamer::clone_opt_string(&self.torrent_url),
            start_time: self.start_time.clone(),
            status: self.status,
            renamed: self.renamed,
        }
    }
}

/// One row of the task table: the task, the renaming snapshot frozen at
/// dispatch, and the download path once the adapter exposes it.
#[derive(Debug)]
pub struct TaskRow {
    pub task: DownloadTask,
    pub info: BangumiInfo,
    pub download_path: Option<String>,
}

impl Clone for TaskRow {
    fn clone(&self) -> (r: Self)
        ensures
            r == *self,
    {
        TaskRow {
            task: self.task.clone(),
            info: self.info.clone(),
            download_path: crate::renamer::clone_opt_string(&self.download_path),
        }
    }
}

/// First index whose row carries torrent hash `h`, at or after `i`;
/// `rows.len()` when there is none.
pub open spec fn spec_find_hash(rows: Seq<TaskRow>, h: Seq<char>, i: int) -> int
    decreases rows.len() - i,
{
    if i < 0 {
        spec_find_hash(rows, h, 0)
    } else if i >= rows.len() {
        rows.len() as int
    } else if rows[i].task.torrent_hash@ == h {
        i
    } else {
        spec_find_hash(rows, h, i + 1)
    }
}

/// How many rows carry torrent hash `h`.
pub open spec fn spec_count_hash(rows: Seq<TaskRow>, h: Seq<char>) -> int
    decreases rows.len(),
{
    if rows.len() == 0 {
        0
    } else {
        spec_count_hash(rows.drop_last(), h) + if rows.last().task.torrent_hash@ == h {
            1int
        } else {
            0int
        }
    }
}

/// The statuses under which an existing row blocks a new dispatch.
pub open spec fn spec_blocks_redispatch(s: TaskStatus) -> bool {
    s is Completed || s is Downloading || s is Pause
}

/// What `add_task` does: a row with the same hash in a non-`Error` state
/// blocks the insert (0 rows); an `Error` row is replaced; otherwise the row
/// is appended (1 row).
pub open spec fn spec_add_task(rows: Seq<TaskRow>, row: TaskRow) -> (Seq<TaskRow>, int) {
    let i = spec_find_hash(rows, row.task.torrent_hash@, 0);
    if i < rows.len() {
        if spec_blocks_redispatch(rows[i].task.status) {
            (rows, 0)
        } else {
            (rows.remove(i).push(row), 1)
        }
    } else {
        (rows.push(row), 1)
    }
}

/// The persistent task table.
pub struct TaskTable {
    pub rows: Vec<TaskRow>,
}

impl TaskTable {
    /// Table invariant: one row per torrent hash, and a renamed row is a
    /// completed one.
    pub open spec fn wf(&self) -> bool {
        &&& forall|i: int, j: int|
            0 <= i < j < self.rows@.len() ==> self.rows@[i].task.torrent_hash@
                != self.rows@[j].task.torrent_hash@
        &&& forall|i: int|
            0 <= i < self.rows@.len() ==> (#[trigger] self.rows@[i].task.renamed
                ==> self.rows@[i].task.status is Completed)
    }

    /// An empty table.
    pub fn empty() -> (r: Self)
        ensures
            r.rows@.len() == 0,
            r.wf(),
    {
        TaskTable { rows: Vec::new() }
    }

    /// First index holding `h`, or the number of rows.
    fn find_hash(&self, h: &str) -> (r: usize)
        ensures
            r == spec_find_hash(self.rows@, h@, 0),
            r <= self.rows@.len(),
    {
        let mut j: usize = 0;
        while j < self.rows.len()
            invariant
                j <= self.rows@.len(),
                spec_find_hash(self.rows@, h@, 0) == spec_find_hash(self.rows@, h@, j as int),
            decreases self.rows@.len() - j,
        {
            if str_equal(self.rows[j].task.torrent_hash.as_str(), h) {
                return j;
            }
            j = j + 1;
        }
        j
    }
}

/// Whether some row records `u` as its torrent url.
pub open spec fn spec_url_exists(rows: Seq<TaskRow>, u: Seq<char>) -> bool {
    exists|k: int|
        0 <= k < rows.len() && match #[trigger] rows[k].task.torrent_url {
            Some(s) => s@ == u,
            None => false,
        }
}

impl TaskTable {
    /// Record a dispatched torrent. When a row with the same hash already
    /// exists in a state other than `Error`, nothing changes and 0 is
    /// returned; an `Error` row is replaced and a fresh hash is appended,
    /// 1 being returned either way. Afterwards exactly one row carries the
    /// task's hash: this is the anchor for at-most-once dispatch.
    pub fn add_task(&mut self, row: TaskRow) -> (r: u64)
        requires
            old(self).wf(),
            row.task.renamed ==> row.task.status is Completed,
        ensures
            final(self).rows@ == spec_add_task(old(self).rows@, row).0,
            r as int == spec_add_task(old(self).rows@, row).1,
            final(self).wf(),
            spec_count_hash(final(self).rows@, row.task.torrent_hash@) == 1,
            r == 0 ==> final(self).rows@ == old(self).rows@,
    {
        let ghost rows0 = self.rows@;
        let ghost h = row.task.torrent_hash@;
        proof {
            lemma_find_hash_props(rows0, h, 0);
        }
        let i = {
            let hs = &row.task.torrent_hash;
            self.find_hash(hs.as_str())
        };
        if i < self.rows.len() {
            let blocked = match self.rows[i].task.status {
                TaskStatus::Completed => true,
                TaskStatus::Downloading => true,
                TaskStatus::Pause => true,
                TaskStatus::Error => false,
            };
            if blocked {
                proof {
                    lemma_count_hash_unique(rows0, h);
                }
                return 0;
            }
            self.rows.remove(i);
            self.rows.push(row);
            proof {
                let mid = rows0.remove(i as int);
                assert forall|a: int, b: int| 0 <= a < b < mid.len() implies mid[a].task.torrent_hash@
                    != mid[b].task.torrent_hash@ by {}
                assert forall|k: int| 0 <= k < mid.len() implies mid[k].task.torrent_hash@ != h by {
                    if k < i {
                        assert(mid[k] == rows0[k]);
                    } else {
                        assert(mid[k] == rows0[k + 1]);
                    }
                }
                lemma_table_count(self.rows@, h);
            }
            1
        } else {
            self.rows.push(row);
            proof {
                assert forall|k: int| 0 <= k < rows0.len() implies rows0[k].task.torrent_hash@
                    != h by {}
                lemma_table_count(self.rows@, h);
            }
            1
        }
    }

    /// Whether some row records this torrent url.
    pub fn is_task_exist(&self, torrent_url: &str) -> (r: bool)
        ensures
            r == spec_url_exists(self.rows@, torrent_url@),
    {
        let mut j: usize = 0;
        while j < self.rows.len()
            invariant
                j <= self.rows@.len(),
                forall|k: int|
                    0 <= k < j ==> match #[trigger] self.rows@[k].task.torrent_url {
                        Some(s) => s@ != torrent_url@,
                        None => true,
                    },
            decreases self.rows@.len() - j,
        {
            match &self.rows[j].task.torrent_url {
                Some(u) => {
                    if str_equal(u.as_str(), torrent_url) {
                        return true;
                    }
                },
                None => {},
            }
            j = j + 1;
        }
        false
    }

    /// The task recorded under `torrent_hash`, if any.
    pub fn get_task(&self, torrent_hash: &str) -> (r: Option<DownloadTask>)
        ensures
            ({
                let i = spec_find_hash(self.rows@, torrent_hash@, 0);
                if i < self.rows@.len() {
                    r == Some(self.rows@[i].task)
                } else {
                    r is None
                }
            }),
    {
        let i = self.find_hash(torrent_hash);
        if i < self.rows.len() {
            Some(self.rows[i].task.clone())
        } else {
            None
        }
    }

    /// The renaming snapshot recorded under `torrent_hash`, if any.
    pub fn get_bangumi_info(&self, torrent_hash: &str) -> (r: Option<BangumiInfo>)
        ensures
            ({
                let i = spec_find_hash(self.rows@, torrent_hash@, 0);
                if i < self.rows@.len() {
                    r == Some(self.rows@[i].info)
                } else {
                    r is None
                }
            }),
    {
        let i = self.find_hash(torrent_hash);
        if i < self.rows.len() {
            Some(self.rows[i].info.clone())
        } else {
            None
        }
    }

    /// Whether the task under `torrent_hash` has been renamed; `None` when no
    /// row carries the hash, so that a task created outside this process can
    /// be told apart from one merely not yet renamed.
    pub fn is_renamed(&self, torrent_hash: &str) -> (r: Option<bool>)
        ensures
            ({
                let i = spec_find_hash(self.rows@, torrent_hash@, 0);
                if i < self.rows@.len() {
                    r == Some(self.rows@[i].task.renamed)
                } else {
                    r is None
                }
            }),
    {
        let i = self.find_hash(torrent_hash);
        if i < self.rows.len() {
            Some(self.rows[i].task.renamed)
        } else {
            None
        }
    }

    /// Update the stored status and download path of the row under
    /// `torrent_hash`. A renamed row is terminal for the pipeline and is left
    /// unchanged, as is the table when no row carries the hash.
    pub fn update_task_status(&mut self, torrent_hash: &str, status: TaskStatus, download_path: &str)
        requires
            old(self).wf(),
        ensures
            final(self).wf(),
            ({
                let rows = old(self).rows@;
                let i = spec_find_hash(rows, torrent_hash@, 0);
                if i < rows.len() && !rows[i].task.renamed {
                    &&& final(self).rows@.len() == rows.len()
                    &&& forall|k: int| 0 <= k < rows.len() && k != i ==> final(self).rows@[k] == rows[k]
                    &&& final(self).rows@[i].task.status == status
                    &&& final(self).rows@[i].task.renamed == rows[i].task.renamed
                    &&& final(self).rows@[i].task.torrent_hash == rows[i].task.torrent_hash
                    &&& final(self).rows@[i].task.torrent_url == rows[i].task.torrent_url
                    &&& final(self).rows@[i].task.id == rows[i].task.id
                    &&& final(self).rows@[i].task.rss_id == rows[i].task.rss_id
                    &&& final(self).rows@[i].task.start_time == rows[i].task.start_time
                    &&& final(self).rows@[i].info == rows[i].info
                    &&& match final(self).rows@[i].download_path {
                        Some(p) => p@ == download_path@,
                        None => false,
                    }
                } else {
                    final(self).rows@ == rows
                }
            }),
    {
        let i = self.find_hash(torrent_hash);
        proof {
            lemma_find_hash_props(self.rows@, torrent_hash@, 0);
        }
        if i < self.rows.len() {
            if self.rows[i].task.renamed {
                return ;
            }
            let mut row = self.rows[i].clone();
            row.task.status = status;
            row.download_path = Some(download_path.to_owned());
            self.rows.set(i, row);
        }
    }

    /// Mark the row under `torrent_hash` renamed. Only a completed row can be
    /// renamed; the table is unchanged otherwise.
    pub fn update_task_renamed(&mut self, torrent_hash: &str)
        requires
            old(self).wf(),
        ensures
            final(self).wf(),
            ({
                let rows = old(self).rows@;
                let i = spec_find_hash(rows, torrent_hash@, 0);
                if i < rows.len() && rows[i].task.status is Completed {
                    &&& final(self).rows@.len() == rows.len()
                    &&& forall|k: int| 0 <= k < rows.len() && k != i ==> final(self).rows@[k] == rows[k]
                    &&& final(self).rows@[i].task.renamed
                    &&& final(self).rows@[i].task.status == rows[i].task.status
                    &&& final(self).rows@[i].task.torrent_hash == rows[i].task.torrent_hash
                    &&& final(self).rows@[i].task.torrent_url == rows[i].task.torrent_url
                    &&& final(self).rows@[i].task.id == rows[i].task.id
                    &&& final(self).rows@[i].task.rss_id == rows[i].task.rss_id
                    &&& final(self).rows@[i].task.start_time == rows[i].task.start_time
                    &&& final(self).rows@[i].info == rows[i].info
                    &&& final(self).rows@[i].download_path == rows[i].download_path
                } else {
                    final(self).rows@ == rows
                }
            }),
    {
        let i = self.find_hash(torrent_hash);
        proof {
            lemma_find_hash_props(self.rows@, torrent_hash@, 0);
        }
        if i < self.rows.len() {
            let completed = match self.rows[i].task.status {
                TaskStatus::Completed => true,
                _ => false,
            };
            if completed {
                let mut row = self.rows[i].clone();
                row.task.renamed = true;
                self.rows.set(i, row);
            }
        }
    }

    /// Exactly the completed rows that still await renaming — the sweep set —
    /// each task verbatim, in table order.
    pub fn get_tasks_need_renamed(&self) -> (r: Vec<DownloadTask>)
        ensures
            r@ == spec_sweep_tasks(self.rows@, 0),
    {
        let mut out: Vec<DownloadTask> = Vec::new();
        let mut j: usize = 0;
        proof {
            assert(out@ + spec_sweep_tasks(self.rows@, 0) =~= spec_sweep_tasks(self.rows@, 0));
        }
        while j < self.rows.len()
            invariant
                j <= self.rows@.len(),
                spec_sweep_tasks(self.rows@, 0) == out@ + spec_sweep_tasks(
                    self.rows@,
                    j as int,
                ),
            decreases self.rows@.len() - j,
        {
            let keep = match self.rows[j].task.status {
                TaskStatus::Completed => !self.rows[j].task.renamed,
                _ => false,
            };
            let ghost out0 = out@;
            if keep {
                out.push(self.rows[j].task.clone());
                proof {
                    assert(out0 + (seq![self.rows@[j as int].task] + spec_sweep_tasks(
                        self.rows@,
                        j + 1 as int,
                    )) =~= out@ + spec_sweep_tasks(self.rows@, j + 1 as int));
                }
            }
            j = j + 1;
        }
        proof {
            assert(spec_sweep_tasks(self.rows@, self.rows@.len() as int) =~= Seq::<
                DownloadTask,
            >::empty());
            assert(out@ + Seq::<DownloadTask>::empty() =~= out@);
        }
        out
    }
}

/// The tasks of the rows at and after `i` that are completed and not yet
/// renamed, in table order.
pub open spec fn spec_sweep_tasks(rows: Seq<TaskRow>, i: int) -> Seq<DownloadTask>
    decreases rows.len() - i,
{
    if i < 0 {
        spec_sweep_tasks(rows, 0)
    } else if i >= rows.len() {
        Seq::empty()
    } else {
        (if rows[i].task.status is Completed && !rows[i].task.renamed {
            seq![rows[i].task]
        } else {
            Seq::<DownloadTask>::empty()
        }) + spec_sweep_tasks(rows, i + 1)
    }
}

/// A row is found exactly where it uniquely lies.
proof fn lemma_find_hash_exact(rows: Seq<TaskRow>, h: Seq<char>, idx: int)
    requires
        0 <= idx < rows.len(),
        rows[idx].task.torrent_hash@ == h,
        forall|k: int| 0 <= k < idx ==> rows[k].task.torrent_hash@ != h,
    ensures
        spec_find_hash(rows, h, 0) == idx,
{
    lemma_find_hash_props(rows, h, 0);
}

/// A table whose hashes are unique holds exactly one row for a hash it
/// contains.
proof fn lemma_table_count(rows: Seq<TaskRow>, h: Seq<char>)
    requires
        rows.len() > 0,
        rows.last().task.torrent_hash@ == h,
        forall|a: int, b: int|
            0 <= a < b < rows.len() ==> rows[a].task.torrent_hash@ != rows[b].task.torrent_hash@,
    ensures
        spec_count_hash(rows, h) == 1,
{
    lemma_find_hash_props(rows, h, 0);
    lemma_count_hash_unique(rows, h);
}

/// At-most-once dispatch: once `add_task` has recorded a task whose status
/// blocks re-dispatch, a second `add_task` with the same torrent hash
/// returns 0 and leaves the table exactly as it was.
pub proof fn lemma_add_task_at_most_once(rows: Seq<TaskRow>, row1: TaskRow, row2: TaskRow)
    requires
        forall|a: int, b: int|
            0 <= a < b < rows.len() ==> rows[a].task.torrent_hash@ != rows[b].task.torrent_hash@,
        row2.task.torrent_hash@ == row1.task.torrent_hash@,
        spec_blocks_redispatch(row1.task.status),
    ensures
        spec_add_task(spec_add_task(rows, row1).0, row2).0 == spec_add_task(rows, row1).0,
        spec_add_task(spec_add_task(rows, row1).0, row2).1 == 0,
{
    let h = row1.task.torrent_hash@;
    let i = spec_find_hash(rows, h, 0);
    lemma_find_hash_props(rows, h, 0);
    let rows1 = spec_add_task(rows, row1).0;
    if i < rows.len() && spec_blocks_redispatch(rows[i].task.status) {
        assert(rows1 == rows);
    } else {
        assert(rows1.last() == row1);
        if i < rows.len() {
            let mid = rows.remove(i);
            assert forall|k: int| 0 <= k < mid.len() implies mid[k].task.torrent_hash@ != h by {
                if k < i {
                    assert(mid[k] == rows[k]);
                } else {
                    assert(mid[k] == rows[k + 1]);
                }
            }
            assert(forall|k: int| 0 <= k < rows1.len() - 1 ==> rows1[k] == mid[k]);
            lemma_find_hash_exact(rows1, h, rows1.len() - 1);
        } else {
            assert(forall|k: int| 0 <= k < rows1.len() - 1 ==> rows1[k] == rows[k]);
            lemma_find_hash_exact(rows1, h, rows1.len() - 1);
        }
        assert(spec_blocks_redispatch(rows1[rows1.len() - 1].task.status));
    }
}

/// A renamed task is a completed one, in every well-formed table.
pub proof fn lemma_renamed_implies_completed(t: &TaskTable)
    requires
        t.wf(),
    ensures
        forall|i: int|
            0 <= i < t.rows@.len() ==> (#[trigger] t.rows@[i].task.renamed ==> t.rows@[i].task.status
                is Completed),
{
}

/// Every row with `h` lies at or after `i` when none lies before.
pub proof fn lemma_find_hash_props(rows: Seq<TaskRow>, h: Seq<char>, i: int)
    requires
        0 <= i <= rows.len(),
    ensures
        i <= spec_find_hash(rows, h, i) <= rows.len(),
        spec_find_hash(rows, h, i) < rows.len() ==> rows[spec_find_hash(
            rows,
            h,
            i,
        )].task.torrent_hash@ == h,
        forall|k: int| i <= k < spec_find_hash(rows, h, i) ==> rows[k].task.torrent_hash@ != h,
    decreases rows.len() - i,
{
    if i < rows.len() && rows[i].task.torrent_hash@ != h {
        lemma_find_hash_props(rows, h, i + 1);
    }
}

/// Counting distributes over where the hash occurs.
proof fn lemma_count_hash_unique(rows: Seq<TaskRow>, h: Seq<char>)
    requires
        forall|i: int, j: int|
            0 <= i < j < rows.len() ==> rows[i].task.torrent_hash@ != rows[j].task.torrent_hash@,
    ensures
        spec_find_hash(rows, h, 0) < rows.len() ==> spec_count_hash(rows, h) == 1,
        spec_find_hash(rows, h, 0) == rows.len() ==> spec_count_hash(rows, h) == 0,
    decreases rows.len(),
{
    lemma_find_hash_props(rows, h, 0);
    if rows.len() > 0 {
        let head = rows.drop_last();
        assert forall|i: int, j: int| 0 <= i < j < head.len() implies head[i].task.torrent_hash@
            != head[j].task.torrent_hash@ by {
            assert(head[i] == rows[i] && head[j] == rows[j]);
        }
        lemma_count_hash_unique(head, h);
        lemma_find_hash_props(head, h, 0);
        let f = spec_find_hash(rows, h, 0);
        let fh = spec_find_hash(head, h, 0);
        if f < rows.len() {
            if f == rows.len() - 1 {
                assert(forall|k: int| 0 <= k < head.len() ==> head[k] == rows[k]);
                assert(fh == head.len());
            } else {
                assert(rows[f] == head[f]);
                assert(fh <= f < head.len());
                assert(rows.last().task.torrent_hash@ != h);
            }
        } else {
            assert(forall|k: int| 0 <= k < head.len() ==> head[k] == rows[k]);
            assert(fh == head.len());
            assert(rows.last().task.torrent_hash@ != h);
        }
    }
}

} // verus!
