use bt::filter::{RssFilter, RssFilterChain};
use bt::manager::{completion_action, reconcile, record_dispatch, CompletionStep, DownloadingTorrent};
use bt::renamer::BangumiInfo;
use bt::rss::{Rss, RssType};
use bt::sub_store::SubscriptionStore;
use bt::task_store::{TaskStatus, TaskTable};

fn info(show: &str, season: u64, episode: u64) -> BangumiInfo {
    BangumiInfo {
        show_name: show.to_string(),
        episode_name: None,
        display_name: None,
        season,
        episode,
        category: None,
    }
}

fn dispatch(table: &mut TaskTable, hash: &str, url: &str) -> u64 {
    record_dispatch(table, Some(1), hash, url, "2024-01-01T00:00:00+00:00", &info("Show", 1, 7))
}

#[test]
fn test_add_task_dedup() {
    let mut table = TaskTable::empty();
    assert_eq!(dispatch(&mut table, "h1", "u1"), 1);
    assert_eq!(table.rows.len(), 1);
    // A second dispatch of the same hash while the first is Downloading is a
    // no-op returning 0 and leaves the row untouched.
    assert_eq!(dispatch(&mut table, "h1", "u1"), 0);
    assert_eq!(table.rows.len(), 1);
    assert_eq!(table.rows[0].task.torrent_url, Some("u1".to_string()));
}

#[test]
fn test_add_task_replaces_error_row() {
    let mut table = TaskTable::empty();
    assert_eq!(dispatch(&mut table, "h1", "u1"), 1);
    table.update_task_status("h1", TaskStatus::Error, "/downloads/x");
    assert_eq!(dispatch(&mut table, "h1", "u2"), 1);
    assert_eq!(table.rows.len(), 1);
    assert_eq!(table.rows[0].task.torrent_url, Some("u2".to_string()));
    assert!(matches!(table.rows[0].task.status, TaskStatus::Downloading));
}

#[test]
fn test_renamed_only_when_completed() {
    let mut table = TaskTable::empty();
    dispatch(&mut table, "h1", "u1");
    // Not completed yet: the renamed mark is refused.
    table.update_task_renamed("h1");
    assert_eq!(table.is_renamed("h1"), Some(false));
    table.update_task_status("h1", TaskStatus::Completed, "/downloads/Show");
    table.update_task_renamed("h1");
    assert_eq!(table.is_renamed("h1"), Some(true));
    assert!(matches!(table.get_task("h1").unwrap().status, TaskStatus::Completed));
    // Absence is told apart from false.
    assert_eq!(table.is_renamed("missing"), None);
}

#[test]
fn test_task_lookups() {
    let mut table = TaskTable::empty();
    dispatch(&mut table, "h1", "u1");
    assert!(table.is_task_exist("u1"));
    assert!(!table.is_task_exist("u2"));
    let got = table.get_bangumi_info("h1").unwrap();
    assert_eq!(got.show_name, "Show");
    assert_eq!(got.episode, 7);
    assert!(table.get_task("nope").is_none());
}

fn snap(hash: &str, status: TaskStatus, name: &str) -> DownloadingTorrent {
    DownloadingTorrent {
        hash: hash.to_string(),
        status,
        save_path: "/downloads/bangumi".to_string(),
        name: name.to_string(),
    }
}

#[test]
fn test_reconcile_empty_snapshot_is_noop() {
    let mut table = TaskTable::empty();
    dispatch(&mut table, "h1", "u1");
    let events = reconcile(&mut table, &Vec::new());
    assert_eq!(events.len(), 0);
    assert_eq!(table.rows.len(), 1);
    assert!(matches!(table.rows[0].task.status, TaskStatus::Downloading));
}

#[test]
fn test_reconcile_ignores_untracked() {
    let mut table = TaskTable::empty();
    dispatch(&mut table, "h1", "u1");
    let snapshot = vec![snap("other", TaskStatus::Completed, "Other.mkv")];
    let events = reconcile(&mut table, &snapshot);
    assert_eq!(events.len(), 0);
    assert_eq!(table.rows.len(), 1);
}

#[test]
fn test_reconcile_fires_completion_once() {
    let mut table = TaskTable::empty();
    dispatch(&mut table, "h1", "u1");
    let snapshot = vec![snap("h1", TaskStatus::Completed, "Show.S01E07.mkv")];
    let events = reconcile(&mut table, &snapshot);
    assert_eq!(events.len(), 1);
    assert!(matches!(events[0].status, TaskStatus::Completed));
    assert!(matches!(table.rows[0].task.status, TaskStatus::Completed));
    assert_eq!(table.rows[0].download_path, Some("/downloads/bangumi/Show.S01E07.mkv".to_string()));
    // A restart before the renamed mark was committed: the next reconcile
    // sees no delta — already Completed — so the hook is not re-fired, and
    // the task stays unrenamed until something re-triggers the rename.
    let events2 = reconcile(&mut table, &snapshot);
    assert_eq!(events2.len(), 0);
    assert_eq!(table.is_renamed("h1"), Some(false));
}

#[test]
fn test_reconcile_updates_every_delta() {
    let mut table = TaskTable::empty();
    dispatch(&mut table, "h1", "u1");
    // A non-completion delta also updates the row and fires an event.
    let snapshot = vec![snap("h1", TaskStatus::Pause, "Show.S01E07.mkv")];
    let events = reconcile(&mut table, &snapshot);
    assert_eq!(events.len(), 1);
    assert!(matches!(events[0].status, TaskStatus::Pause));
    assert!(matches!(table.rows[0].task.status, TaskStatus::Pause));
    assert_eq!(table.rows[0].download_path, Some("/downloads/bangumi/Show.S01E07.mkv".to_string()));
}

#[test]
fn test_completion_action_steps() {
    let mut table = TaskTable::empty();
    let torrent = snap("h1", TaskStatus::Completed, "Show.S01E07.mkv");
    // Untracked hash: skipped.
    assert!(matches!(completion_action(&table, &torrent, ""), CompletionStep::SkipUntracked));
    dispatch(&mut table, "h1", "u1");
    reconcile(&mut table, &vec![torrent.clone()]);
    // Tracked, not renamed: rename from the remapped source path.
    match completion_action(&table, &torrent, "/downloads:/mnt") {
        CompletionStep::DoRename { src_path, info } => {
            assert_eq!(src_path, "/mnt/bangumi/Show.S01E07.mkv");
            assert_eq!(info.show_name, "Show");
        },
        other => panic!("unexpected step: {:?}", other),
    }
    table.update_task_renamed("h1");
    assert!(matches!(completion_action(&table, &torrent, ""), CompletionStep::SkipRenamed));
}

fn sub(url: &str, title: Option<&str>, season: Option<u64>, enabled: Option<bool>) -> Rss {
    Rss {
        id: None,
        url: url.to_string(),
        title: title.map(|t| t.to_string()),
        rss_type: RssType::Mikan,
        season,
        enabled,
        filters: None,
        description: None,
        category: None,
    }
}

#[test]
fn test_rss() {
    let mut store = SubscriptionStore::empty();
    let rss_list = store.query_rss();
    assert_eq!(rss_list.len(), 0);

    let mut rss = sub(
        "https://mikanani.me/Home/Episode/059724511d60173251b378b04709aceff92fffb5",
        Some("Sousou no Frieren"),
        Some(1),
        Some(true),
    );

    let id = store.add_rss(&rss);
    let rss_list = store.query_rss();
    assert_eq!(rss_list.len(), 1);

    assert_eq!(rss_list[0].id, Some(id));
    assert_eq!(rss_list[0].url, rss.url);
    assert_eq!(rss_list[0].rss_type, rss.rss_type);
    assert_eq!(rss_list[0].season, rss.season);
    assert_eq!(rss_list[0].enabled, rss.enabled);
    assert_eq!(rss_list[0].title, rss.title);

    rss.title = Some("Frieren: Beyond Journey's End".to_string());
    assert_eq!(store.add_rss(&rss), id);

    assert!(store.update_rss(id, &rss));

    let rss_list = store.query_rss();
    assert_eq!(rss_list.len(), 1);
    assert_eq!(rss_list[0].title, rss.title);

    store.delete_rss(id);
    let rss_list = store.query_rss();
    assert_eq!(rss_list.len(), 0);
}

#[test]
fn test_query_rss_reading_order() {
    let mut store = SubscriptionStore::empty();
    store.add_rss(&sub("u1", Some("B show"), Some(2), Some(false)));
    store.add_rss(&sub("u2", Some("B show"), Some(1), Some(false)));
    store.add_rss(&sub("u3", Some("Z show"), None, Some(true)));
    store.add_rss(&sub("u4", Some("A show"), None, Some(true)));
    let list = store.query_rss();
    let urls: Vec<&str> = list.iter().map(|r| r.url.as_str()).collect();
    // Enabled rows first, then title ascending, then season ascending.
    assert_eq!(urls, vec!["u4", "u3", "u2", "u1"]);
}

#[test]
fn test_subscription_filters_verbatim() {
    let mut store = SubscriptionStore::empty();
    let mut rss = sub("u1", Some("Show"), None, Some(true));
    rss.filters = Some(RssFilterChain(vec![
        RssFilter::FilenameRegex("\\.mp4$".to_string()),
        RssFilter::FilenameRegex("CR|Crunchyroll".to_string()),
    ]));
    let id = store.add_rss(&rss);
    let list = store.query_rss();
    assert_eq!(list[0].id, Some(id));
    let stored = list[0].filters.as_ref().unwrap();
    assert_eq!(stored.0.len(), 2);
    let RssFilter::FilenameRegex(p0) = &stored.0[0];
    let RssFilter::FilenameRegex(p1) = &stored.0[1];
    assert_eq!(p0, "\\.mp4$");
    assert_eq!(p1, "CR|Crunchyroll");
}

#[test]
fn test_happy_path_single_item() {
    // One enabled subscription's item: dispatch, completion, rename, notify.
    let mut table = TaskTable::empty();
    let inserted = record_dispatch(
        &mut table,
        Some(1),
        "aaaa1111",
        "https://example.com/t.torrent",
        "2024-01-18T00:00:00+00:00",
        &info("Show", 1, 7),
    );
    assert_eq!(inserted, 1);

    let snapshot = vec![DownloadingTorrent {
        hash: "aaaa1111".to_string(),
        status: TaskStatus::Completed,
        save_path: "/downloads/bangumi/Show".to_string(),
        name: "Show.S01E07.mkv".to_string(),
    }];
    let events = reconcile(&mut table, &snapshot);
    assert_eq!(events.len(), 1);

    let step = completion_action(&table, &snapshot[0], "");
    let (src, planned_info) = match step {
        CompletionStep::DoRename { src_path, info } => (src_path, info),
        other => panic!("unexpected step: {:?}", other),
    };
    assert_eq!(src, "/downloads/bangumi/Show/Show.S01E07.mkv");
    let plan = planned_info
        .rename_plan(&src, &bt::renamer::SrcNode::FileNode, "/archive")
        .unwrap();
    assert_eq!(plan.len(), 1);
    assert_eq!(plan[0].dst, "/archive/Show/Season 1/Show S01E07.mkv");

    table.update_task_renamed("aaaa1111");
    assert_eq!(table.is_renamed("aaaa1111"), Some(true));
    let msg = bt::notification::Notification::DownloadFinished(planned_info).message();
    assert_eq!(msg, "Show S01E07 download finished.");

    // Running the fetch pass again changes nothing: at-most-once dispatch.
    let again = record_dispatch(
        &mut table,
        Some(1),
        "aaaa1111",
        "https://example.com/t.torrent",
        "2024-01-18T01:00:00+00:00",
        &info("Show", 1, 7),
    );
    assert_eq!(again, 0);
    assert_eq!(table.rows.len(), 1);
    assert_eq!(table.is_renamed("aaaa1111"), Some(true));
}
