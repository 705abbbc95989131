use bt::manager::{task_status_of, with_default_placement, ClientState, DownloaderType, DownloadingTorrent};
use bt::notification::{Notification, NotifyType, Telegram};
use bt::renamer::BangumiInfo;
use bt::rss::RssType;
use bt::task_store::TaskStatus;
use bt::torrent::TorrentMeta;

#[test]
fn test_status_mapping() {
    assert!(matches!(task_status_of(ClientState::Downloading), TaskStatus::Downloading));
    assert!(matches!(task_status_of(ClientState::QueuedDL), TaskStatus::Downloading));
    assert!(matches!(task_status_of(ClientState::CheckingResumeData), TaskStatus::Downloading));
    assert!(matches!(task_status_of(ClientState::ForcedUP), TaskStatus::Downloading));
    assert!(matches!(task_status_of(ClientState::Uploading), TaskStatus::Completed));
    assert!(matches!(task_status_of(ClientState::PausedUP), TaskStatus::Completed));
    assert!(matches!(task_status_of(ClientState::QueuedUP), TaskStatus::Completed));
    assert!(matches!(task_status_of(ClientState::StalledUP), TaskStatus::Completed));
    assert!(matches!(task_status_of(ClientState::PausedDL), TaskStatus::Pause));
    assert!(matches!(task_status_of(ClientState::Error), TaskStatus::Error));
    assert!(matches!(task_status_of(ClientState::MissingFiles), TaskStatus::Error));
    assert!(matches!(task_status_of(ClientState::Moving), TaskStatus::Error));
    assert!(matches!(task_status_of(ClientState::Unknown), TaskStatus::Error));
}

#[test]
fn test_default_placement() {
    let bare = TorrentMeta { url: "u".to_string(), save_path: None, category: None };
    let filled = with_default_placement(&bare);
    assert_eq!(filled.save_path, Some("/downloads/bangumi".to_string()));
    assert_eq!(filled.category, Some("Bangumi".to_string()));
    let explicit = TorrentMeta {
        url: "u".to_string(),
        save_path: Some("/elsewhere".to_string()),
        category: Some("Movies".to_string()),
    };
    let kept = with_default_placement(&explicit);
    assert_eq!(kept.save_path, Some("/elsewhere".to_string()));
    assert_eq!(kept.category, Some("Movies".to_string()));
}

#[test]
fn test_status_labels() {
    assert_eq!(TaskStatus::Downloading.label(), "downloading");
    assert_eq!(TaskStatus::Completed.label(), "completed");
    assert_eq!(TaskStatus::Pause.label(), "pause");
    assert_eq!(TaskStatus::Error.label(), "error");
    assert!(matches!(TaskStatus::from_label("completed"), Some(TaskStatus::Completed)));
    assert!(TaskStatus::from_label("weird").is_none());
}

#[test]
fn test_type_labels() {
    assert!(matches!(RssType::from_label("mikan"), Some(RssType::Mikan)));
    assert!(RssType::from_label("atom").is_none());
    assert_eq!(RssType::Mikan.label(), "mikan");
    assert!(matches!(NotifyType::from_label("telegram"), Some(NotifyType::Telegram)));
    assert!(NotifyType::from_label("mail").is_none());
    assert!(matches!(DownloaderType::QBittorrent, DownloaderType::QBittorrent));
}

#[test]
fn test_notification_message() {
    let info = BangumiInfo {
        show_name: "Show".to_string(),
        episode_name: None,
        display_name: None,
        season: 1,
        episode: 7,
        category: None,
    };
    let msg = Notification::DownloadFinished(info).message();
    assert_eq!(msg, "Show S01E07 download finished.");
}

#[test]
fn test_telegram_credentials() {
    let t = Telegram::new("SECRET-REDACTED".to_string(), "42".to_string());
    assert_eq!(t.chat_id, "42");
}

#[test]
fn test_downloading_torrent_path() {
    let d = DownloadingTorrent {
        hash: "h".to_string(),
        status: TaskStatus::Completed,
        save_path: "/downloads/bangumi".to_string(),
        name: "Show.S01E07.mkv".to_string(),
    };
    assert_eq!(d.get_file_path(), "/downloads/bangumi/Show.S01E07.mkv");
}
