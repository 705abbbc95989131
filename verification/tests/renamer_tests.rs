use bt::renamer::{replace_path, BangumiInfo, DirChild, SrcNode};

#[test]
fn test_gen_path() {
    let bangumi_infos = vec![
        BangumiInfo {
            show_name: String::from("Sousou no Frieren"),
            season: 1,
            episode: 12,
            ..Default::default()
        },
        BangumiInfo {
            show_name: String::from("Sousou no Frieren"),
            episode_name: Some(String::from("冒险的终点")),
            display_name: None,
            season: 1,
            episode: 1,
            category: None,
        },
    ];

    let res_paths = vec![
        String::from("Sousou no Frieren/Season 1/Sousou no Frieren S01E12.mkv"),
        String::from("Sousou no Frieren/Season 1/Sousou no Frieren S01E01 冒险的终点.mkv"),
    ];

    for (info, res_path) in bangumi_infos.iter().zip(res_paths.iter()) {
        assert_eq!(info.gen_path("mkv"), *res_path);
    }
}

#[test]
fn test_file_name_parts() {
    let info = BangumiInfo {
        show_name: String::from("Show"),
        episode_name: Some(String::new()),
        display_name: Some(String::from("[X][1080p]")),
        season: 2,
        episode: 7,
        category: None,
    };
    assert_eq!(info.folder_name(), "Show");
    assert_eq!(info.sub_folder_name(), "Season 2");
    assert_eq!(info.file_name_without_extension(), "Show S02E07 [X][1080p]");
    assert_eq!(info.file_name(".mkv"), "Show S02E07 [X][1080p].mkv");
}

#[test]
fn test_replace_path_rules() {
    assert_eq!(replace_path("/a/b/c", ""), "/a/b/c");
    assert_eq!(replace_path("/a/b/c", "/a:/x"), "/x/b/c");
    assert_eq!(replace_path("/downloads/Show.mkv", "/downloads:/mnt/data/downloads"), "/mnt/data/downloads/Show.mkv");
    assert_eq!(replace_path("/elsewhere/Show.mkv", "/downloads:/mnt"), "/elsewhere/Show.mkv");
}

fn show_info() -> BangumiInfo {
    BangumiInfo {
        show_name: String::from("Show"),
        episode_name: None,
        display_name: None,
        season: 1,
        episode: 7,
        category: None,
    }
}

#[test]
fn test_rename_plan_file() {
    let plan = show_info()
        .rename_plan("/downloads/bangumi/Show.S01E07.mkv", &SrcNode::FileNode, "/tmp/TV")
        .unwrap();
    assert_eq!(plan.len(), 1);
    assert_eq!(plan[0].src, "/downloads/bangumi/Show.S01E07.mkv");
    assert_eq!(plan[0].dst, "/tmp/TV/Show/Season 1/Show S01E07.mkv");
}

#[test]
fn test_rename_plan_directory() {
    let node = SrcNode::DirNode {
        entries: vec![
            DirChild { name: "Show.mkv".to_string(), is_dir: false },
            DirChild { name: "Extras".to_string(), is_dir: true },
            DirChild { name: "Show.ass".to_string(), is_dir: false },
        ],
    };
    let plan = show_info().rename_plan("/downloads/Show", &node, "/tmp/TV").unwrap();
    assert_eq!(plan.len(), 2);
    assert_eq!(plan[0].src, "/downloads/Show/Show.mkv");
    assert_eq!(plan[0].dst, "/tmp/TV/Show/Season 1/Show S01E07.mkv");
    assert_eq!(plan[1].src, "/downloads/Show/Show.ass");
    assert_eq!(plan[1].dst, "/tmp/TV/Show/Season 1/Show S01E07.ass");
}

#[test]
fn test_rename_plan_empty_directory() {
    // A directory with no regular files succeeds and plans no links.
    let node = SrcNode::DirNode {
        entries: vec![DirChild { name: "Sub".to_string(), is_dir: true }],
    };
    let plan = show_info().rename_plan("/downloads/Show", &node, "/tmp/TV").unwrap();
    assert_eq!(plan.len(), 0);
}

#[test]
fn test_rename_plan_errors() {
    assert!(show_info().rename_plan("/gone", &SrcNode::Missing, "/tmp/TV").is_err());
    assert!(show_info().rename_plan("/downloads/noext", &SrcNode::FileNode, "/tmp/TV").is_err());
    let node = SrcNode::DirNode {
        entries: vec![DirChild { name: "noext".to_string(), is_dir: false }],
    };
    assert!(show_info().rename_plan("/downloads/Show", &node, "/tmp/TV").is_err());
}
