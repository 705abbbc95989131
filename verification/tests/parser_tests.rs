use bt::mikan::{parse_bangumi_title_and_season, parse_rss_item_info, strip_mikan_prefix};
use bt::mikan::{MikanParser, RawFeedItem, RssDocument};
use bt::renamer::BangumiInfo;
use bt::rss::{Rss, RssSubscriptionItem, RssType};
use bt::torrent::TorrentMeta;

fn title_season(s: &str) -> (String, u64) {
    let v: Vec<char> = s.chars().collect();
    let (t, n) = parse_bangumi_title_and_season(&v);
    (t.iter().collect(), n)
}

#[test]
fn test_parse_rss_item() {
    let titles = vec![
        "[喵萌奶茶屋&amp;LoliHouse] 葬送的芙莉莲 / Sousou no Frieren - 17 [WebRip 1080p HEVC-10bit AAC][简繁日内封字幕]",
        "[GJ.Y] 欢迎来到实力至上主义的教室 第三季 / Youkoso Jitsuryoku Shijou Shugi no Kyoushitsu e 3rd Season - 03 (Baha 1920x1080 AVC AAC MP4)",
        "[LoliHouse] 指尖相触，恋恋不舍 / ゆびさきと恋々 / Yubisaki to Renren - 02 [WebRip 1080p HEVC-10bit AAC][简繁内封字幕]",
        "【喵萌奶茶屋】★04月新番★[单间，光照尚好，附带天使。/ワンルーム、日当たり普通、天使つき。/One Room, Hiatari Futsuu, Tenshi-tsuki][01][1080p][简日双语][招募翻译时轴]",
        "[钉铛字幕组]哆啦A梦新番|Doraemon[521][2018.05.18][1080P][附最新的动画组的特效]",
        "【清蓝字幕组】新哆啦A梦 - New Doraemon [437][GB][720P]",
        "[云歌字幕组&萌樱字幕组][4月新番][无名记忆 Unnamed Memory][01][HEVC][x265 10bit][1080p][简体中文][先行版]",
        "[喵萌奶茶屋&LoliHouse] 迷宫饭 / Dungeon Meshi / Delicious in Dungeon - 19v2 [WebRip 1080p HEVC-10bit AAC EAC3][简繁日内封字幕]",
        "[喵萌奶茶屋&LoliHouse] 物语系列 / Monogatari Series: Off & Monster Season - 01 愚物语 [WebRip 1080p HEVC-10bit AAC ASSx2][简繁内封字幕]",
    ];
    let result = vec![
        (
            "[喵萌奶茶屋&amp;LoliHouse]".to_string(),
            "葬送的芙莉莲".to_string(),
            1,
            17,
            "[WebRip 1080p HEVC-10bit AAC][简繁日内封字幕]".to_string(),
        ),
        (
            "[GJ.Y]".to_string(),
            "欢迎来到实力至上主义的教室".to_string(),
            3,
            3,
            "(Baha 1920x1080 AVC AAC MP4)".to_string(),
        ),
        (
            "[LoliHouse]".to_string(),
            "指尖相触，恋恋不舍".to_string(),
            1,
            2,
            "[WebRip 1080p HEVC-10bit AAC][简繁内封字幕]".to_string(),
        ),
        (
            "[喵萌奶茶屋]".to_string(),
            "单间，光照尚好，附带天使。".to_string(),
            1,
            1,
            "[1080p][简日双语][招募翻译时轴]".to_string(),
        ),
        (
            "[钉铛字幕组]".to_string(),
            "哆啦A梦新番".to_string(),
            1,
            521,
            "[2018.05.18][1080P][附最新的动画组的特效]".to_string(),
        ),
        (
            "[清蓝字幕组]".to_string(),
            "新哆啦A梦".to_string(),
            1,
            437,
            "[GB][720P]".to_string(),
        ),
        (
            "[云歌字幕组&萌樱字幕组]".to_string(),
            "无名记忆 Unnamed Memory".to_string(),
            1,
            1,
            "[HEVC][x265 10bit][1080p][简体中文][先行版]".to_string(),
        ),
        (
            "[喵萌奶茶屋&LoliHouse]".to_string(),
            "迷宫饭".to_string(),
            1,
            19,
            "[WebRip 1080p HEVC-10bit AAC EAC3][简繁日内封字幕]".to_string(),
        ),
        (
            "[喵萌奶茶屋&LoliHouse]".to_string(),
            "物语系列".to_string(),
            1,
            1,
            "[WebRip 1080p HEVC-10bit AAC ASSx2][简繁内封字幕]".to_string(),
        ),
    ];

    for (title, expect) in titles.iter().zip(result.iter()) {
        let r = parse_rss_item_info(title);
        assert!(r.is_some(), "title: {}", title);
        assert_eq!(r.unwrap(), *expect, "title: {}", title);
    }
}

#[test]
fn test_parse_fallback_aggregation_rss() {
}

#[test]
fn test_rss_item_to_bangumi_info() {
    let rss_item = RssSubscriptionItem {
        url: "https://mikanani.me/Home/Episode/059724511d60173251b378b04709aceff92fffb5".to_string(),
        title: "葬送的芙莉莲".to_string(),
        episode_title: "".to_string(),
        season: 1,
        episode: 18,
        fansub: "[喵萌奶茶屋&LoliHouse]".to_string(),
        media_info: "[WebRip 1080p HEVC-10bit AAC][简繁日内封字幕]".to_string(),
        category: "".to_string(),
        torrent: TorrentMeta {
            url: "https://mikanani.me/Download/20240118/059724511d60173251b378b04709aceff92fffb5.torrent".to_string(),
            save_path: None,
            category: None,
        },
    };

    let bangumi_info: BangumiInfo = BangumiInfo::from_rss_item(&rss_item);
    assert_eq!(bangumi_info.show_name, "葬送的芙莉莲");
    assert_eq!(bangumi_info.episode_name, None);
    assert_eq!(
        bangumi_info.display_name,
        Some(String::from(
            "[喵萌奶茶屋&LoliHouse][WebRip 1080p HEVC-10bit AAC][简繁日内封字幕]"
        ))
    );
    assert_eq!(bangumi_info.season, 1);
    assert_eq!(bangumi_info.episode, 18);
}

#[test]
fn test_title_and_season_values() {
    assert_eq!(title_season("X 第三季"), ("X".to_string(), 3));
    assert_eq!(title_season("Y"), ("Y".to_string(), 1));
    assert_eq!(title_season("A / B / C"), ("A".to_string(), 1));
    assert_eq!(title_season("弱角友崎同学 2nd STAGE"), ("弱角友崎同学 2nd STAGE".to_string(), 1));
}

#[test]
fn test_strip_channel_prefix() {
    assert_eq!(strip_mikan_prefix("Mikan Project - 葬送的芙莉莲"), "葬送的芙莉莲");
    assert_eq!(strip_mikan_prefix("葬送的芙莉莲"), "葬送的芙莉莲");
}

fn plain_rss(url: &str) -> Rss {
    Rss {
        id: None,
        url: url.to_string(),
        title: None,
        rss_type: RssType::Mikan,
        season: None,
        enabled: Some(true),
        filters: None,
        description: None,
        category: None,
    }
}

#[test]
fn test_parse_document_channel_overrides() {
    let parser = MikanParser::new();
    let doc = RssDocument {
        channel_title: "Mikan Project - 葬送的芙莉莲".to_string(),
        channel_link: "http://mikanani.me/RSS/Bangumi?bangumiId=3141&subgroupid=370".to_string(),
        items: vec![
            RawFeedItem {
                link: "https://mikanani.me/Home/Episode/059".to_string(),
                title: "[喵萌奶茶屋&LoliHouse] 葬送的芙莉莲 / Sousou no Frieren - 18 [WebRip 1080p HEVC-10bit AAC][简繁日内封字幕]".to_string(),
                enclosure_url: "https://mikanani.me/Download/20240118/059.torrent".to_string(),
            },
            RawFeedItem {
                link: "https://mikanani.me/Home/Episode/bad".to_string(),
                title: "no grammar fits this one".to_string(),
                enclosure_url: "https://mikanani.me/Download/bad.torrent".to_string(),
            },
        ],
    };
    let sub = parser.parse_document(&plain_rss(""), &doc);
    assert_eq!(sub.url, "http://mikanani.me/RSS/Bangumi?bangumiId=3141&subgroupid=370");
    // The unparseable item is skipped; the feed is not aborted.
    assert_eq!(sub.items.len(), 1);
    let item = &sub.items[0];
    assert_eq!(item.title, "葬送的芙莉莲");
    assert_eq!(item.season, 1);
    assert_eq!(item.episode, 18);
    assert_eq!(item.fansub, "[喵萌奶茶屋&LoliHouse]");
    assert_eq!(item.torrent.url, "https://mikanani.me/Download/20240118/059.torrent");
}

#[test]
fn test_parse_document_aggregator_keeps_item_titles() {
    let parser = MikanParser::new();
    let mut rss = plain_rss("");
    rss.title = Some("Overridden".to_string());
    rss.season = Some(9);
    let doc = RssDocument {
        channel_title: "Mikan Project - 我的番组".to_string(),
        channel_link: "http://mikanani.me/RSS/MyBangumi?token=SECRET-REDACTED".to_string(),
        items: vec![RawFeedItem {
            link: "https://mikanani.me/Home/Episode/38b".to_string(),
            title: "[GJ.Y] 梦想成为魔法少女 - 11 (Baha 1920x1080 AVC AAC MP4)".to_string(),
            enclosure_url: "https://mikanani.me/Download/20240313/38b.torrent".to_string(),
        }],
    };
    let sub = parser.parse_document(&rss, &doc);
    assert_eq!(sub.items.len(), 1);
    // Item overrides are suppressed on the aggregator channel.
    assert_eq!(sub.items[0].title, "梦想成为魔法少女");
    assert_eq!(sub.items[0].season, 1);
    assert_eq!(sub.items[0].episode, 11);
}

#[test]
fn test_parse_document_subscription_overrides() {
    let parser = MikanParser::new();
    let mut rss = plain_rss("");
    rss.title = Some("Frieren: Beyond Journey's End".to_string());
    rss.season = Some(2);
    rss.category = Some("anime".to_string());
    let doc = RssDocument {
        channel_title: "Mikan Project - 葬送的芙莉莲".to_string(),
        channel_link: "http://mikanani.me/RSS/Bangumi?bangumiId=3141".to_string(),
        items: vec![RawFeedItem {
            link: "https://mikanani.me/Home/Episode/059".to_string(),
            title: "[喵萌奶茶屋&LoliHouse] 葬送的芙莉莲 - 18 [WebRip]".to_string(),
            enclosure_url: "https://mikanani.me/Download/059.torrent".to_string(),
        }],
    };
    let sub = parser.parse_document(&rss, &doc);
    assert_eq!(sub.items.len(), 1);
    assert_eq!(sub.items[0].title, "Frieren: Beyond Journey's End");
    assert_eq!(sub.items[0].season, 2);
    assert_eq!(sub.items[0].category, "anime");
}
