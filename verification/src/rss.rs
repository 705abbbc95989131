//! RSS subscriptions and the items parsed out of their feeds.
use vstd::prelude::*;

use crate::filter::RssFilterChain;
use crate::renamer::{clone_opt_string, BangumiInfo};
use crate::text::str_equal;
use crate::torrent::TorrentMeta;

verus! {

/// The feed dialects the parser knows.
#[derive(Debug, Clone, Copy, PartialEq, Eq, Structural)]
pub enum RssType {
    Mikan,
}

impl RssType {
    /// The label a subscription row stores for this dialect.
    pub fn label(&self) -> (r: String)
        ensures
            r@ == "mikan"@,
    {
        String::from_str("mikan")
    }

    /// The dialect a stored label denotes, if any.
    pub fn from_label(label: &str) -> (r: Option<RssType>)
        ensures
            r is Some <==> label@ == "mikan"@,
    {
        if str_equal(label, "mikan") {
            Some(RssType::Mikan)
        } else {
            None
        }
    }
}

/// One RSS subscription, as stored.
#[derive(Debug)]
pub struct Rss {
    pub id: Option<i64>,
    pub url: String,
    /// Show title override.
    pub title: Option<String>,
    pub rss_type: RssType,
    /// Season override.
    pub season: Option<u64>,
    pub enabled: Option<bool>,
    pub filters: Option<RssFilterChain>,
    pub description: Option<String>,
    pub category: Option<String>,
}

impl Clone for Rss {
    fn clone(&self) -> (r: Self)
        ensures
            r.id == self.id,
            r.url == self.url,
            r.title == self.title,
            r.rss_type == self.rss_type,
            r.season == self.season,
            r.enabled == self.enabled,
            match (self.filters, r.filters) {
                (Some(a), Some(b)) => a.0@ == b.0@,
                (None, None) => true,
                _ => false,
            },
            r.description == self.description,
            r.category == self.category,
    {
        let filters = match &self.filters {
            Some(f) => Some(f.clone()),
            None => None,
        };
        Rss {
            id: self.id,
            url: self.url.clone(),
            title: clone_opt_string(&self.title),
            rss_type: self.rss_type,
            season: self.season,
            enabled: self.enabled,
            filters,
            description: clone_opt_string(&self.description),
            category: clone_opt_string(&self.category),
        }
    }
}

/// A feed once parsed: its channel link and its items in document order.
#[derive(Debug)]
pub struct RssSubscription {
    pub url: String,
    pub items: Vec<RssSubscriptionItem>,
}

/// One feed item, carrying what dispatch and renaming need.
#[derive(Debug)]
pub struct RssSubscriptionItem {
    /// The episode page.
    pub url: String,
    /// The show's title.
    pub title: String,
    /// Title of the single episode; may be empty.
    pub episode_title: String,
    pub season: u64,
    pub episode: u64,
    /// The release group tag, brackets included.
    pub fansub: String,
    /// The media annotation, verbatim.
    pub media_info: String,
    pub torrent: TorrentMeta,
    pub category: String,
}

impl Clone for RssSubscriptionItem {
    fn clone(&self) -> (r: Self)
        ensures
            r == *self,
    {
        RssSubscriptionItem {
            url: self.url.clone(),
            title: self.title.clone(),
            episode_title: self.episode_title.clone(),
            season: self.season,
            episode: self.episode,
            fansub: self.fansub.clone(),
            media_info: self.media_info.clone(),
            torrent: self.torrent.clone(),
            category: self.category.clone(),
        }
    }
}

impl BangumiInfo {
    /// The renaming snapshot frozen for a feed item: the item's title names
    /// the show, an empty episode title or category is recorded as absent,
    /// and the display name joins the fansub tag and the media annotation
    /// when they are not both empty.
    pub fn from_rss_item(s: &RssSubscriptionItem) -> (r: BangumiInfo)
        ensures
            r.show_name == s.title,
            match r.episode_name {
                Some(e) => s.episode_title@.len() > 0 && e == s.episode_title,
                None => s.episode_title@.len() == 0,
            },
            match r.display_name {
                Some(d) => d@ == s.fansub@ + s.media_info@ && d@.len() > 0,
                None => s.fansub@.len() + s.media_info@.len() == 0,
            },
            r.season == s.season,
            r.episode == s.episode,
            match r.category {
                Some(c) => s.category@.len() > 0 && c == s.category,
                None => s.category@.len() == 0,
            },
    {
        let mut display = crate::text::chars_vec(s.fansub.as_str());
        crate::text::append_str(&mut display, s.media_info.as_str());
        let display_name = if display.len() > 0 {
            Some(crate::text::string_from_chars(&display))
        } else {
            None
        };
        let episode_name = if s.episode_title.as_str().is_empty() {
            None
        } else {
            Some(s.episode_title.clone())
        };
        let category = if s.category.as_str().is_empty() {
            None
        } else {
            Some(s.category.clone())
        };
        BangumiInfo {
            show_name: s.title.clone(),
            episode_name,
            display_name,
            season: s.season,
            episode: s.episode,
            category,
        }
    }
}

/// The parser's error kinds.
#[derive(Debug)]
pub enum ParsingError {
    /// The feed body could not be fetched: the url and the cause.
    DownloadFailed(String, String),
    /// The body is not a feed this parser understands.
    InvalidRss(String),
    /// One item's title fits no known grammar; the item is skipped.
    UnrecognizedEpisode(String),
}

/// The minimal form of a subscription row.
#[derive(Debug)]
pub struct RssEntity {
    pub id: Option<i64>,
    pub url: String,
    pub title: Option<String>,
    pub rss_type: RssType,
}

} // verus!
