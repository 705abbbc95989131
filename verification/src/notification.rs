//! End-user notification: the message built for a finished download, and the
//! notifier capability the daemon sends it through.
use vstd::prelude::*;

use crate::renamer::{spec_file_stem, BangumiInfo};
use crate::text::{append_str, chars_vec, str_equal, string_from_chars};

verus! {

/// The notifier variants that can be configured.
#[derive(Debug, Clone, Copy, PartialEq, Eq, Structural)]
pub enum NotifyType {
    Telegram,
}

impl NotifyType {
    /// The notifier a configuration label selects.
    pub fn from_label(label: &str) -> (r: Option<NotifyType>)
        ensures
            r is Some <==> label@ == "telegram"@,
    {
        if str_equal(label, "telegram") {
            Some(NotifyType::Telegram)
        } else {
            None
        }
    }
}

/// A notification to the end user.
#[derive(Debug)]
pub enum Notification {
    DownloadFinished(BangumiInfo),
}

/// The text of a notification: the episode's file stem followed by
/// ` download finished.`.
pub open spec fn spec_notification_message(n: Notification) -> Seq<char> {
    match n {
        Notification::DownloadFinished(info) => spec_file_stem(info) + seq![
            ' ',
            'd',
            'o',
            'w',
            'n',
            'l',
            'o',
            'a',
            'd',
            ' ',
            'f',
            'i',
            'n',
            'i',
            's',
            'h',
            'e',
            'd',
            '.',
        ],
    }
}

impl Notification {
    /// The message sent for this notification.
    pub fn message(&self) -> (r: String)
        ensures
            r@ == spec_notification_message(*self),
    {
        match self {
            Notification::DownloadFinished(info) => {
                let stem = info.file_name_without_extension();
                let mut out = chars_vec(stem.as_str());
                append_str(&mut out, " download finished.");
                proof {
                    reveal_strlit(" download finished.");
                    assert(out@ =~= spec_notification_message(*self));
                }
                string_from_chars(&out)
            },
        }
    }
}

/// The capability a notifier offers: sending one message to the user. The
/// daemon's drivers implement it outside the library.
pub trait Notifier {
    fn send(&self, msg: &str);
}

/// Credentials of the telegram notifier.
#[derive(Debug)]
pub struct Telegram {
    pub token: String,
    pub chat_id: String,
}

impl Telegram {
    pub fn new(token: String, chat_id: String) -> (r: Self)
        ensures
            r.token == token,
            r.chat_id == chat_id,
    {
        Telegram { token, chat_id }
    }
}

} // verus!
