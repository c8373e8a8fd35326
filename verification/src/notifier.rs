//! What a check reports.

use vstd::prelude::*;

verus! {

/// A message to send: its subject line and its text.
pub struct Notification {
    pub title: String,
    pub body: String,
}

/// The view of a notification: its title and body.
pub open spec fn notification_view(n: Notification) -> (Seq<char>, Seq<char>) {
    (n.title@, n.body@)
}

/// The view of an optional notification.
pub open spec fn opt_notification_view(n: Option<Notification>) -> Option<(Seq<char>, Seq<char>)> {
    match n {
        Some(n) => Some(notification_view(n)),
        None => None,
    }
}

} // verus!
