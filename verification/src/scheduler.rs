//! Periodic sync of remote servers: which server kinds exist and when each
//! timer fires next.
use vstd::prelude::*;

verus! {

/// Which kind of remote server a schedule belongs to.
#[derive(Debug, Clone, Copy, PartialEq, Eq, Hash, Structural)]
pub enum RemoteKind {
    WebDav,
    Subsonic,
}

impl RemoteKind {
    /// Every kind.
    pub fn all() -> (r: [RemoteKind; 2])
        ensures
            r@ == seq![RemoteKind::WebDav, RemoteKind::Subsonic],
    {
        let r = [RemoteKind::WebDav, RemoteKind::Subsonic];
        assert(r@ =~= seq![RemoteKind::WebDav, RemoteKind::Subsonic]);
        r
    }

    /// The table its servers are stored in.
    pub fn table(self) -> (s: &'static str)
        ensures
            s@ == (match self {
                RemoteKind::WebDav => "webdav_servers"@,
                RemoteKind::Subsonic => "subsonic_servers"@,
            }),
    {
        match self {
            RemoteKind::WebDav => "webdav_servers",
            RemoteKind::Subsonic => "subsonic_servers",
        }
    }

    /// Its name in messages.
    pub fn label(self) -> (s: &'static str)
        ensures
            s@ == (match self {
                RemoteKind::WebDav => "WebDAV"@,
                RemoteKind::Subsonic => "OpenSubsonic"@,
            }),
    {
        match self {
            RemoteKind::WebDav => "WebDAV",
            RemoteKind::Subsonic => "OpenSubsonic",
        }
    }
}

/// A timer's period in seconds: the interval in minutes, at least one.
pub fn interval_secs(interval_minutes: i64) -> (s: u64)
    requires
        interval_minutes * 60 <= u64::MAX,
    ensures
        s == (if interval_minutes < 1 {
            1
        } else {
            interval_minutes
        }) * 60,
{
    let m: i64 = if interval_minutes < 1 {
        1
    } else {
        interval_minutes
    };
    (m as u64) * 60
}

/// When a timer with period `secs` fires next, from `now`.
pub fn next_run_at(now: i64, secs: u64) -> (t: i64)
    requires
        secs <= i64::MAX,
        now + secs <= i64::MAX,
    ensures
        t == now + secs,
{
    now + (secs as i64)
}

} // verus!
