//! The clock's decisions between frames: keyboard toggles and when to ask
//! GitHub again.

use vstd::prelude::*;
use crate::clock::{HourFormat, TimeFormat};
use crate::github::{GithubFetchResult, GithubPr};

verus! {

/// The time format after pressing `F`: H:M:S, H:M, M:S, ISO, and round.
pub fn next_time_format(f: TimeFormat) -> (r: TimeFormat)
    ensures
        r == match f {
            TimeFormat::HhMmSs => TimeFormat::HhMm,
            TimeFormat::HhMm => TimeFormat::MmSs,
            TimeFormat::MmSs => TimeFormat::IsoTime,
            TimeFormat::IsoTime => TimeFormat::HhMmSs,
        },
{
    match f {
        TimeFormat::HhMmSs => TimeFormat::HhMm,
        TimeFormat::HhMm => TimeFormat::MmSs,
        TimeFormat::MmSs => TimeFormat::IsoTime,
        TimeFormat::IsoTime => TimeFormat::HhMmSs,
    }
}

/// The hour format after pressing `H`: the other one.
pub fn toggle_hour_format(f: HourFormat) -> (r: HourFormat)
    ensures
        r == match f {
            HourFormat::H24 => HourFormat::H12,
            HourFormat::H12 => HourFormat::H24,
        },
{
    match f {
        HourFormat::H24 => HourFormat::H12,
        HourFormat::H12 => HourFormat::H24,
    }
}

/// The accent colour after pressing `C`: the next one of `count`, round.
pub fn next_accent(index: usize, count: usize) -> (r: usize)
    requires
        index < count,
    ensures
        r == (index + 1) % (count as int),
        r < count,
{
    (index + 1) % count
}

/// Seconds between automatic fetches.
pub const FETCH_INTERVAL: i64 = 300;

/// Seconds between looks for a token after the configuration file was
/// opened for editing.
pub const TOKEN_RECHECK_INTERVAL: i64 = 2;

/// What the GitHub button shows.
#[derive(Clone, Copy, Debug, PartialEq, Eq, Structural)]
pub enum ConnectionStatus {
    Unknown,
    Connected,
    Disconnected,
}

/// Whether the GitHub icon is drawn in the accent colour (connected) or in
/// white.
pub fn icon_in_accent(status: ConnectionStatus) -> (r: bool)
    ensures
        r == (status == ConnectionStatus::Connected),
{
    match status {
        ConnectionStatus::Connected => true,
        _ => false,
    }
}

/// Whether to look for a token again: the configuration file was opened for
/// the user to fill in, there is no token yet, and the last look was at
/// least two seconds ago.
pub fn token_recheck_due(config_opened: bool, has_token: bool, now: i64, last_check: i64) -> (r:
    bool)
    requires
        i64::MIN <= now - last_check <= i64::MAX,
    ensures
        r == (config_opened && !has_token && now - last_check >= TOKEN_RECHECK_INTERVAL),
{
    config_opened && !has_token && now - last_check >= TOKEN_RECHECK_INTERVAL
}

/// The state of the GitHub connection between frames.
pub struct GithubSync {
    pub status: ConnectionStatus,
    /// When the last automatic fetch was started (Unix seconds).
    pub last_fetch: i64,
    /// A fetch is under way.
    pub in_flight: bool,
    /// The pull requests listed.
    pub prs: Vec<GithubPr>,
}

/// The state before anything happened at time `now`: status unknown,
/// nothing fetched, and the first automatic fetch due at once.
pub open spec fn initial_sync_ok(s: GithubSync, now: int) -> bool {
    &&& s.status == ConnectionStatus::Unknown
    &&& s.last_fetch == now - (FETCH_INTERVAL + 60)
    &&& !s.in_flight
    &&& s.prs@.len() == 0
}

/// Either a fetch is started with the token, or without a token the
/// connection is marked as down and the list emptied.
pub open spec fn started_or_dropped(
    old_s: GithubSync,
    new_s: GithubSync,
    token: Option<Seq<char>>,
    r: Option<Seq<char>>,
) -> bool {
    match token {
        Some(t) => {
            &&& r == Some(t)
            &&& new_s.status == ConnectionStatus::Unknown
            &&& new_s.in_flight
            &&& new_s.prs == old_s.prs
        },
        None => {
            &&& r is None
            &&& new_s.status == ConnectionStatus::Disconnected
            &&& new_s.in_flight == old_s.in_flight
            &&& new_s.prs@.len() == 0
        },
    }
}

impl GithubSync {
    /// The state at start-up, at time `now`.
    pub fn new(now: i64) -> (r: Self)
        requires
            now >= i64::MIN + FETCH_INTERVAL + 60,
        ensures
            initial_sync_ok(r, now as int),
    {
        GithubSync {
            status: ConnectionStatus::Unknown,
            last_fetch: now - (FETCH_INTERVAL + 60),
            in_flight: false,
            prs: Vec::new(),
        }
    }

    fn start_or_drop(&mut self, token: Option<String>) -> (r: Option<String>)
        ensures
            started_or_dropped(
                *old(self),
                *final(self),
                match token {
                    Some(t) => Some(t@),
                    None => None,
                },
                match r {
                    Some(t) => Some(t@),
                    None => None,
                },
            ),
            final(self).last_fetch == old(self).last_fetch,
    {
        match token {
            Some(t) => {
                self.status = ConnectionStatus::Unknown;
                self.in_flight = true;
                Some(t)
            },
            None => {
                self.status = ConnectionStatus::Disconnected;
                self.prs.clear();
                None
            },
        }
    }

    /// A frame at time `now`: when five minutes passed since the last
    /// automatic fetch and none is under way, a fetch is due; it is started
    /// with `token` (the token is returned) or, without a token, the
    /// connection is marked as down.  Otherwise nothing changes.
    pub fn on_frame(&mut self, now: i64, token: Option<String>) -> (r: Option<String>)
        requires
            i64::MIN <= now - old(self).last_fetch <= i64::MAX,
        ensures
            ({
                let due = now - old(self).last_fetch >= FETCH_INTERVAL && !old(self).in_flight;
                &&& due ==> final(self).last_fetch == now && started_or_dropped(
                    *old(self),
                    *final(self),
                    match token {
                        Some(t) => Some(t@),
                        None => None,
                    },
                    match r {
                        Some(t) => Some(t@),
                        None => None,
                    },
                )
                &&& !due ==> *final(self) == *old(self) && r is None
            }),
    {
        if now - self.last_fetch >= FETCH_INTERVAL && !self.in_flight {
            self.last_fetch = now;
            self.start_or_drop(token)
        } else {
            None
        }
    }

    /// The GitHub button was clicked: a fetch is started at once with
    /// `token` (even if one is under way), or, without a token, the
    /// connection is marked as down.
    pub fn on_click(&mut self, token: Option<String>) -> (r: Option<String>)
        ensures
            final(self).last_fetch == old(self).last_fetch,
            started_or_dropped(
                *old(self),
                *final(self),
                match token {
                    Some(t) => Some(t@),
                    None => None,
                },
                match r {
                    Some(t) => Some(t@),
                    None => None,
                },
            ),
    {
        self.start_or_drop(token)
    }

    /// A fetch ended with `result`: the status follows whether GitHub
    /// accepted the token, and the list is replaced.
    pub fn on_result(&mut self, result: GithubFetchResult) -> (r: ())
        ensures
            final(self).status == if result.connected {
                ConnectionStatus::Connected
            } else {
                ConnectionStatus::Disconnected
            },
            final(self).prs == result.prs,
            !final(self).in_flight,
            final(self).last_fetch == old(self).last_fetch,
    {
        self.status = if result.connected {
            ConnectionStatus::Connected
        } else {
            ConnectionStatus::Disconnected
        };
        self.prs = result.prs;
        self.in_flight = false;
    }
}

} // verus!
