//! The decisions of the polling loop: what a notification means for the
//! pending reply, and what to do after each poll. The loop itself (writing
//! the request, waiting for notifications with a timeout, sleeping between
//! polls) runs around these functions.
use crate::renogy::{
    be_word, charger_data_len, charger_data_spec, feed_output, feed_pending, ChargerData,
    ResponseBuffer, StateInfo,
};
use vstd::prelude::*;

verus! {

/// Consecutive polls without a usable reply after which the connection is
/// given up.
pub const MAX_MISSES: u32 = 5;

/// While scanning, how often the found-device slot is looked at, and how
/// many looks make one scan session.
pub const SCAN_STEP_MS: u64 = 100;

pub const SCAN_STEPS: u32 = 100;

/// Pause after a failed scan start, seconds.
pub const SCAN_RETRY_SECS: u64 = 1;

/// How long a connection attempt may take, seconds.
pub const CONNECT_TIMEOUT_SECS: u64 = 15;

/// How long to wait for each notification of a reply, seconds.
pub const REPLY_TIMEOUT_SECS: u64 = 3;

/// Pause between polls, seconds.
pub const POLL_INTERVAL_SECS: u64 = 1;

/// Pause after a lost connection before scanning again, seconds.
pub const RECONNECT_DELAY_SECS: u64 = 2;

/// How long each screen stays up before the other takes over, milliseconds.
pub const SCREEN_PERIOD_MS: u64 = 20_000;

/// The two data screens.
#[derive(Clone, Copy, Debug, PartialEq, Eq, Structural)]
pub enum Screen {
    /// House and starter voltage, state of charge, charging state, charge
    /// current and input power.
    Main,
    /// Inputs, temperatures, today's voltage range, amp-hours and faults.
    Extras,
}

/// Which screen shows `elapsed_ms` milliseconds into a connection: the main
/// screen for the first 20 s, then the extras screen for 20 s, and so on.
pub open spec fn screen_at_spec(elapsed_ms: int) -> Screen {
    if (elapsed_ms / 20_000) % 2 == 0 {
        Screen::Main
    } else {
        Screen::Extras
    }
}

/// The screen to show `elapsed_ms` milliseconds into a connection.
pub fn screen_at(elapsed_ms: u64) -> (screen: Screen)
    ensures
        screen == screen_at_spec(elapsed_ms as int),
{
    if (elapsed_ms / SCREEN_PERIOD_MS) % 2 == 0 {
        Screen::Main
    } else {
        Screen::Extras
    }
}

/// The screens alternate: 20 s later the other screen shows, and it stays
/// the same throughout each 20 s period.
pub proof fn lemma_screens_alternate(t: int, u: int)
    requires
        t >= 0,
        u >= 0,
    ensures
        screen_at_spec(t + 20_000) != screen_at_spec(t),
        t / 20_000 == u / 20_000 ==> screen_at_spec(t) == screen_at_spec(u),
{
    assert((t + 20_000) / 20_000 == t / 20_000 + 1);
}

/// Feeds one notification into the reply buffer. Once a whole, CRC-valid
/// reply has arrived the wait is over: returns `Some` with the decoded
/// dynamic block, or `Some(None)` when the reply is too short to decode.
/// Returns `None` while the reply is still incomplete (or was dropped).
pub fn take_reply(response: &mut ResponseBuffer, fragment: &[u8]) -> (reply: Option<Option<ChargerData>>)
    ensures
        final(response)@ == feed_pending(old(response)@, fragment@),
        reply is Some <==> feed_output(old(response)@, fragment@) is Some,
        reply matches Some(decoded) ==> {
            let words = feed_output(old(response)@, fragment@).unwrap();
            &&& decoded is None <==> words.len() < charger_data_len()
            &&& decoded matches Some(d) ==> d == charger_data_spec(words)
        },
{
    match response.feed(fragment) {
        Some(words) => Some(ChargerData::parse(words)),
        None => None,
    }
}

/// Feeds one notification into the reply buffer while waiting for the
/// reply to a read of the charging-state block: like [`take_reply`], but the
/// whole reply is decoded as a [`StateInfo`] (`Some(None)` when it holds
/// fewer than six bytes).
pub fn take_state_reply(response: &mut ResponseBuffer, fragment: &[u8]) -> (reply: Option<
    Option<StateInfo>,
>)
    ensures
        final(response)@ == feed_pending(old(response)@, fragment@),
        reply is Some <==> feed_output(old(response)@, fragment@) is Some,
        reply matches Some(decoded) ==> {
            let words = feed_output(old(response)@, fragment@).unwrap();
            &&& decoded is None <==> words.len() < 6
            &&& decoded matches Some(s) ==> {
                &&& s.charging_state == words[1]
                &&& s.faults@ == seq![be_word(words, 1), be_word(words, 2)]
            }
        },
{
    match response.feed(fragment) {
        Some(words) => Some(StateInfo::parse(words)),
        None => None,
    }
}

/// What the polling loop does after a poll.
#[derive(Clone, Copy, Debug)]
pub enum PollAction {
    /// Show the readings and the charging state, and keep polling.
    Show(ChargerData, StateInfo),
    /// No usable reply; poll again.
    Retry,
    /// Too many polls in a row went unanswered: drop the connection.
    Disconnect,
}

/// Counts consecutive polls that got no usable reply.
pub struct PollState {
    pub misses: u32,
}

impl PollState {
    pub fn new() -> (state: Self)
        ensures
            state.misses == 0,
    {
        PollState { misses: 0 }
    }

    /// Records the outcome of one poll (the decoded dynamic block and
    /// charging state, or `None` when either read got no usable reply): a
    /// reply resets the count and is shown; a miss is counted, and the fifth
    /// in a row disconnects.
    pub fn after_poll(&mut self, reading: Option<(ChargerData, StateInfo)>) -> (action: PollAction)
        requires
            old(self).misses < MAX_MISSES,
        ensures
            match reading {
                Some((d, st)) => final(self).misses == 0 && action == PollAction::Show(d, st),
                None => {
                    &&& final(self).misses == old(self).misses + 1
                    &&& final(self).misses >= MAX_MISSES ==> action is Disconnect
                    &&& final(self).misses < MAX_MISSES ==> action is Retry
                },
            },
    {
        match reading {
            Some((d, st)) => {
                self.misses = 0;
                PollAction::Show(d, st)
            },
            None => {
                self.misses = self.misses + 1;
                if self.misses >= MAX_MISSES {
                    PollAction::Disconnect
                } else {
                    PollAction::Retry
                }
            },
        }
    }
}

} // verus!
