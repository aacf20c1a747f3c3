//! The tray panel's state: whether a click should reopen it, where it opens, and the
//! message the notice popup shows.

use vstd::prelude::*;

verus! {

/// A tray click this soon after the panel hid itself, in milliseconds, is the click that
/// hid it.
pub const REOPEN_GUARD_MS: u64 = 250;

/// When the panel was last hidden, in milliseconds of a clock that never goes back.
/// Clicking the tray icon while the panel is open first takes its focus away, which
/// hides it; without this the same click would then open it again.
#[derive(Debug, Clone, Default, PartialEq, Eq)]
pub struct PanelHidden {
    pub hidden_at: Option<u64>,
}

impl PanelHidden {
    /// Records that the panel was hidden at `now`.
    pub fn hidden(&mut self, now: u64)
        ensures
            final(self).hidden_at == Some(now),
    {
        self.hidden_at = Some(now);
    }

    /// Whether the panel was hidden less than the guard before `now`, so that a click
    /// now only closes it.
    pub fn just_hidden(&self, now: u64) -> (r: bool)
        ensures
            r == (self.hidden_at matches Some(at) && (if now > at { now - at } else { 0 }) < REOPEN_GUARD_MS),
    {
        match self.hidden_at {
            Some(at) => {
                let elapsed = if now > at { now - at } else { 0 };
                elapsed < REOPEN_GUARD_MS
            },
            None => false,
        }
    }
}

/// The message the notice popup shows; the page fetches it when it loads.
#[derive(Debug, Clone, Default, PartialEq, Eq)]
pub struct Notice {
    pub message: String,
}

impl Notice {
    pub fn set(&mut self, message: String)
        ensures
            final(self).message == message,
    {
        self.message = message;
    }

    pub fn current(&self) -> (r: String)
        ensures
            r@ == self.message@,
    {
        self.message.clone()
    }
}

/// Where the panel opens, in pixels: centred on the click, kept inside the work area
/// between `left` and `right`, or at `left` when the area is too narrow.
pub fn panel_x(click_x: i64, width: i64, left: i64, right: i64) -> (r: i64)
    requires
        i64::MIN / 2 <= click_x <= i64::MAX / 2,
        0 <= width,
    ensures
        ({
            let centred: int = click_x - width / 2;
            let high: int = if right > left { right as int } else { left as int };
            r as int == if centred < left { left as int } else if centred > high { high } else { centred }
        }),
{
    let centred = click_x - width / 2;
    let high = if right > left { right } else { left };
    if centred < left {
        left
    } else if centred > high {
        high
    } else {
        centred
    }
}

} // verus!
