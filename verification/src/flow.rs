//! Flow control: connection-level and per-stream windows (RFC 9113 §5.2).
//!
//! [`Window`] is the send side: credit the peer gave us, which we spend.
//! [`RecvWindow`] is the receive side: credit we gave the peer, which they
//! spend and we replenish. It keeps "the octets arrived" apart from "the octets
//! were consumed", because that gap is where backpressure lives.

use crate::conn::ErrorCode;
use vstd::prelude::*;

verus! {

/// The initial flow-control window until raised by SETTINGS (§6.9.1).
pub const DEFAULT_INITIAL_WINDOW_SIZE: i32 = 65_535;

/// The most a window may ever hold (§6.9.1).
pub const MAX_WINDOW_SIZE: i32 = i32::MAX;

/// The connection-level receive window we run with. SETTINGS cannot express
/// it, so the handshake announces it by WINDOW_UPDATE.
pub const CONNECTION_WINDOW: i32 = 1_048_576;

/// The stream-level receive window we advertise as `INITIAL_WINDOW_SIZE`.
pub const STREAM_INITIAL_WINDOW: i32 = 262_144;

/// The stream-0 WINDOW_UPDATE that lifts the connection window from the
/// protocol default up to [`CONNECTION_WINDOW`], sent once at handshake.
pub const CONNECTION_WINDOW_BOOTSTRAP: u32 = 983_041;

/// The largest run of octets one stream may send before the scheduler rotates
/// to the next.
pub const SEND_BUDGET: usize = 16_384;

/// A single send window (§6.9). Signed on purpose: lowering
/// `INITIAL_WINDOW_SIZE` shrinks every open stream's window and can drive it
/// negative, at which point the sender must stop until credit arrives.
#[derive(Clone, Copy, PartialEq, Eq, Debug, Structural)]
pub struct Window(pub i32);

/// `n` held at or above the smallest 32-bit integer.
pub open spec fn floor_i32(n: int) -> int {
    if n < i32::MIN {
        i32::MIN as int
    } else {
        n
    }
}

impl Window {
    /// A window seeded to `initial` available octets.
    pub fn new(initial: i32) -> (w: Self)
        ensures
            w.0 == initial,
    {
        Window(initial)
    }

    /// Octets currently available to send; negative after a SETTINGS decrease.
    pub fn available(self) -> (n: i32)
        ensures
            n == self.0,
    {
        self.0
    }

    /// The available octets, floored at zero.
    pub open spec fn spendable(self) -> nat {
        if self.0 > 0 {
            self.0 as nat
        } else {
            0
        }
    }

    /// Octets available to send, floored at zero.
    pub fn sendable(self) -> (n: usize)
        ensures
            n == self.spendable(),
    {
        if self.0 > 0 {
            self.0 as usize
        } else {
            0
        }
    }

    /// Deducts `len` octets when sending DATA. `FLOW_CONTROL_ERROR`, and no
    /// change, if `len` exceeds the available window; a negative window makes
    /// every debit an error.
    pub fn consume(&mut self, len: u32) -> (r: Result<(), ErrorCode>)
        ensures
            len > old(self).0 ==> r == Err::<(), ErrorCode>(ErrorCode::FlowControlError)
                && *final(self) == *old(self),
            len <= old(self).0 ==> r == Ok::<(), ErrorCode>(()) && final(self).0 == old(self).0
                - len,
    {
        let len: i64 = len as i64;
        if len > self.0 as i64 {
            return Err(ErrorCode::FlowControlError);
        }
        self.0 = self.0 - len as i32;
        Ok(())
    }

    /// Credits the window by a WINDOW_UPDATE increment, rejecting one that
    /// would push it past [`MAX_WINDOW_SIZE`] (§6.9.1).
    pub fn increase(&mut self, increment: u32) -> (r: Result<(), ErrorCode>)
        ensures
            old(self).0 + increment > MAX_WINDOW_SIZE ==> r == Err::<(), ErrorCode>(
                ErrorCode::FlowControlError,
            ) && *final(self) == *old(self),
            old(self).0 + increment <= MAX_WINDOW_SIZE ==> r == Ok::<(), ErrorCode>(())
                && final(self).0 == old(self).0 + increment,
    {
        let next: i64 = self.0 as i64 + increment as i64;
        if next > MAX_WINDOW_SIZE as i64 {
            return Err(ErrorCode::FlowControlError);
        }
        self.0 = next as i32;
        Ok(())
    }

    /// Applies the retroactive `INITIAL_WINDOW_SIZE` change of a SETTINGS frame
    /// (§6.9.2). A decrease may drive the window negative; an increase past
    /// [`MAX_WINDOW_SIZE`] is a `FLOW_CONTROL_ERROR`.
    pub fn apply_delta(&mut self, delta: i32) -> (r: Result<(), ErrorCode>)
        ensures
            old(self).0 + delta > MAX_WINDOW_SIZE ==> r == Err::<(), ErrorCode>(
                ErrorCode::FlowControlError,
            ) && *final(self) == *old(self),
            old(self).0 + delta <= MAX_WINDOW_SIZE ==> r == Ok::<(), ErrorCode>(())
                && final(self).0 == floor_i32(old(self).0 + delta),
    {
        let next: i64 = self.0 as i64 + delta as i64;
        if next > MAX_WINDOW_SIZE as i64 {
            return Err(ErrorCode::FlowControlError);
        }
        let floor: i64 = i32::MIN as i64;
        self.0 = if next < floor {
            floor as i32
        } else {
            next as i32
        };
        Ok(())
    }
}

/// The receive half of a window: credit we issued, spent by the peer.
///
/// `record` runs the moment DATA is decoded; `release` runs when the octets
/// have been handed onward, and only then does a WINDOW_UPDATE become due.
#[derive(Clone, Copy, PartialEq, Eq, Debug, Structural)]
pub struct RecvWindow {
    /// Credit outstanding with the peer.
    pub window: Window,
    /// Octets consumed but not yet announced back as a WINDOW_UPDATE.
    pub unreleased: u32,
    /// The window size we replenish back up to.
    pub initial: i32,
}

/// The two summed, held at the largest 32-bit value.
pub open spec fn sum_u32(a: u32, b: u32) -> u32 {
    if a + b > u32::MAX {
        u32::MAX
    } else {
        (a + b) as u32
    }
}

impl RecvWindow {
    pub fn new(initial: i32) -> (w: Self)
        ensures
            w == (RecvWindow { window: Window(initial), unreleased: 0, initial }),
    {
        RecvWindow { window: Window::new(initial), unreleased: 0, initial }
    }

    /// Credit still outstanding with the peer.
    pub fn available(&self) -> (n: i32)
        ensures
            n == self.window.0,
    {
        self.window.available()
    }

    /// Octets consumed but not yet announced.
    pub fn unreleased(&self) -> (n: u32)
        ensures
            n == self.unreleased,
    {
        self.unreleased
    }

    /// The accounting invariant: what the peer may still send plus what it has
    /// sent and we have not announced back never exceeds the initial window.
    /// Announcing it can then never pass the ceiling.
    pub open spec fn balanced(self) -> bool {
        self.window.0 + self.unreleased <= self.initial
    }

    /// The credit that `release` may be given: octets that were recorded and
    /// not released yet.
    pub open spec fn unconsumed(self) -> int {
        self.initial - self.window.0 - self.unreleased
    }

    /// Accounts for `len` octets of DATA arriving. `FLOW_CONTROL_ERROR`, and no
    /// change, if the peer spent credit it did not have.
    pub fn record(&mut self, len: u32) -> (r: Result<(), ErrorCode>)
        ensures
            len > old(self).window.0 ==> r == Err::<(), ErrorCode>(ErrorCode::FlowControlError)
                && *final(self) == *old(self),
            len <= old(self).window.0 ==> r == Ok::<(), ErrorCode>(()) && *final(self) == (
            RecvWindow { window: Window((old(self).window.0 - len) as i32), ..*old(self) }),
    {
        self.window.consume(len)
    }

    /// The window after `len` octets were consumed, and the increment to
    /// announce: none while less than half the window has accumulated, all that
    /// has accumulated otherwise.
    pub open spec fn released(self, len: u32) -> (RecvWindow, Option<u32>) {
        let total = sum_u32(self.unreleased, len);
        if total * 2 < self.initial {
            (RecvWindow { unreleased: total, ..self }, None)
        } else if self.window.0 + total > MAX_WINDOW_SIZE {
            (RecvWindow { unreleased: 0, ..self }, Some(total))
        } else {
            (
                RecvWindow {
                    window: Window((self.window.0 + total) as i32),
                    unreleased: 0,
                    ..self
                },
                Some(total),
            )
        }
    }

    /// Notes that `len` octets have been consumed, returning the WINDOW_UPDATE
    /// increment to send if enough has accumulated to be worth a frame. The
    /// announced octets are credited back to the window; credit that would pass
    /// the ceiling was never issued and is not restored.
    pub fn release(&mut self, len: u32) -> (r: Option<u32>)
        ensures
            *final(self) == old(self).released(len).0,
            r == old(self).released(len).1,
    {
        self.unreleased = self.unreleased.saturating_add(len);
        if (self.unreleased as i64) * 2 < self.initial as i64 {
            return None;
        }
        let increment = self.unreleased;
        self.unreleased = 0;
        let _ = self.window.increase(increment);
        Some(increment)
    }
}

/// The stream-0 increment that raises the protocol's default connection window
/// to `window`; none where the default is at least that.
pub open spec fn bootstrap_of(window: i32) -> u32 {
    if window > DEFAULT_INITIAL_WINDOW_SIZE {
        (window - DEFAULT_INITIAL_WINDOW_SIZE) as u32
    } else {
        0
    }
}

/// The stream-0 increment that raises the connection window to `window`.
/// SETTINGS cannot (§6.9.2): it only moves stream windows.
pub fn connection_window_bootstrap(window: i32) -> (n: u32)
    ensures
        n == bootstrap_of(window),
{
    if window > DEFAULT_INITIAL_WINDOW_SIZE {
        (window - DEFAULT_INITIAL_WINDOW_SIZE) as u32
    } else {
        0
    }
}

// ---------------------------------------------------------------------------
// Laws
// ---------------------------------------------------------------------------

/// The bootstrap increment lifts the protocol's default window to exactly the
/// connection window.
pub proof fn bootstrap_lifts_the_default_to_the_connection_window()
    ensures
        DEFAULT_INITIAL_WINDOW_SIZE + CONNECTION_WINDOW_BOOTSTRAP == CONNECTION_WINDOW,
        bootstrap_of(CONNECTION_WINDOW) == CONNECTION_WINDOW_BOOTSTRAP,
{
}

/// Octets that arrived and were never released leave the credit spent: only a
/// release that announces an increment restores any.
pub proof fn withheld_release_withholds_credit(w: RecvWindow, len: u32)
    ensures
        w.released(len).1 is None ==> w.released(len).0.window == w.window,
{
}

/// Releasing no more than what was recorded keeps the books balanced, and then
/// an announced increment is credited in full: outstanding credit never
/// exceeds the initial window.
pub proof fn balanced_release_restores_exactly_what_it_announces(w: RecvWindow, len: u32)
    requires
        w.balanced(),
        len <= w.unconsumed(),
    ensures
        w.released(len).0.balanced(),
        w.released(len).1 matches Some(n) ==> w.released(len).0.window.0 == w.window.0 + n,
        w.released(len).0.window.0 <= w.initial,
{
}

/// A release of recorded octets conserves them: what is outstanding plus what
/// is unannounced grows by exactly what was released.
pub proof fn release_conserves_credit(w: RecvWindow, len: u32)
    requires
        w.balanced(),
        len <= w.unconsumed(),
    ensures
        w.released(len).0.window.0 + w.released(len).0.unreleased == w.window.0 + w.unreleased + len,
{
}

/// Credit is announced as soon as half the window has accumulated, all of it at
/// once, and not before.
pub proof fn half_a_window_is_announced(w: RecvWindow, len: u32)
    requires
        w.unreleased + len <= u32::MAX,
    ensures
        w.released(len).1 == (if 2 * (w.unreleased + len) >= w.initial {
            Some((w.unreleased + len) as u32)
        } else {
            None
        }),
        w.released(len).1 is Some ==> w.released(len).0.unreleased == 0,
        w.released(len).1 is None ==> w.released(len).0.unreleased == w.unreleased + len,
        w.released(len).0.initial == w.initial,
{
}

} // verus!
