//! Recognising a selection gesture from sampled mouse-button states.
//!
//! The host samples the left button and the pointer position at a fixed
//! rate. A press records where and when it happened; the matching release
//! decides: a release far enough from its press is a drag selection, and a
//! short click close in time and place to the previous click is a double
//! click. Both trigger a read of the selection. Pointer positions are
//! opaque here (`P`): the host measures distances and reports the outcome
//! of each comparison.

use vstd::prelude::*;

verus! {

/// A press older than this when its release arrives is not paired with it
/// (the clock may have jumped across a sleep).
pub const STALE_PRESS_NS: u64 = 60_000_000_000;

/// Two clicks at most this many whole milliseconds apart make a double
/// click.
pub const DOUBLE_CLICK_MS: u64 = 400;

/// A pointer position together with the time it was seen, in nanoseconds
/// of a monotonic clock.
#[derive(Clone, Copy, Debug)]
pub struct Mark<P> {
    pub at: P,
    pub time_ns: u64,
}

/// What a change of the button state is.
#[derive(Clone, Copy, Debug, PartialEq, Eq, Structural)]
pub enum Edge {
    Press,
    Release,
    Unchanged,
}

/// The edge between two successive samples of the button.
pub fn button_edge(was_down: bool, down: bool) -> (e: Edge)
    ensures
        e == (if !was_down && down {
            Edge::Press
        } else if was_down && !down {
            Edge::Release
        } else {
            Edge::Unchanged
        }),
{
    if !was_down && down {
        Edge::Press
    } else if was_down && !down {
        Edge::Release
    } else {
        Edge::Unchanged
    }
}

/// How a release was understood.
#[derive(Clone, Copy, Debug, PartialEq, Eq, Structural)]
pub enum Release {
    /// No press was waiting for it.
    Unpaired,
    /// The press was on the assistant's own panel.
    OnPanel,
    /// The press was too old; the release counts as a plain click.
    Stale,
    /// The pointer moved far enough: a drag selection.
    Drag,
    /// A second click soon after and close to the first.
    DoubleClick,
    /// A plain click, remembered for a possible double click.
    Click,
}

impl Release {
    /// Whether the selection is to be read after this release.
    pub open spec fn spec_triggers(self) -> bool {
        self == Release::Drag || self == Release::DoubleClick
    }

    /// Whether the selection is to be read after this release.
    #[verifier::when_used_as_spec(spec_triggers)]
    pub fn triggers(self) -> (t: bool)
        ensures
            t == self.spec_triggers(),
    {
        match self {
            Release::Drag | Release::DoubleClick => true,
            _ => false,
        }
    }
}

/// Time from `then` to `now`, zero when `now` is not later.
pub open spec fn elapsed(now: u64, then: u64) -> nat {
    if now >= then {
        (now - then) as nat
    } else {
        0
    }
}

/// The state of the gesture recogniser between samples.
#[derive(Clone, Copy, Debug)]
pub struct Gesture<P> {
    /// The press waiting for its release.
    pub press: Option<Mark<P>>,
    /// Whether that press fell on the assistant's own panel.
    pub press_inside_panel: bool,
    /// The last plain click, for recognising a double click.
    pub last_click: Option<Mark<P>>,
}

impl<P: Copy> Gesture<P> {
    /// Nothing pressed, no click remembered.
    pub fn new() -> (g: Self)
        ensures
            g.press is None,
            !g.press_inside_panel,
            g.last_click is None,
    {
        Gesture { press: None, press_inside_panel: false, last_click: None }
    }

    /// The state after a press at `at`, where `inside` tells whether the
    /// panel is shown (`Some`) and whether the press fell on it.
    pub open spec fn after_press(self, at: P, now_ns: u64, inside: Option<bool>) -> Self {
        Gesture {
            press: Some(Mark { at, time_ns: now_ns }),
            press_inside_panel: inside == Some(true),
            last_click: self.last_click,
        }
    }

    /// Records a press. Returns whether the shown panel is to be dismissed:
    /// it is when the press fell outside it.
    pub fn press(&mut self, at: P, now_ns: u64, inside: Option<bool>) -> (dismiss: bool)
        ensures
            *final(self) == old(self).after_press(at, now_ns, inside),
            dismiss == (inside == Some(false)),
    {
        let on_panel = match inside {
            Some(hit) => hit,
            None => false,
        };
        self.press_inside_panel = on_panel;
        self.press = Some(Mark { at, time_ns: now_ns });
        match inside {
            Some(hit) => !hit,
            None => false,
        }
    }

    /// How a release at `at` is understood. `dragged` is whether the
    /// pointer is at least the drag threshold away from the press, `near`
    /// whether it is within the double-click slop of the last click, and
    /// `double_click` whether double clicks trigger at all.
    pub open spec fn release_kind(
        self,
        now_ns: u64,
        dragged: bool,
        near: bool,
        double_click: bool,
    ) -> Release {
        match self.press {
            None => Release::Unpaired,
            Some(p) => if self.press_inside_panel {
                Release::OnPanel
            } else if elapsed(now_ns, p.time_ns) > STALE_PRESS_NS {
                Release::Stale
            } else if dragged {
                Release::Drag
            } else if double_click && near && match self.last_click {
                Some(c) => elapsed(now_ns, c.time_ns) / 1_000_000 <= DOUBLE_CLICK_MS,
                None => false,
            } {
                Release::DoubleClick
            } else {
                Release::Click
            },
        }
    }

    /// The state after a release understood as `kind`.
    pub open spec fn after_release(self, at: P, now_ns: u64, kind: Release) -> Self {
        match kind {
            Release::Unpaired => self,
            Release::OnPanel => Gesture { press: None, press_inside_panel: false, ..self },
            Release::Drag | Release::DoubleClick => Gesture { press: None, last_click: None, ..self },
            Release::Stale | Release::Click => Gesture {
                press: None,
                last_click: Some(Mark { at, time_ns: now_ns }),
                ..self
            },
        }
    }

    /// Pairs a release with the waiting press and decides what it was.
    pub fn release(
        &mut self,
        at: P,
        now_ns: u64,
        dragged: bool,
        near: bool,
        double_click: bool,
    ) -> (kind: Release)
        ensures
            kind == old(self).release_kind(now_ns, dragged, near, double_click),
            *final(self) == old(self).after_release(at, now_ns, kind),
    {
        let pressed = match self.press {
            Some(p) => p,
            None => {
                return Release::Unpaired;
            },
        };
        self.press = None;
        if self.press_inside_panel {
            self.press_inside_panel = false;
            return Release::OnPanel;
        }
        let since_press = now_ns.saturating_sub(pressed.time_ns);
        if since_press > STALE_PRESS_NS {
            self.last_click = Some(Mark { at, time_ns: now_ns });
            return Release::Stale;
        }
        if dragged {
            self.last_click = None;
            return Release::Drag;
        }
        let is_double = double_click && near && match self.last_click {
            Some(c) => now_ns.saturating_sub(c.time_ns) / 1_000_000 <= DOUBLE_CLICK_MS,
            None => false,
        };
        if is_double {
            self.last_click = None;
            Release::DoubleClick
        } else {
            self.last_click = Some(Mark { at, time_ns: now_ns });
            Release::Click
        }
    }

    /// A press on the assistant's own panel never makes its release read
    /// the selection, whatever the pointer did.
    pub proof fn law_press_on_panel_never_triggers(
        self,
        at: P,
        press_ns: u64,
        release_at: P,
        release_ns: u64,
        dragged: bool,
        near: bool,
        double_click: bool,
    )
        ensures
            self.after_press(at, press_ns, Some(true)).release_kind(
                release_ns,
                dragged,
                near,
                double_click,
            ) == Release::OnPanel,
    {
    }

    /// A click that completed a double click or a drag is not remembered:
    /// the release of the next press is never a double click, so a triple
    /// click reads the selection once.
    pub proof fn law_trigger_consumes_click(
        self,
        at: P,
        now_ns: u64,
        dragged: bool,
        near: bool,
        double_click: bool,
        next_at: P,
        next_press_ns: u64,
        inside: Option<bool>,
        next_release_ns: u64,
        next_dragged: bool,
        next_near: bool,
    )
        requires
            self.release_kind(now_ns, dragged, near, double_click).spec_triggers(),
        ensures
            ({
                let after = self.after_release(
                    at,
                    now_ns,
                    self.release_kind(now_ns, dragged, near, double_click),
                ).after_press(next_at, next_press_ns, inside);
                after.release_kind(next_release_ns, next_dragged, next_near, double_click)
                    != Release::DoubleClick
            }),
    {
    }
}

} // verus!
