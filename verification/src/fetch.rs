//! Reading the selected text of another application: first through the
//! accessibility API, then, when that gives nothing, by simulating the copy
//! shortcut on a cleared clipboard and watching it fill. The system calls
//! are the caller's; these are the decisions between them.

use vstd::prelude::*;

verus! {

/// What to do after asking the accessibility API for the selection.
#[derive(Debug)]
pub enum FetchStep {
    /// The selection was read.
    Selected(String),
    /// Nothing usable came back: simulate the copy shortcut instead.
    CopyFallback,
}

/// Decides on the accessibility API's answer `ax` (`None`: the application
/// does not expose its selection). An empty answer is not trusted either —
/// some web views report an empty selection while text is selected — so
/// only a non-empty text is taken.
pub fn fetch_selected_text(ax: Option<String>) -> (step: FetchStep)
    ensures
        match ax {
            Some(t) => if t@.len() > 0 {
                step matches FetchStep::Selected(s) && s@ == t@
            } else {
                step is CopyFallback
            },
            None => step is CopyFallback,
        },
{
    match ax {
        Some(text) => {
            if text.as_str().is_empty() {
                FetchStep::CopyFallback
            } else {
                FetchStep::Selected(text)
            }
        },
        None => FetchStep::CopyFallback,
    }
}

/// One look at the clipboard while waiting for the simulated copy. The
/// clipboard is cleared before the copy shortcut is sent, so text on it is
/// what the copy put there, whatever the clipboard held before (even the
/// same text): the clipboard text `current`, if it could be read, is the
/// copied selection as soon as it is not empty. Nothing is taken while the
/// clipboard is still empty or unreadable.
pub fn copied_text(current: Option<String>) -> (r: Option<String>)
    ensures
        match current {
            Some(cur) => if cur@.len() > 0 {
                r matches Some(s) && s@ == cur@
            } else {
                r is None
            },
            None => r is None,
        },
{
    match current {
        Some(cur) => {
            if cur.as_str().is_empty() {
                None
            } else {
                Some(cur)
            }
        },
        None => None,
    }
}

} // verus!
