//! What happens with a selection once its text has been read.

use vstd::prelude::*;
use crate::text::{trim, trimmed};

verus! {

/// The selection pushed to the front end.
#[derive(Debug)]
pub struct SelectionPayload {
    pub text: String,
}

/// The selection to show for the text read from the application: the text
/// trimmed, or nothing when that is empty (a plain click must not make the
/// toolbar flash).
pub fn selection_to_show(fetched: &str) -> (p: Option<SelectionPayload>)
    ensures
        match p {
            Some(sel) => trim(fetched@).len() > 0 && sel.text@ == trim(fetched@),
            None => trim(fetched@).len() == 0,
        },
{
    let text = trimmed(fetched);
    if text.as_str().is_empty() {
        None
    } else {
        Some(SelectionPayload { text })
    }
}

} // verus!
