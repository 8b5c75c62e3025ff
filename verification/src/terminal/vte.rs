//! What a terminal reports to the window.

use vstd::prelude::*;

verus! {

/// What a terminal reports.
#[derive(Debug)]
pub enum VteOutput {
    CwdChanged(String),
    Exited(i32),
    Bell,
    TitleChanged(String),
    Activity,
    Focused,
    /// A command finished out of sight; the flag tells whether it succeeded.
    CommandFinished(bool),
}

} // verus!
