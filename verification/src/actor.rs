//! Why an actor terminated.
use vstd::prelude::*;
use vstd::string::StringExecFns;

verus! {

/// The reason for an actor's termination.  A failure or a kill carries
/// the message of the error that caused it.
#[derive(Debug)]
pub enum StopCause {
    /// The actor stopped itself.
    Stopped,
    /// The actor failed, with this error message.
    Failed(String),
    /// The actor was killed, with this error message.
    Killed(String),
    /// The last owning reference to the actor was dropped.
    Dropped,
    /// The connection to a remote actor's host was lost.
    Lost,
}

/// How a stop cause is written.
pub open spec fn stop_text(c: StopCause) -> Seq<char> {
    match c {
        StopCause::Stopped => seq!['A', 'c', 't', 'o', 'r', ' ', 's', 't', 'o', 'p', 'p', 'e', 'd'],
        StopCause::Failed(e) => seq!['A', 'c', 't', 'o', 'r', ' ', 'f', 'a', 'i', 'l', 'e', 'd', ':', ' '] + e@,
        StopCause::Killed(e) => seq!['A', 'c', 't', 'o', 'r', ' ', 'w', 'a', 's', ' ', 'k', 'i', 'l', 'l', 'e', 'd', ':', ' ']
            + e@,
        StopCause::Dropped => seq!['A', 'c', 't', 'o', 'r', ' ', 'w', 'a', 's', ' ', 'd', 'r', 'o', 'p', 'p', 'e', 'd'],
        StopCause::Lost => seq![
            'L', 'o', 's', 't', ' ', 'c', 'o', 'n', 'n', 'e', 'c', 't', 'i', 'o', 'n', ' ', 't', 'o', ' ', 'a',
            'c', 't', 'o', 'r',
        ],
    }
}

impl StopCause {
    /// Whether the actor terminated with an error: failed or killed.
    pub fn has_error(&self) -> (r: bool)
        ensures
            r == (self is Failed || self is Killed),
    {
        match self {
            StopCause::Failed(_) | StopCause::Killed(_) => true,
            _ => false,
        }
    }

    /// How the cause is written, as [`stop_text`] gives it.
    pub fn to_string(&self) -> (r: String)
        ensures
            r@ == stop_text(*self),
    {
        match self {
            StopCause::Stopped => {
                proof {
                    reveal_strlit("Actor stopped");
                }
                let r = String::from_str("Actor stopped");
                assert(r@ =~= stop_text(*self));
                r
            },
            StopCause::Failed(e) => {
                proof {
                    reveal_strlit("Actor failed: ");
                }
                let mut r = String::from_str("Actor failed: ");
                r.append(e.as_str());
                assert(r@ =~= stop_text(*self));
                r
            },
            StopCause::Killed(e) => {
                proof {
                    reveal_strlit("Actor was killed: ");
                }
                let mut r = String::from_str("Actor was killed: ");
                r.append(e.as_str());
                assert(r@ =~= stop_text(*self));
                r
            },
            StopCause::Dropped => {
                proof {
                    reveal_strlit("Actor was dropped");
                }
                let r = String::from_str("Actor was dropped");
                assert(r@ =~= stop_text(*self));
                r
            },
            StopCause::Lost => {
                proof {
                    reveal_strlit("Lost connection to actor");
                }
                let r = String::from_str("Lost connection to actor");
                assert(r@ =~= stop_text(*self));
                r
            },
        }
    }
}

} // verus!
