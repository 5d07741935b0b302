//! The three stages of the message path.

use vstd::prelude::*;

verus! {

/// A stage of the message path: a Stream is received, processed, sent.
#[derive(Clone, Copy, Debug, PartialEq, Eq, Structural)]
pub enum Stage {
    /// The Stream arrives through the transport.
    Receive,
    /// The content contract is held over what arrived.
    Process,
    /// The Stream goes out through the transport.
    Send,
}

/// The stage's name as its characters.
pub open spec fn stage_name(stage: Stage) -> Seq<char> {
    match stage {
        Stage::Receive => seq!['r', 'e', 'c', 'e', 'i', 'v', 'e'],
        Stage::Process => seq!['p', 'r', 'o', 'c', 'e', 's', 's'],
        Stage::Send => seq!['s', 'e', 'n', 'd'],
    }
}

impl Stage {
    /// The stage's name: `receive`, `process` or `send`.
    pub fn name(self) -> (name: &'static str)
        ensures
            name@ == stage_name(self),
    {
        match self {
            Stage::Receive => {
                proof {
                    reveal_strlit("receive");
                }
                "receive"
            },
            Stage::Process => {
                proof {
                    reveal_strlit("process");
                }
                "process"
            },
            Stage::Send => {
                proof {
                    reveal_strlit("send");
                }
                "send"
            },
        }
    }
}

} // verus!
