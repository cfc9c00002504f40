use vstd::prelude::*;

verus! {

/// The recoverable conditions that the engine reports. None of them leaves a
/// genome or a population half-changed: the value is as it was before the call.
#[derive(Debug, Clone, Copy, PartialEq, Eq, Structural)]
pub enum NeatError {
    /// The two endpoints of a requested link admit no direction.
    InvalidTopology,
    /// No node can be linked to the node that was drawn.
    NoCandidateError,
    /// There is no enabled link to split.
    NoLinksAvailable,
    /// A tunable of the population is out of its range.
    ConfigError,
}

impl NeatError {
    /// The wording of the description of each condition.
    pub open spec fn wording(self) -> Seq<char> {
        match self {
            NeatError::InvalidTopology => "node types were equal and levels were equal"@,
            NeatError::NoCandidateError => "no nodes available"@,
            NeatError::NoLinksAvailable => "no links available"@,
            NeatError::ConfigError => "invalid configuration"@,
        }
    }

    /// A short description of the condition, for messages.
    pub fn message(&self) -> (text: &'static str)
        ensures
            text@ == self.wording(),
            text@.len() > 0,
    {
        match self {
            NeatError::InvalidTopology => {
                proof {
                    reveal_strlit("node types were equal and levels were equal");
                }
                "node types were equal and levels were equal"
            },
            NeatError::NoCandidateError => {
                proof {
                    reveal_strlit("no nodes available");
                }
                "no nodes available"
            },
            NeatError::NoLinksAvailable => {
                proof {
                    reveal_strlit("no links available");
                }
                "no links available"
            },
            NeatError::ConfigError => {
                proof {
                    reveal_strlit("invalid configuration");
                }
                "invalid configuration"
            },
        }
    }
}

} // verus!
