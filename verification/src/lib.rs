//! Verified core of a two-player postflop subgame solver session: card and
//! weighted-range parsing, abstracted bet-size action menus, game-tree
//! construction with chance nodes, per-node strategy storage in fixed-point
//! per-mille probabilities, and a replayable navigation cursor with query
//! functions over the stored strategy.
use vstd::prelude::*;

pub mod card;
pub mod range;
pub mod bet;
pub mod tree;
pub mod game;
pub mod solve;

verus! {

use vstd::string::StringExecFns;

/// Errors reported to callers.
///
/// `Parse` names the argument that failed and carries its offending token,
/// `Config` the reason a configuration yields no usable tree, `Index` the
/// rejected index and the exclusive limit it had to stay under.
#[derive(Debug)]
pub enum SolverError {
    Parse { argument: String, token: String },
    Config { reason: String },
    Index { index: usize, limit: usize },
}

/// The text `message` renders for an error: which argument or limit, what
/// value.
pub open spec fn spec_message(e: SolverError) -> Seq<char> {
    match e {
        SolverError::Parse { argument, token } => "invalid "@ + argument@ + ": "@ + token@,
        SolverError::Config { reason } => "configuration error: "@ + reason@,
        SolverError::Index { index, limit } => "index "@ + crate::card::spec_decimal_str(
            index as nat,
        ) + " out of range (limit "@ + crate::card::spec_decimal_str(limit as nat) + ")"@,
    }
}

impl SolverError {
    /// Human-readable description of the error: which argument, what value.
    pub fn message(&self) -> (r: String)
        ensures
            r@ == spec_message(*self),
    {
        match self {
            SolverError::Parse { argument, token } => {
                let mut s = String::from_str("invalid ");
                s.append(argument.as_str());
                s.append(": ");
                s.append(token.as_str());
                proof {
                    assert(s@ =~= spec_message(*self));
                }
                s
            },
            SolverError::Config { reason } => {
                let s = String::from_str("configuration error: ").concat(reason.as_str());
                proof {
                    assert(s@ =~= spec_message(*self));
                }
                s
            },
            SolverError::Index { index, limit } => {
                let mut s = String::from_str("index ");
                let i = crate::card::u64_to_string(*index as u64);
                s.append(i.as_str());
                s.append(" out of range (limit ");
                let l = crate::card::u64_to_string(*limit as u64);
                s.append(l.as_str());
                s.append(")");
                proof {
                    assert(s@ =~= spec_message(*self));
                }
                s
            },
        }
    }
}

} // verus!
