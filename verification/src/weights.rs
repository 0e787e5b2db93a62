//! The weight function registry.
//!
//! A weight function maps a single perceptual color to a non-negative scalar;
//! the clustering engine multiplies every sample by its weight when it
//! recomputes a centroid as a weighted average. A strategy is selected by a
//! mood name; an unknown name is a configuration error, resolved before
//! clustering starts.

use vstd::prelude::*;
use crate::colors::Lab;

verus! {

/// Upper bound on any weight a strategy may assign to a sample; the engine's
/// overflow reasoning rests on it.
pub const WEIGHT_MAX: u64 = 4294967296;

/// A named weighting strategy.
#[derive(Clone, Copy, Debug, PartialEq, Eq, Structural)]
pub enum Mood {
    /// Every sample counts equally: the weighted average is the plain
    /// arithmetic mean, and dominance ranks clusters by pixel count alone.
    Dominant,
}

/// The weight a strategy assigns to a sample.
pub open spec fn spec_weight(mood: Mood, c: Lab) -> u64 {
    match mood {
        Mood::Dominant => 1,
    }
}

/// Every strategy's weight stays within `WEIGHT_MAX`.
pub proof fn lemma_weight_bounded(mood: Mood, c: Lab)
    ensures
        spec_weight(mood, c) <= WEIGHT_MAX,
{
}

impl Mood {
    /// The weight of one sample under this strategy. Pure: it reads nothing
    /// but its arguments, so the engine may evaluate it in any order, any
    /// number of times.
    pub fn weight(&self, c: &Lab) -> (w: u64)
        ensures
            w == spec_weight(*self, *c),
    {
        match self {
            Mood::Dominant => 1,
        }
    }
}

/// Looks a strategy up by its name; `None` for a name the registry does not
/// know.
pub fn resolve_mood(name: &str) -> (r: Option<Mood>)
    ensures
        r == (if name@ == "dominant"@ {
            Some(Mood::Dominant)
        } else {
            None::<Mood>
        }),
{
    let given = name.to_owned();
    let dominant = "dominant".to_owned();
    if given.eq(&dominant) {
        Some(Mood::Dominant)
    } else {
        None
    }
}

} // verus!
