//! The stress level a roll runs at: `calm`, `realistic`, `harsh`, `brutal`,
//! one axis that turns the faults, the payloads, the pairs at once and the
//! node processes up together. `realistic` is the default.

use vstd::prelude::*;

use crate::text::{chars_of, lower, lowered, same_chars, trim, trimmed};

verus! {

/// How hard a roll runs.
#[derive(Clone, Copy, Debug, PartialEq, Eq, Structural)]
pub enum Stress {
    /// Loopback at its gentlest: no faults, one node.
    Calm,
    /// What the runner ran at before the axis existed; the default.
    Realistic,
    /// The faults tripled, the sizes protocols break on.
    Harsh,
    /// At the ceiling: every core, forty nodes' worth.
    Brutal,
}

/// The level's name.
pub open spec fn stress_name(stress: Stress) -> Seq<char> {
    match stress {
        Stress::Calm => "calm"@,
        Stress::Realistic => "realistic"@,
        Stress::Harsh => "harsh"@,
        Stress::Brutal => "brutal"@,
    }
}

/// The level a word names, whatever its case and surrounding space.
pub open spec fn stress_named(word: Seq<char>) -> Option<Stress> {
    let said = lower(trim(word));
    if said == "calm"@ {
        Some(Stress::Calm)
    } else if said == "realistic"@ {
        Some(Stress::Realistic)
    } else if said == "harsh"@ {
        Some(Stress::Harsh)
    } else if said == "brutal"@ {
        Some(Stress::Brutal)
    } else {
        None
    }
}

/// How many node processes the level spawns when nobody names them.
pub open spec fn node_count(stress: Stress) -> nat {
    match stress {
        Stress::Calm => 1,
        Stress::Realistic => 3,
        Stress::Harsh => 10,
        Stress::Brutal => 40,
    }
}

impl Stress {
    /// Every level's name, gentlest first.
    pub const NAMES: [&'static str; 4] = ["calm", "realistic", "harsh", "brutal"];

    /// The level's name: `calm`, `realistic`, `harsh` or `brutal`.
    pub fn name(self) -> (name: &'static str)
        ensures
            name@ == stress_name(self),
    {
        match self {
            Stress::Calm => "calm",
            Stress::Realistic => "realistic",
            Stress::Harsh => "harsh",
            Stress::Brutal => "brutal",
        }
    }

    /// The level a word names, whatever its case; none for any other word.
    pub fn parse(word: &str) -> (stress: Option<Self>)
        ensures
            stress == stress_named(word@),
    {
        let chars = chars_of(word);
        let said = lowered(trimmed(chars.as_slice()).as_slice());
        if spells(&said, "calm") {
            Some(Stress::Calm)
        } else if spells(&said, "realistic") {
            Some(Stress::Realistic)
        } else if spells(&said, "harsh") {
            Some(Stress::Harsh)
        } else if spells(&said, "brutal") {
            Some(Stress::Brutal)
        } else {
            None
        }
    }

    /// How many node processes the level spawns when nobody names them: one,
    /// three, ten, forty.
    pub fn nodes(self) -> (count: usize)
        ensures
            count as nat == node_count(self),
    {
        match self {
            Stress::Calm => 1,
            Stress::Realistic => 3,
            Stress::Harsh => 10,
            Stress::Brutal => 40,
        }
    }

    /// How often a node ticks, in milliseconds: a quarter second where a test
    /// wants contention now, a second when harsh, two when brutal.
    pub fn node_interval_ms(self) -> (ms: u64)
        ensures
            ms == (match self {
                Stress::Calm | Stress::Realistic => 250u64,
                Stress::Harsh => 1000u64,
                Stress::Brutal => 2000u64,
            }),
    {
        match self {
            Stress::Calm | Stress::Realistic => 250,
            Stress::Harsh => 1_000,
            Stress::Brutal => 2_000,
        }
    }
}

/// Whether `chars` spell `word`.
fn spells(chars: &Vec<char>, word: &str) -> (same: bool)
    ensures
        same == (chars@ == word@),
{
    let expected = chars_of(word);
    same_chars(chars.as_slice(), expected.as_slice())
}


/// A level's name reads back as that level.
pub proof fn lemma_stress_reads_back(stress: Stress)
    ensures
        stress_named(stress_name(stress)) == Some(stress),
{
    reveal_strlit("calm");
    reveal_strlit("realistic");
    reveal_strlit("harsh");
    reveal_strlit("brutal");
    crate::text::lemma_lowercase_word(stress_name(stress));
}


/// Every level brings its own count of nodes, and `brutal` brings the most.
pub proof fn lemma_brutal_brings_the_most(stress: Stress)
    ensures
        node_count(Stress::Brutal) >= node_count(stress),
        node_count(stress) >= 1,
{
}

} // verus!
