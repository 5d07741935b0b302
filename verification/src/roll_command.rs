//! What the roll decides before it spawns anything: which complement a
//! level brings when it is asked (`roll --roster <level>`), and whether
//! `RoundTrip` runs across the cluster's nodes rather than in the roll.

use vstd::prelude::*;

use crate::complement::{dealt, describe, description, full};
use crate::roster::{any_stage, roster_text, stage_refusal, Roster};
use crate::scenario::{drives, drives_spec, ROUND_TRIP};
use crate::stress::{node_count, stress_name, stress_named, Stress};
use crate::text::{lower, string_views, trim};

verus! {

/// What `the_complement` answers for the level given, if one was.
pub open spec fn complement_text(level: Option<Seq<char>>) -> Result<Seq<char>, Seq<char>> {
    let said = match level {
        Some(word) => word,
        None => Seq::empty(),
    };
    match stress_named(said) {
        Some(stress) if level is Some => Ok(roster_text(dealt(node_count(stress)))),
        _ => Err(
            "REFUSED: --roster takes a stress level; '"@ + said
                + "' is none. The levels are calm, realistic, harsh, brutal."@,
        ),
    }
}

/// What a level brings when nobody names nodes, written as `--nodes` takes
/// it back: `node-01=receive,node-02=process,…`. The level is the argument
/// and nothing else is read, so the answer is the level's alone; an unknown
/// one is REFUSED naming the four.
pub fn the_complement(level: Option<&str>) -> (result: Result<String, String>)
    ensures
        match (result, complement_text(match level { Some(word) => Some(word@), None => None })) {
            (Ok(text), Ok(expected)) => text@ == expected,
            (Err(said), Err(expected)) => said@ == expected,
            _ => false,
        },
{
    let stress = match level {
        Some(word) => Stress::parse(word),
        None => None,
    };
    match stress {
        Some(stress) => Ok(full(stress).text()),
        None => {
            let mut said = String::new();
            said.append("REFUSED: --roster takes a stress level; '");
            if let Some(word) = level {
                said.append(word);
            }
            said.append("' is none. The levels are calm, realistic, harsh, brutal.");
            proof {
                if level is None {
                    let nothing = Seq::<char>::empty();
                    assert(trim(nothing) =~= nothing);
                    assert(lower(nothing) =~= nothing);
                    reveal_strlit("calm");
                    reveal_strlit("realistic");
                    reveal_strlit("harsh");
                    reveal_strlit("brutal");
                }
            }
            Err(said)
        },
    }
}

/// What `relayed` answers.
pub open spec fn relay_decision(chosen: Seq<Seq<char>>, roster: Seq<crate::roster::Entry>) -> Result<
    bool,
    Seq<char>,
> {
    if !drives_spec(chosen, "round-trip"@) || !any_stage(roster) {
        Ok(false)
    } else {
        match stage_refusal(roster) {
            None => Ok(true),
            Some(refusal) => Err(refusal),
        }
    }
}

/// Whether `RoundTrip` runs across the cluster's nodes rather than in the
/// roll: it was chosen, and some node declared a stage of the path. A stage
/// no node declares is REFUSED before anything is spawned, naming the
/// capability that went undeclared.
pub fn relayed(chosen: &[String], roster: &Roster) -> (result: Result<bool, String>)
    ensures
        match (result, relay_decision(string_views(chosen@), roster@)) {
            (Ok(yes), Ok(expected)) => yes == expected,
            (Err(said), Err(expected)) => said@ == expected,
            _ => false,
        },
{
    if !drives(chosen, ROUND_TRIP) || !roster.serves_any_stage() {
        return Ok(false);
    }
    match roster.refusal() {
        None => Ok(true),
        Some(refusal) => Err(refusal),
    }
}


/// The first lines of a run: the level, the cluster and what its roster
/// resolved to, and the roster as `--nodes` takes it when it names any node.
pub open spec fn announced(cluster: Seq<char>, stress: Stress, roster: Seq<crate::roster::Entry>) -> Seq<
    Seq<char>,
> {
    let first = "roll at "@ + stress_name(stress) + " as cluster "@ + cluster + ": "@ + description(
        roster,
    );
    if roster.len() == 0 {
        seq![first]
    } else {
        seq![first, "  roster: "@ + roster_text(roster)]
    }
}

/// The first lines a roll of `cluster` says at `stress` over `roster`, so a
/// log that keeps them tells the run from the one before it, and a
/// complement too small for the message path is said rather than left to
/// be noticed.
pub fn announcement(cluster: &str, stress: Stress, roster: &Roster) -> (lines: Vec<String>)
    ensures
        string_views(lines@) == announced(cluster@, stress, roster@),
{
    let mut first = String::new();
    first.append("roll at ");
    first.append(stress.name());
    first.append(" as cluster ");
    first.append(cluster);
    first.append(": ");
    let said = describe(roster);
    first.append(said.as_str());
    let mut lines: Vec<String> = Vec::new();
    lines.push(first);
    if !roster.is_empty() {
        let mut second = String::new();
        second.append("  roster: ");
        let text = roster.text();
        second.append(text.as_str());
        lines.push(second);
    }
    assert(string_views(lines@) =~= announced(cluster@, stress, roster@));
    lines
}

} // verus!
