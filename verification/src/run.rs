//! What a roll was started with, published beside the snapshot under `[run]`:
//! the cluster, the tests by the names a person asks for them, every node and
//! what each was started with, the online ones, and the stress level.

use vstd::prelude::*;

use crate::capability::entry_of;
use crate::roster::{capability_in, entry_names, Entry, Roster};
use crate::scenario::{scenario_names, scenarios};
use crate::stress::{stress_name, Stress};
use crate::text::{chars_of, push_char, split, split_on, string_views};

verus! {

/// What a run was started with.
#[derive(Clone, Debug, Default, PartialEq, Eq)]
pub struct Run {
    /// The cluster's name.
    pub cluster: String,
    /// The tests driven, by the names a person asks for them.
    pub tests: Vec<String>,
    /// Every node, in the order they were named.
    pub nodes: Vec<String>,
    /// What each node was started with: `R1=receive`, or its name alone.
    pub capabilities: Vec<String>,
    /// The nodes that may assume the internet.
    pub online: Vec<String>,
    /// The stress level's name.
    pub stress: String,
}

/// A word with its first letter raised, if it is an ASCII letter.
pub open spec fn capitalised(word: Seq<char>) -> Seq<char> {
    if word.len() == 0 {
        word
    } else {
        seq![upper_char(word[0])] + word.subrange(1, word.len() as int)
    }
}

/// `c` raised when it is an ASCII small letter, else `c`.
pub open spec fn upper_char(c: char) -> char {
    if 'a' <= c <= 'z' {
        ((c as u32) - 32) as char
    } else {
        c
    }
}

/// The words joined with nothing between.
pub open spec fn concatenated(words: Seq<Seq<char>>) -> Seq<char>
    decreases words.len(),
{
    if words.len() == 0 {
        Seq::empty()
    } else {
        concatenated(words.drop_last()) + words.last()
    }
}

/// The test a person knows for a scenario: every hyphen-separated word
/// capitalised and the hyphens dropped — `round-trip` is `RoundTrip`.
pub open spec fn test_named(scenario: Seq<char>) -> Seq<char> {
    concatenated(split(scenario, '-').map_values(|word: Seq<char>| capitalised(word)))
}

/// The test a person knows for a scenario: `round-trip` is `RoundTrip`.
pub fn test_name(scenario: &str) -> (name: String)
    ensures
        name@ == test_named(scenario@),
{
    let chars = chars_of(scenario);
    let words = split_on(chars.as_slice(), '-');
    let ghost all = crate::text::char_views(words@).map_values(|word: Seq<char>| capitalised(word));
    let mut name = String::new();
    let mut i: usize = 0;
    while i < words.len()
        invariant
            i <= words@.len(),
            all == crate::text::char_views(words@).map_values(|word: Seq<char>| capitalised(word)),
            name@ == concatenated(all.take(i as int)),
        decreases words@.len() - i,
    {
        let word = &words[i];
        let ghost before = name@;
        if word.len() > 0 {
            let first = word[0];
            let raised = if 'a' <= first && first <= 'z' {
                (((first as u8) - 32) as char)
            } else {
                first
            };
            assert(raised == upper_char(first));
            push_char(&mut name, raised);
            let mut k: usize = 1;
            while k < word.len()
                invariant
                    1 <= k <= word@.len(),
                    name@ == before + seq![raised] + word@.subrange(1, k as int),
                decreases word@.len() - k,
            {
                push_char(&mut name, word[k]);
                k = k + 1;
                assert(name@ =~= before + seq![raised] + word@.subrange(1, k as int));
            }
        }
        proof {
            assert(all.take(i as int + 1).drop_last() == all.take(i as int));
            assert(all.take(i as int + 1).last() == capitalised(word@));
        }
        i = i + 1;
        assert(name@ =~= concatenated(all.take(i as int)));
    }
    assert(all.take(words@.len() as int) == all);
    name
}

/// The tests a run drives: the scenarios chosen, every one when none was.
pub open spec fn tests_of(chosen: Seq<Seq<char>>) -> Seq<Seq<char>> {
    let scenarios = if chosen.len() == 0 { scenario_names() } else { chosen };
    scenarios.map_values(|scenario: Seq<char>| test_named(scenario))
}

/// The nodes of `names` that may assume the internet as `entries` declare
/// them, in order.
pub open spec fn online_names(names: Seq<Seq<char>>, entries: Seq<Entry>) -> Seq<Seq<char>>
    decreases names.len(),
{
    if names.len() == 0 {
        Seq::empty()
    } else {
        let before = online_names(names.drop_last(), entries);
        if capability_in(entries, names.last()).online {
            before.push(names.last())
        } else {
            before
        }
    }
}

/// The run of `cluster` driving the `chosen` scenarios (none chosen is every
/// one) over the nodes of `roster` at `stress`: the tests by the names a
/// person asks for them, and what each node was started with, including its
/// online capability.
pub fn started(cluster: &str, chosen: &[String], roster: &Roster, stress: Stress) -> (run: Run)
    ensures
        run.cluster@ == cluster@,
        string_views(run.tests@) == tests_of(string_views(chosen@)),
        string_views(run.nodes@) == entry_names(roster@),
        string_views(run.capabilities@) == entry_names(roster@).map_values(
            |name: Seq<char>| entry_of(capability_in(roster@, name), name),
        ),
        string_views(run.online@) == online_names(entry_names(roster@), roster@),
        run.stress@ == stress_name(stress),
{
    let every = if chosen.len() == 0 {
        scenarios()
    } else {
        crate::role::copied(chosen)
    };
    let ghost scenario_views = string_views(every@);
    assert(scenario_views == (if string_views(chosen@).len() == 0 {
        scenario_names()
    } else {
        string_views(chosen@)
    }));
    let ghost test_views = scenario_views.map_values(|scenario: Seq<char>| test_named(scenario));
    let mut tests: Vec<String> = Vec::new();
    let mut i: usize = 0;
    while i < every.len()
        invariant
            i <= every@.len(),
            scenario_views == string_views(every@),
            test_views == scenario_views.map_values(|scenario: Seq<char>| test_named(scenario)),
            string_views(tests@) == test_views.take(i as int),
        decreases every@.len() - i,
    {
        let one = test_name(every[i].as_str());
        proof {
            assert(string_views(tests@.push(one)) == string_views(tests@).push(one@));
            assert(test_views.take(i as int + 1) == test_views.take(i as int).push(test_views[i as int]));
        }
        tests.push(one);
        i = i + 1;
    }
    assert(test_views.take(every@.len() as int) == test_views);
    let names = roster.names();
    let ghost name_views = crate::role::str_views(names@);
    let ghost entries = name_views.map_values(
        |name: Seq<char>| entry_of(capability_in(roster@, name), name),
    );
    let mut nodes: Vec<String> = Vec::new();
    let mut capabilities: Vec<String> = Vec::new();
    let mut online: Vec<String> = Vec::new();
    let mut j: usize = 0;
    while j < names.len()
        invariant
            j <= names@.len(),
            name_views == crate::role::str_views(names@),
            name_views == entry_names(roster@),
            entries == name_views.map_values(
                |name: Seq<char>| entry_of(capability_in(roster@, name), name),
            ),
            string_views(nodes@) == name_views.take(j as int),
            string_views(capabilities@) == entries.take(j as int),
            string_views(online@) == online_names(name_views.take(j as int), roster@),
        decreases names@.len() - j,
    {
        let name = names[j];
        let capability = roster.capability(name);
        let mut node = String::new();
        node.append(name);
        let entry = capability.entry(name);
        proof {
            assert(string_views(nodes@.push(node)) == string_views(nodes@).push(node@));
            assert(string_views(capabilities@.push(entry)) == string_views(capabilities@).push(
                entry@,
            ));
            assert(name_views.take(j as int + 1) == name_views.take(j as int).push(name@));
            assert(entries.take(j as int + 1) == entries.take(j as int).push(entries[j as int]));
        }
        proof {
            assert(name_views.take(j as int + 1).drop_last() == name_views.take(j as int));
        }
        if capability.is_online() {
            let mut also = String::new();
            also.append(name);
            proof {
                assert(string_views(online@.push(also)) == string_views(online@).push(also@));
            }
            online.push(also);
        }
        nodes.push(node);
        capabilities.push(entry);
        j = j + 1;
    }
    assert(name_views.take(names@.len() as int) == name_views);
    assert(entries.take(names@.len() as int) == entries);
    let mut cluster_name = String::new();
    cluster_name.append(cluster);
    let mut level = String::new();
    level.append(stress.name());
    Run { cluster: cluster_name, tests, nodes, capabilities, online, stress: level }
}

} // verus!
