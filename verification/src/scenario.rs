//! The scenarios a roll and its nodes can drive, by the names the roll's
//! environment and the node's `--scenarios` use. One list for both, so they
//! cannot disagree on what a name means. A name neither knows is REFUSED,
//! never dropped.

use vstd::prelude::*;

use crate::text::{
    append_joined, chars_of, char_views, lower, lowered, same_chars, string_of, string_views,
    words, words_of,
};

verus! {

/// Every scenario, in the order the board lists them.
pub const SCENARIOS: [&'static str; 7] = [
    "round-trip",
    "low-latency",
    "heavy-load",
    "retention",
    "filing",
    "exclusive-claim",
    "daily-backlog",
];

/// The scenario a cluster's nodes hand from one stage to the next.
pub const ROUND_TRIP: &'static str = "round-trip";

/// Exclusive pickup over the cluster's shared directory.
pub const EXCLUSIVE_CLAIM: &'static str = "exclusive-claim";

/// The backlog drained over the cluster's shared directory.
pub const DAILY_BACKLOG: &'static str = "daily-backlog";

/// Every scenario's name, in the order the board lists them.
pub open spec fn scenario_names() -> Seq<Seq<char>> {
    seq![
        "round-trip"@,
        "low-latency"@,
        "heavy-load"@,
        "retention"@,
        "filing"@,
        "exclusive-claim"@,
        "daily-backlog"@,
    ]
}

/// Every scenario's name, in the order the board lists them.
pub fn scenarios() -> (all: Vec<String>)
    ensures
        string_views(all@) == scenario_names(),
{
    let mut all: Vec<String> = Vec::new();
    all.push(owned("round-trip"));
    all.push(owned("low-latency"));
    all.push(owned("heavy-load"));
    all.push(owned("retention"));
    all.push(owned("filing"));
    all.push(owned("exclusive-claim"));
    all.push(owned("daily-backlog"));
    assert(string_views(all@) =~= scenario_names());
    all
}

/// `word` as an owned `String`.
fn owned(word: &str) -> (out: String)
    ensures
        out@ == word@,
{
    let mut out = String::new();
    out.append(word);
    out
}

/// The names a list picks: its words, each lowered.
pub open spec fn picked(raw: Seq<char>) -> Seq<Seq<char>> {
    words(raw, ',').map_values(|word: Seq<char>| lower(word))
}

/// The names of `names` that are scenarios (`known` true) or are not
/// (`known` false), in order.
pub open spec fn sorted_out(names: Seq<Seq<char>>, known: bool) -> Seq<Seq<char>>
    decreases names.len(),
{
    if names.len() == 0 {
        names
    } else {
        let before = sorted_out(names.drop_last(), known);
        if scenario_names().contains(names.last()) == known {
            before.push(names.last())
        } else {
            before
        }
    }
}

/// What `chosen` answers for a list: the scenarios named, or the refusal
/// naming every stranger and every scenario there is.
pub open spec fn choice(raw: Seq<char>) -> Result<Seq<Seq<char>>, Seq<char>> {
    let strangers = sorted_out(picked(raw), false);
    if strangers.len() == 0 {
        Ok(sorted_out(picked(raw), true))
    } else {
        Err(
            "REFUSED: no scenario is named "@ + crate::text::join(strangers, ", "@)
                + "; the scenarios are "@ + crate::text::join(scenario_names(), ", "@),
        )
    }
}

/// The scenarios named in a comma-separated list: empty when the list is
/// absent or names nothing, which means every scenario. Names are trimmed and
/// lowered. When a name is not a scenario the answer is the refusal: it says
/// REFUSED, names every stranger and lists the scenarios there are.
pub fn chosen(raw: Option<&str>) -> (result: Result<Vec<String>, String>)
    ensures
        match (result, choice(match raw { Some(text) => text@, None => Seq::empty() })) {
            (Ok(names), Ok(expected)) => string_views(names@) == expected,
            (Err(said), Err(expected)) => said@ == expected,
            _ => false,
        },
{
    let chars = match raw {
        Some(text) => chars_of(text),
        None => Vec::new(),
    };
    let ghost text = chars@;
    let pieces = words_of(chars.as_slice(), ',');
    let every = scenarios();
    let ghost names = picked(text);
    let mut known: Vec<String> = Vec::new();
    let mut unknown: Vec<String> = Vec::new();
    let mut i: usize = 0;
    while i < pieces.len()
        invariant
            i <= pieces@.len(),
            char_views(pieces@) == words(text, ','),
            names == picked(text),
            string_views(every@) == scenario_names(),
            string_views(known@) == sorted_out(names.take(i as int), true),
            string_views(unknown@) == sorted_out(names.take(i as int), false),
        decreases pieces@.len() - i,
    {
        let low = lowered(pieces[i].as_slice());
        let name = string_of(low.as_slice());
        proof {
            assert(names.take(i as int + 1).drop_last() == names.take(i as int));
            assert(names[i as int] == lower(pieces@[i as int]@));
            assert(names.take(i as int + 1).last() == name@);
        }
        let is_scenario = listed(&every, low.as_slice());
        if is_scenario {
            proof {
                assert(string_views(known@.push(name)) == string_views(known@).push(name@));
            }
            known.push(name);
        } else {
            proof {
                assert(string_views(unknown@.push(name)) == string_views(unknown@).push(name@));
            }
            unknown.push(name);
        }
        i = i + 1;
    }
    assert(names.take(pieces@.len() as int) == names);
    if unknown.len() == 0 {
        Ok(known)
    } else {
        let mut said = String::new();
        said.append("REFUSED: no scenario is named ");
        append_joined(&mut said, &unknown, ", ");
        said.append("; the scenarios are ");
        append_joined(&mut said, &every, ", ");
        Err(said)
    }
}

/// Whether `name` is one of `list`, character for character.
fn listed(list: &Vec<String>, name: &[char]) -> (found: bool)
    ensures
        found == string_views(list@).contains(name@),
{
    let ghost views = string_views(list@);
    let mut i: usize = 0;
    while i < list.len()
        invariant
            i <= list@.len(),
            views == string_views(list@),
            forall|j: int| 0 <= j < i ==> views[j] != name@,
        decreases list@.len() - i,
    {
        let one = chars_of(list[i].as_str());
        if same_chars(one.as_slice(), name) {
            assert(views[i as int] == name@);
            return true;
        }
        i = i + 1;
    }
    false
}

/// Whether the chosen list drives `scenario`: every one when nothing was
/// chosen.
pub open spec fn drives_spec(chosen: Seq<Seq<char>>, scenario: Seq<char>) -> bool {
    chosen.len() == 0 || chosen.contains(scenario)
}

/// Whether the chosen list drives the named scenario: every one when nothing
/// was chosen.
pub fn drives(chosen: &[String], scenario: &str) -> (yes: bool)
    ensures
        yes == drives_spec(string_views(chosen@), scenario@),
{
    if chosen.len() == 0 {
        return true;
    }
    let wanted = chars_of(scenario);
    let ghost views = string_views(chosen@);
    let mut i: usize = 0;
    while i < chosen.len()
        invariant
            i <= chosen@.len(),
            views == string_views(chosen@),
            wanted@ == scenario@,
            forall|j: int| 0 <= j < i ==> views[j] != scenario@,
        decreases chosen@.len() - i,
    {
        let one = chars_of(chosen[i].as_str());
        if same_chars(one.as_slice(), wanted.as_slice()) {
            assert(views[i as int] == scenario@);
            return true;
        }
        i = i + 1;
    }
    false
}


/// Every scenario's name is one lowercase word: not empty, letters and
/// hyphens.
pub proof fn lemma_scenario_names_plain()
    ensures
        forall|k: int|
            0 <= k < scenario_names().len() ==> (#[trigger] scenario_names()[k]).len() > 0
                && crate::text::lowercase_word(scenario_names()[k]),
{
    reveal_strlit("round-trip");
    reveal_strlit("low-latency");
    reveal_strlit("heavy-load");
    reveal_strlit("retention");
    reveal_strlit("filing");
    reveal_strlit("exclusive-claim");
    reveal_strlit("daily-backlog");
    assert forall|k: int|
        0 <= k < scenario_names().len() implies (#[trigger] scenario_names()[k]).len() > 0
        && crate::text::lowercase_word(scenario_names()[k]) by {
        let name = scenario_names()[k];
        assert forall|i: int| 0 <= i < name.len() implies ('a' <= #[trigger] name[i] <= 'z'
            || name[i] == '-') by {
            if k == 0 {
            } else if k == 1 {
            } else if k == 2 {
            } else if k == 3 {
            } else if k == 4 {
            } else if k == 5 {
            } else {
            }
        }
    }
}

/// Names that are all scenarios are sorted out whole: every one known, no
/// stranger.
proof fn lemma_all_known(names: Seq<Seq<char>>)
    requires
        forall|i: int| 0 <= i < names.len() ==> scenario_names().contains(#[trigger] names[i]),
    ensures
        sorted_out(names, true) == names,
        sorted_out(names, false) == Seq::<Seq<char>>::empty(),
    decreases names.len(),
{
    if names.len() > 0 {
        let before = names.drop_last();
        assert forall|i: int| 0 <= i < before.len() implies scenario_names().contains(
            #[trigger] before[i],
        ) by {
            assert(before[i] == names[i]);
        }
        lemma_all_known(before);
        assert(scenario_names().contains(names[names.len() - 1]));
        assert(before.push(names.last()) == names);
    }
}

/// Scenarios written as `--scenarios` takes them — their names joined by
/// commas — are read back as the same scenarios, in the same order.
pub proof fn lemma_scenarios_read_back(chosen: Seq<Seq<char>>)
    requires
        forall|i: int| 0 <= i < chosen.len() ==> scenario_names().contains(#[trigger] chosen[i]),
    ensures
        choice(crate::text::join(chosen, ","@)) == Ok::<Seq<Seq<char>>, Seq<char>>(chosen),
{
    reveal_strlit(",");
    assert(","@ == seq![',']);
    lemma_scenario_names_plain();
    assert forall|i: int| 0 <= i < chosen.len() implies (#[trigger] chosen[i]).len() > 0
        && !chosen[i].contains(',') && crate::text::trim(chosen[i]) == chosen[i]
        && lower(chosen[i]) == chosen[i] by {
        let k = choose|k: int| 0 <= k < scenario_names().len() && scenario_names()[k] == chosen[i];
        assert(scenario_names()[k].len() > 0 && crate::text::lowercase_word(scenario_names()[k]));
        crate::text::lemma_lowercase_word(chosen[i]);
    }
    crate::text::lemma_words_join(chosen, ',');
    let raw = crate::text::join(chosen, ","@);
    assert(picked(raw) =~= chosen);
    lemma_all_known(chosen);
}


/// What is sorted out as known is known.
proof fn lemma_sorted_known(names: Seq<Seq<char>>)
    ensures
        forall|i: int|
            0 <= i < sorted_out(names, true).len() ==> scenario_names().contains(
                #[trigger] sorted_out(names, true)[i],
            ),
    decreases names.len(),
{
    if names.len() > 0 {
        let before = sorted_out(names.drop_last(), true);
        lemma_sorted_known(names.drop_last());
        if scenario_names().contains(names.last()) {
            assert forall|i: int| 0 <= i < before.push(names.last()).len() implies
                scenario_names().contains(#[trigger] before.push(names.last())[i]) by {
                if i < before.len() {
                    assert(before.push(names.last())[i] == before[i]);
                }
            }
        }
    }
}

/// A name that is no scenario is sorted out as a stranger.
proof fn lemma_stranger_kept(names: Seq<Seq<char>>, i: int)
    requires
        0 <= i < names.len(),
        !scenario_names().contains(names[i]),
    ensures
        sorted_out(names, false).len() > 0,
    decreases names.len(),
{
    if i < names.len() - 1 {
        assert(names.drop_last()[i] == names[i]);
        lemma_stranger_kept(names.drop_last(), i);
    }
}

/// A list drives only scenarios: what it chooses is scenarios, and a name
/// that is no scenario is refused, never dropped.
pub proof fn lemma_only_scenarios_are_chosen(raw: Seq<char>)
    ensures
        choice(raw) is Ok ==> forall|i: int|
            0 <= i < choice(raw)->Ok_0.len() ==> scenario_names().contains(
                #[trigger] choice(raw)->Ok_0[i],
            ),
        (exists|i: int|
            0 <= i < picked(raw).len() && !scenario_names().contains(#[trigger] picked(raw)[i]))
            ==> choice(raw) is Err,
{
    lemma_sorted_known(picked(raw));
    if exists|i: int|
        0 <= i < picked(raw).len() && !scenario_names().contains(#[trigger] picked(raw)[i]) {
        let i = choose|i: int|
            0 <= i < picked(raw).len() && !scenario_names().contains(#[trigger] picked(raw)[i]);
        lemma_stranger_kept(picked(raw), i);
    }
}

} // verus!
