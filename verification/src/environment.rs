//! The roll's environment, once read: what a roll was told to spawn, and the
//! roster it spawns. The variables themselves are read at the edge; what
//! they say is decided here.

use vstd::prelude::*;

use crate::capability::Capability;
use crate::complement::{dealt, full, of_count};
use crate::number::{parse_whole, whole_number};
use crate::roster::{
    capability_in, declaring_spec, entry_names, read_entries, redeclared, Entry, Roster,
};
use crate::stress::{node_count, Stress};
use crate::switch::{names, node_online, online_rule};
use crate::text::{chars_of, followed, string_of, string_views, trim, trimmed, words};

verus! {

/// How many nodes, or which: an operator says one or the other.
#[derive(Clone, Debug, PartialEq, Eq)]
pub enum Told {
    /// The nodes by name, each declaring what it was given and no more.
    Named(Vec<String>),
    /// How many, numbered `node-01` up and dealt over the message path as
    /// the level's own complement is.
    Count(usize),
}

/// What a roll was told, as plain values.
pub enum ToldView {
    Named(Seq<Seq<char>>),
    Count(nat),
}

/// What a roll was told, as plain values.
pub open spec fn told_view(told: Option<Told>) -> Option<ToldView> {
    match told {
        Some(Told::Named(names)) => Some(ToldView::Named(string_views(names@))),
        Some(Told::Count(count)) => Some(ToldView::Count(count as nat)),
        None => None,
    }
}

/// What `told_of` answers: the names when names were given; else the
/// count, trimmed and read as a whole number; nothing when neither was
/// given or the count is no number.
pub open spec fn told_spec(names: Option<Seq<char>>, count: Option<Seq<char>>) -> Option<ToldView> {
    match names {
        Some(raw) => Some(ToldView::Named(words(raw, ','))),
        None => match count {
            None => None,
            Some(raw) => match whole_number(trim(raw), usize::MAX as nat) {
                Some(value) => Some(ToldView::Count(value)),
                None => None,
            },
        },
    }
}

/// What a roll was told to spawn, if it was told at all: `names` — the
/// node-names variable — names the nodes outright, and `count` — the
/// node-count variable — says how many instead, of which `0` is none at any
/// level. `None` when neither is given, and when the count is no number:
/// nothing was said, which is the level's full complement.
pub fn told_of(names_said: Option<&str>, count_said: Option<&str>) -> (told: Option<Told>)
    ensures
        told_view(told) == told_spec(
            match names_said {
                Some(raw) => Some(raw@),
                None => None,
            },
            match count_said {
                Some(raw) => Some(raw@),
                None => None,
            },
        ),
{
    if let Some(raw) = names_said {
        return Some(Told::Named(names(raw)));
    }
    let raw = match count_said {
        Some(raw) => raw,
        None => return None,
    };
    let chars = chars_of(raw);
    let digits = trimmed(chars.as_slice());
    match parse_whole(digits.as_slice()) {
        Some(value) => {
            if value > usize::MAX as u64 {
                None
            } else {
                Some(Told::Count(value as usize))
            }
        },
        None => {
            proof {
                assert(whole_number(digits@, u64::MAX as nat) is None);
                if whole_number(digits@, usize::MAX as nat) is Some {
                    assert(usize::MAX <= u64::MAX);
                }
            }
            None
        },
    }
}

/// The roster before the online capability is given: the nodes named with
/// what `declared` gives each, the count dealt, or the level's complement.
pub open spec fn base_roster(stress: Stress, told: Option<ToldView>, declared: Seq<char>) -> Result<
    Seq<Entry>,
    Seq<char>,
> {
    let dealt_names = |count: nat| entry_names(dealt(count));
    match told {
        Some(ToldView::Named(named)) => match read_entries(words(declared, ',')) {
            Err(refusal) => Err(refusal),
            Ok(read) => declaring_spec(named, read),
        },
        Some(ToldView::Count(count)) => if trim(declared).len() == 0 {
            Ok(dealt(count))
        } else {
            match read_entries(words(declared, ',')) {
                Err(refusal) => Err(refusal),
                Ok(read) => declaring_spec(entry_names(dealt(count)), read),
            }
        },
        None => Ok(dealt(node_count(stress))),
    }
}

/// Each node of `names` in turn given the online capability the rule says.
pub open spec fn given_online(
    entries: Seq<Entry>,
    names: Seq<Seq<char>>,
    online: Option<Seq<Seq<char>>>,
    all: bool,
) -> Seq<Entry>
    decreases names.len(),
{
    if names.len() == 0 {
        entries
    } else {
        let before = given_online(entries, names.drop_last(), online, all);
        let name = names.last();
        redeclared(
            before,
            name,
            Capability { online: online_rule(name, online, all), ..capability_in(before, name) },
        )
    }
}

/// What `roster_from` answers.
pub open spec fn roster_spec(
    stress: Stress,
    told: Option<ToldView>,
    declared: Seq<char>,
    online: Option<Seq<Seq<char>>>,
    all: bool,
) -> Result<Seq<Entry>, Seq<char>> {
    match base_roster(stress, told, declared) {
        Err(refusal) => Err(refusal),
        Ok(entries) => Ok(given_online(entries, entry_names(entries), online, all)),
    }
}

/// The roster a roll spawns: the nodes it was told, each declaring what
/// `declared` — `R1=receive,P1=process+send`, a node it does not name
/// declaring nothing — gives it; told a count, that many dealt over the
/// message path; told nothing, the level's full complement. Every node then
/// carries the online capability `online` and `all` say for it. Refused when
/// a word is no capability, or a capability was given to a node that is no
/// node of this roll.
pub fn roster_from(
    stress: Stress,
    told: Option<Told>,
    declared: &str,
    online: Option<&[String]>,
    all: bool,
) -> (result: Result<Roster, String>)
    requires
        match told {
            Some(Told::Count(count)) => count < u64::MAX,
            _ => true,
        },
    ensures
        match (
            result,
            roster_spec(
                stress,
                told_view(told),
                declared@,
                match online {
                    Some(list) => Some(string_views(list@)),
                    None => None,
                },
                all,
            ),
        ) {
            (Ok(roster), Ok(expected)) => roster@ == expected,
            (Err(said), Err(expected)) => said@ == expected,
            _ => false,
        },
{
    let ghost told_spec = told_view(told);
    let mut roster = match told {
        Some(Told::Named(named)) => match Roster::declaring(named.as_slice(), declared) {
            Ok(roster) => roster,
            Err(refusal) => return Err(refusal),
        },
        Some(Told::Count(count)) => {
            let chars = chars_of(declared);
            if trimmed(chars.as_slice()).len() == 0 {
                of_count(count)
            } else {
                let dealt_roster = of_count(count);
                let listed = dealt_roster.names();
                let mut named: Vec<String> = Vec::new();
                let mut i: usize = 0;
                while i < listed.len()
                    invariant
                        i <= listed@.len(),
                        string_views(named@) == crate::role::str_views(listed@).take(i as int),
                    decreases listed@.len() - i,
                {
                    let mut one = String::new();
                    one.append(listed[i]);
                    proof {
                        assert(string_views(named@.push(one)) == string_views(named@).push(one@));
                        assert(crate::role::str_views(listed@).take(i as int + 1)
                            == crate::role::str_views(listed@).take(i as int).push(listed@[i as int]@));
                    }
                    named.push(one);
                    i = i + 1;
                }
                assert(crate::role::str_views(listed@).take(listed@.len() as int)
                    == crate::role::str_views(listed@));
                match Roster::declaring(named.as_slice(), declared) {
                    Ok(roster) => roster,
                    Err(refusal) => return Err(refusal),
                }
            }
        },
        None => full(stress),
    };
    let ghost base = roster@;
    let listed = roster.names();
    let mut nodes: Vec<String> = Vec::new();
    let mut k: usize = 0;
    while k < listed.len()
        invariant
            k <= listed@.len(),
            string_views(nodes@) == crate::role::str_views(listed@).take(k as int),
        decreases listed@.len() - k,
    {
        let mut one = String::new();
        one.append(listed[k]);
        proof {
            assert(string_views(nodes@.push(one)) == string_views(nodes@).push(one@));
            assert(crate::role::str_views(listed@).take(k as int + 1) == crate::role::str_views(
                listed@,
            ).take(k as int).push(listed@[k as int]@));
        }
        nodes.push(one);
        k = k + 1;
    }
    assert(crate::role::str_views(listed@).take(listed@.len() as int) == crate::role::str_views(
        listed@,
    ));
    let ghost every = string_views(nodes@);
    assert(every == entry_names(base));
    let ghost online_spec = match online {
        Some(list) => Some(string_views(list@)),
        None => None,
    };
    let mut j: usize = 0;
    while j < nodes.len()
        invariant
            j <= nodes@.len(),
            every == string_views(nodes@),
            roster@ == given_online(base, every.take(j as int), online_spec, all),
            online_spec == match online {
                Some(list) => Some(string_views(list@)),
                None => None,
            },
        decreases nodes@.len() - j,
    {
        let name = nodes[j].as_str();
        let said_online = node_online(name, online, all);
        let capability = roster.capability(name).with_online(said_online);
        proof {
            assert(every.take(j as int + 1).drop_last() == every.take(j as int));
            assert(every.take(j as int + 1).last() == name@);
        }
        roster = roster.declared(name, capability);
        j = j + 1;
    }
    assert(every.take(nodes@.len() as int) == every);
    Ok(roster)
}


/// `str::to_lowercase`: every character mapped to its lowercase as Unicode
/// has it.
pub uninterp spec fn lowercased(text: Seq<char>) -> Seq<char>;

/// `char::is_alphabetic`: whether Unicode gives `c` the Alphabetic property.
pub uninterp spec fn alphabetic(c: char) -> bool;

/// `str::to_lowercase`, which maps by Unicode's tables: what it returns is
/// `lowercased` of the text, and nothing more is claimed of it here.
#[verifier::external_body]
fn to_lowercase(text: &str) -> (lower: String)
    ensures
        lower@ == lowercased(text@),
{
    text.to_lowercase()
}

/// `char::is_alphabetic`, which reads Unicode's Alphabetic property: what it
/// returns is `alphabetic` of the character, and nothing more is claimed of
/// it here.
#[verifier::external_body]
fn is_alphabetic(c: char) -> (yes: bool)
    ensures
        yes == alphabetic(c),
{
    c.is_alphabetic()
}

/// A megabyte: the load when none is said or what is said does not read.
pub const MEGABYTE: usize = 1048576;

/// Whether the first letter of `text` stands at `at`.
pub open spec fn first_letter(text: Seq<char>, at: int) -> bool {
    &&& 0 <= at < text.len()
    &&& alphabetic(text[at])
    &&& forall|j: int| 0 <= j < at ==> !alphabetic(#[trigger] text[j])
}

/// What a unit multiplies by: `gb`, `mb`, `kb` and their first letters;
/// one for anything else.
pub open spec fn unit_scale(unit: Seq<char>) -> nat {
    if unit == "gb"@ || unit == "g"@ {
        1073741824
    } else if unit == "mb"@ || unit == "m"@ {
        1048576
    } else if unit == "kb"@ || unit == "k"@ {
        1024
    } else {
        1
    }
}

/// A size as it is said, lowered, split where its first letter stands:
/// the number before, the unit from there on.
pub open spec fn size_parts(text: Seq<char>) -> (Seq<char>, Seq<char>) {
    if exists|at: int| first_letter(text, at) {
        let at = choose|at: int| first_letter(text, at);
        (text.take(at), text.skip(at))
    } else {
        (text, Seq::empty())
    }
}

/// What `load_bytes` answers: a plain number or a human size like `512mb`
/// or `2gb`, as many bytes as it says up to the most a `usize` holds; a
/// megabyte when nothing is said or the number does not read.
pub open spec fn load_size(raw: Option<Seq<char>>) -> nat {
    match raw {
        None => MEGABYTE as nat,
        Some(said) => {
            let parts = size_parts(lowercased(trim(said)));
            match whole_number(trim(parts.0), usize::MAX as nat) {
                Some(value) => if value * unit_scale(parts.1) > usize::MAX {
                    usize::MAX as nat
                } else {
                    value * unit_scale(parts.1)
                },
                None => MEGABYTE as nat,
            }
        },
    }
}

/// A size capped at the most a `usize` holds.
pub open spec fn capped(bytes: nat) -> nat {
    if bytes > usize::MAX {
        usize::MAX as nat
    } else {
        bytes
    }
}

/// A size is as many bytes as its number says in its unit: a gigabyte is
/// 1024 megabytes, a megabyte 1024 kilobytes, a kilobyte 1024 bytes, `g`,
/// `m` and `k` are the same as `gb`, `mb` and `kb`, and no unit is bytes;
/// the most a `usize` holds caps it. Said of any text whose number, once
/// trimmed and lowered and split at its first letter, reads as `n`.
pub proof fn lemma_units_are_powers_of_1024(said: Seq<char>, n: nat)
    requires
        whole_number(trim(size_parts(lowercased(trim(said))).0), usize::MAX as nat) == Some(n),
    ensures
        (size_parts(lowercased(trim(said))).1 == "gb"@ || size_parts(lowercased(trim(said))).1
            == "g"@) ==> load_size(Some(said)) == capped(n * 1024 * 1024 * 1024),
        (size_parts(lowercased(trim(said))).1 == "mb"@ || size_parts(lowercased(trim(said))).1
            == "m"@) ==> load_size(Some(said)) == capped(n * 1024 * 1024),
        (size_parts(lowercased(trim(said))).1 == "kb"@ || size_parts(lowercased(trim(said))).1
            == "k"@) ==> load_size(Some(said)) == capped(n * 1024),
        size_parts(lowercased(trim(said))).1.len() == 0 ==> load_size(Some(said)) == n,
{
    reveal_strlit("gb");
    reveal_strlit("g");
    reveal_strlit("mb");
    reveal_strlit("m");
    reveal_strlit("kb");
    reveal_strlit("k");
    let unit = size_parts(lowercased(trim(said))).1;
    assert(n * 1024 * 1024 * 1024 == n * 1073741824) by (nonlinear_arith);
    assert(n * 1024 * 1024 == n * 1048576) by (nonlinear_arith);
    assert("gb"@ != "mb"@ && "gb"@ != "kb"@ && "mb"@ != "kb"@) by {
        assert("gb"@[0] != "mb"@[0] && "gb"@[0] != "kb"@[0] && "mb"@[0] != "kb"@[0]);
    }
    assert("g"@ != "m"@ && "g"@ != "k"@ && "m"@ != "k"@) by {
        assert("g"@[0] != "m"@[0] && "g"@[0] != "k"@[0] && "m"@[0] != "k"@[0]);
    }
    if unit.len() == 0 {
        assert(unit != "gb"@ && unit != "g"@ && unit != "mb"@ && unit != "m"@);
        assert(unit != "kb"@ && unit != "k"@);
        assert(unit_scale(unit) == 1);
        assert(n * 1 == n);
    }
}

/// Whether `chars` spell `word`.
fn spell(chars: &[char], word: &str) -> (same: bool)
    ensures
        same == (chars@ == word@),
{
    let expected = chars_of(word);
    crate::text::same_chars(chars, expected.as_slice())
}

/// The `HeavyLoad` payload size, from what the load variable says: a plain
/// number or a human size like `512mb` or `2gb`, else a megabyte. Peak
/// memory is roughly twice this per pair.
pub fn load_bytes(raw: Option<&str>) -> (bytes: usize)
    ensures
        bytes as nat == load_size(
            match raw {
                Some(said) => Some(said@),
                None => None,
            },
        ),
{
    let said = match raw {
        Some(said) => said,
        None => return MEGABYTE,
    };
    let chars = chars_of(said);
    let bare = string_of(trimmed(chars.as_slice()).as_slice());
    let lower = to_lowercase(bare.as_str());
    let text = chars_of(lower.as_str());
    let mut at: usize = 0;
    while at < text.len() && !is_alphabetic(text[at])
        invariant
            at <= text@.len(),
            forall|j: int| 0 <= j < at ==> !alphabetic(#[trigger] text@[j]),
        decreases text@.len() - at,
    {
        at = at + 1;
    }
    let (number, unit) = text.as_slice().split_at(at);
    proof {
        if at < text@.len() {
            assert(first_letter(text@, at as int));
            assert forall|other: int| first_letter(text@, other) implies other == at by {
                if other < at {
                    assert(!alphabetic(text@[other]));
                } else if other > at {
                    assert(!alphabetic(text@[at as int]));
                }
            }
        } else {
            assert(forall|other: int| !first_letter(text@, other));
            assert(text@.take(at as int) == text@);
            assert(text@.skip(at as int) =~= Seq::<char>::empty());
        }
        assert(number@ == size_parts(text@).0);
        assert(unit@ == size_parts(text@).1);
    }
    let scale: usize = if spell(unit, "gb") || spell(unit, "g") {
        1073741824
    } else if spell(unit, "mb") || spell(unit, "m") {
        1048576
    } else if spell(unit, "kb") || spell(unit, "k") {
        1024
    } else {
        1
    };
    let digits = trimmed(number);
    match parse_whole(digits.as_slice()) {
        Some(value) => {
            if value > usize::MAX as u64 {
                MEGABYTE
            } else {
                match (value as usize).checked_mul(scale) {
                    Some(bytes) => bytes,
                    None => usize::MAX,
                }
            }
        },
        None => {
            proof {
                if whole_number(digits@, usize::MAX as nat) is Some {
                    assert(usize::MAX <= u64::MAX);
                }
            }
            MEGABYTE
        },
    }
}

/// Where one of the roll's files goes: the path a variable named, or a
/// file of this name in the temporary directory.
#[derive(Clone, Debug, PartialEq, Eq)]
pub enum Place {
    /// The path the variable gave, as it gave it.
    Named(String),
    /// A file of this name in the temporary directory.
    InTemp(String),
}

/// A place as plain values: named or not, and the text.
pub open spec fn place_view(place: Place) -> (bool, Seq<char>) {
    match place {
        Place::Named(path) => (true, path@),
        Place::InTemp(name) => (false, name@),
    }
}

/// Where a file goes: the path `said`, when a variable said one, else
/// `<cluster><suffix>` in the temporary directory.
pub open spec fn place_for(said: Option<Seq<char>>, cluster: Seq<char>, suffix: Seq<char>) -> (
    bool,
    Seq<char>,
) {
    match said {
        Some(path) => (true, path),
        None => (false, cluster + suffix),
    }
}

/// The place of one file from what its variable said.
fn place(said: Option<&str>, cluster: &str, suffix: &str) -> (place: Place)
    ensures
        place_view(place) == place_for(
            match said {
                Some(path) => Some(path@),
                None => None,
            },
            cluster@,
            suffix@,
        ),
{
    match said {
        Some(path) => Place::Named(path.to_owned()),
        None => Place::InTemp(followed(cluster, suffix)),
    }
}

/// Where the roll publishes its snapshot, history and activity: the paths
/// the three variables the cmdlet sets name (`XMIP_PLAYGROUND_SNAPSHOT`,
/// `_HISTORY`, `_ACTIVITY`, handed in as `snapshot`, `history` and
/// `activity`), else `<cluster>-snapshot.toml` and kin in the temporary
/// directory, which the monitoring GUI defaults to as well.
pub fn publish_paths(
    cluster: &str,
    snapshot: Option<&str>,
    history: Option<&str>,
    activity: Option<&str>,
) -> (places: (Place, Place, Place))
    ensures
        place_view(places.0) == place_for(
            match snapshot {
                Some(path) => Some(path@),
                None => None,
            },
            cluster@,
            "-snapshot.toml"@,
        ),
        place_view(places.1) == place_for(
            match history {
                Some(path) => Some(path@),
                None => None,
            },
            cluster@,
            "-history.toml"@,
        ),
        place_view(places.2) == place_for(
            match activity {
                Some(path) => Some(path@),
                None => None,
            },
            cluster@,
            "-activity.toml"@,
        ),
{
    (
        place(snapshot, cluster, "-snapshot.toml"),
        place(history, cluster, "-history.toml"),
        place(activity, cluster, "-activity.toml"),
    )
}

} // verus!
