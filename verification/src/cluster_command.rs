//! The cluster process's command line:
//!
//! ```text
//! cluster --name <cluster> --shared <dir> --nodes <a[=capability],b,...>
//!         --stress <level> --rounds <n> --snapshot <path>
//!         [--online <a,b>] [--scenarios <a,b>] [--interval-ms <ms>]
//! ```
//!
//! Bad input is refused at the door: every argument is read before a node
//! is spawned, and an unknown or malformed value is REFUSED, naming what was
//! wrong and what would be right. `--nodes` carries what each node declared
//! and nothing is inferred from a name.

use vstd::prelude::*;

use crate::image::{shaped, well_shaped};
use crate::node_command::{flattened, lemma_flags_differ, push_pair, Said};
use crate::number::{decimal, parse_whole, whole_number};
use crate::roster::{read_entries, roster_text, Entry, Roster};
use crate::scenario::{choice, chosen};
use crate::stress::{stress_name, stress_named, Stress};
use crate::switch::names;
use crate::text::{
    chars_of, followed, join, spelled, string_of, string_views, trim, trimmed, words,
};

verus! {

/// A cluster's command line as read so far: each flag's value once read,
/// the optional ones at their defaults.
pub struct ClusterTold {
    pub name: Option<Seq<char>>,
    pub shared: Option<Seq<char>>,
    pub nodes: Option<Seq<Entry>>,
    pub online: Option<Seq<Seq<char>>>,
    pub stress: Option<Stress>,
    pub scenarios: Seq<Seq<char>>,
    pub rounds: Option<u64>,
    pub snapshot: Option<Seq<char>>,
    pub interval_ms: u64,
}

/// Nothing read yet: every scenario, and a quarter second between rounds.
pub open spec fn untold() -> ClusterTold {
    ClusterTold {
        name: None,
        shared: None,
        nodes: None,
        online: None,
        stress: None,
        scenarios: Seq::empty(),
        rounds: None,
        snapshot: None,
        interval_ms: 250,
    }
}

/// A cluster's name as `--name` takes it: trimmed, letters, digits and
/// hyphens, starting with a letter.
pub open spec fn name_read(value: Seq<char>) -> Result<Seq<char>, Seq<char>> {
    let named = trim(value);
    if well_shaped(named) {
        Ok(named)
    } else {
        Err(
            "REFUSED: a cluster's name is letters, digits and hyphens starting with a letter: not "@
                + named,
        )
    }
}

/// A stress level as `--stress` takes it, or the refusal naming the four.
pub open spec fn level_read(value: Seq<char>) -> Result<Stress, Seq<char>> {
    match stress_named(value) {
        Some(stress) => Ok(stress),
        None => Err(
            "REFUSED: no stress level is called "@ + value
                + "; the levels are calm, realistic, harsh, brutal"@,
        ),
    }
}

/// A whole number as `flag` takes it, or the refusal saying so.
pub open spec fn number_read(flag: Seq<char>, value: Seq<char>) -> Result<u64, Seq<char>> {
    match whole_number(value, u64::MAX as nat) {
        Some(n) => Ok(n as u64),
        None => Err("REFUSED: "@ + flag + " wants a whole number, not "@ + value),
    }
}

/// What one `flag value` pair does to what was read so far.
pub open spec fn cluster_flag(told: ClusterTold, flag: Seq<char>, value: Seq<char>) -> Result<
    ClusterTold,
    Seq<char>,
> {
    if flag == "--name"@ {
        match name_read(value) {
            Ok(name) => Ok(ClusterTold { name: Some(name), ..told }),
            Err(refusal) => Err(refusal),
        }
    } else if flag == "--shared"@ {
        Ok(ClusterTold { shared: Some(value), ..told })
    } else if flag == "--nodes"@ {
        match read_entries(words(value, ',')) {
            Ok(nodes) => Ok(ClusterTold { nodes: Some(nodes), ..told }),
            Err(refusal) => Err(refusal),
        }
    } else if flag == "--online"@ {
        Ok(ClusterTold { online: Some(words(value, ',')), ..told })
    } else if flag == "--stress"@ {
        match level_read(value) {
            Ok(stress) => Ok(ClusterTold { stress: Some(stress), ..told }),
            Err(refusal) => Err(refusal),
        }
    } else if flag == "--scenarios"@ {
        match choice(value) {
            Ok(scenarios) => Ok(ClusterTold { scenarios, ..told }),
            Err(refusal) => Err(refusal),
        }
    } else if flag == "--rounds"@ {
        match number_read(flag, value) {
            Ok(rounds) => Ok(ClusterTold { rounds: Some(rounds), ..told }),
            Err(refusal) => Err(refusal),
        }
    } else if flag == "--snapshot"@ {
        Ok(ClusterTold { snapshot: Some(value), ..told })
    } else if flag == "--interval-ms"@ {
        match number_read(flag, value) {
            Ok(interval_ms) => Ok(ClusterTold { interval_ms, ..told }),
            Err(refusal) => Err(refusal),
        }
    } else {
        Err(
            "REFUSED: no flag is called "@ + flag
                + "; the flags are --name, --shared, --nodes, --online, --stress, --scenarios, --rounds, --snapshot and --interval-ms"@,
        )
    }
}

/// The arguments read pair by pair from the front: a flag without a value,
/// or the first flag refused, ends the reading.
pub open spec fn cluster_read(args: Seq<Seq<char>>, told: ClusterTold) -> Result<
    ClusterTold,
    Seq<char>,
>
    decreases args.len(),
{
    if args.len() == 0 {
        Ok(told)
    } else if args.len() == 1 {
        Err(args[0] + " needs a value"@)
    } else {
        match cluster_flag(told, args[0], args[1]) {
            Ok(next) => cluster_read(args.subrange(2, args.len() as int), next),
            Err(refusal) => Err(refusal),
        }
    }
}

/// A cluster's command line once read whole, as plain values.
pub struct ClusterArgumentsView {
    pub name: Seq<char>,
    pub shared: Seq<char>,
    pub nodes: Seq<Entry>,
    pub online: Option<Seq<Seq<char>>>,
    pub stress: Stress,
    pub scenarios: Seq<Seq<char>>,
    pub rounds: u64,
    pub snapshot: Seq<char>,
    pub interval_ms: u64,
}

/// What `parse` answers: the arguments, or the first refusal; the required
/// flags are checked in the order the usage gives them.
pub open spec fn cluster_arguments(args: Seq<Seq<char>>) -> Result<ClusterArgumentsView, Seq<char>> {
    match cluster_read(args, untold()) {
        Err(refusal) => Err(refusal),
        Ok(told) => cluster_arguments_of(told),
    }
}

/// What a cluster's command line said.
pub struct ClusterArguments {
    /// The cluster's name: the last segment of its scope root.
    pub name: String,
    /// The directory the cluster and its nodes share.
    pub shared: String,
    /// Every node to spawn, with the capability each is declared with.
    pub nodes: Roster,
    /// The nodes that may assume the internet; none when the flag was not
    /// given, which leaves it to the environment.
    pub online: Option<Vec<String>>,
    pub stress: Stress,
    /// The scenarios every node is told to run; empty means every one.
    pub scenarios: Vec<String>,
    /// Rounds the cluster publishes before it stops; `0` runs until stopped.
    pub rounds: u64,
    /// Where the cluster publishes its own snapshot.
    pub snapshot: String,
    /// The pause between rounds, in milliseconds.
    pub interval_ms: u64,
}

/// The plain values of an optional list of strings.
pub open spec fn list_view(list: Option<Vec<String>>) -> Option<Seq<Seq<char>>> {
    match list {
        Some(names) => Some(string_views(names@)),
        None => None,
    }
}

/// The plain value of an optional string.
pub open spec fn text_view(text: Option<String>) -> Option<Seq<char>> {
    match text {
        Some(one) => Some(one@),
        None => None,
    }
}

impl View for ClusterArguments {
    type V = ClusterArgumentsView;

    open spec fn view(&self) -> ClusterArgumentsView {
        ClusterArgumentsView {
            name: self.name@,
            shared: self.shared@,
            nodes: self.nodes@,
            online: list_view(self.online),
            stress: self.stress,
            scenarios: string_views(self.scenarios@),
            rounds: self.rounds,
            snapshot: self.snapshot@,
            interval_ms: self.interval_ms,
        }
    }
}

/// What has been read so far, as values.
struct Flags {
    name: Option<String>,
    shared: Option<String>,
    nodes: Option<Roster>,
    online: Option<Vec<String>>,
    stress: Option<Stress>,
    scenarios: Vec<String>,
    rounds: Option<u64>,
    snapshot: Option<String>,
    interval_ms: u64,
}

impl Flags {
    spec fn told(&self) -> ClusterTold {
        ClusterTold {
            name: text_view(self.name),
            shared: text_view(self.shared),
            nodes: match self.nodes {
                Some(roster) => Some(roster@),
                None => None,
            },
            online: list_view(self.online),
            stress: self.stress,
            scenarios: string_views(self.scenarios@),
            rounds: self.rounds,
            snapshot: text_view(self.snapshot),
            interval_ms: self.interval_ms,
        }
    }
}

/// A cluster's name as `--name` takes it.
pub fn cluster_named(value: &str) -> (result: Result<String, String>)
    ensures
        match (result, name_read(value@)) {
            (Ok(name), Ok(expected)) => name@ == expected,
            (Err(said), Err(expected)) => said@ == expected,
            _ => false,
        },
{
    let chars = chars_of(value);
    let named = trimmed(chars.as_slice());
    let text = string_of(named.as_slice());
    if shaped(named.as_slice()) {
        Ok(text)
    } else {
        Err(
            followed(
                "REFUSED: a cluster's name is letters, digits and hyphens starting with a letter: not ",
                text.as_str(),
            ),
        )
    }
}

/// A stress level by name, or a refusal naming the four there are.
pub fn level(value: &str) -> (result: Result<Stress, String>)
    ensures
        match (result, level_read(value@)) {
            (Ok(stress), Ok(expected)) => stress == expected,
            (Err(said), Err(expected)) => said@ == expected,
            _ => false,
        },
{
    match Stress::parse(value) {
        Some(stress) => Ok(stress),
        None => {
            let mut said = followed("REFUSED: no stress level is called ", value);
            said.append("; the levels are calm, realistic, harsh, brutal");
            Err(said)
        },
    }
}

/// A whole number as `flag` takes it, or a refusal saying so.
pub fn number(flag: &str, value: &str) -> (result: Result<u64, String>)
    ensures
        match (result, number_read(flag@, value@)) {
            (Ok(n), Ok(expected)) => n == expected,
            (Err(said), Err(expected)) => said@ == expected,
            _ => false,
        },
{
    let chars = chars_of(value);
    match parse_whole(chars.as_slice()) {
        Some(n) => Ok(n),
        None => {
            let mut said = followed("REFUSED: ", flag);
            said.append(" wants a whole number, not ");
            said.append(value);
            Err(said)
        },
    }
}

/// What one `flag value` pair does to what was read so far.
fn with_flag(flags: Flags, flag: &str, value: &str) -> (result: Result<Flags, String>)
    ensures
        match (result, cluster_flag(flags.told(), flag@, value@)) {
            (Ok(next), Ok(expected)) => next.told() == expected,
            (Err(said), Err(expected)) => said@ == expected,
            _ => false,
        },
{
    let mut flags = flags;
    if spelled(flag, "--name") {
        match cluster_named(value) {
            Ok(name) => flags.name = Some(name),
            Err(refusal) => return Err(refusal),
        }
    } else if spelled(flag, "--shared") {
        flags.shared = Some(value.to_owned());
    } else if spelled(flag, "--nodes") {
        match Roster::parse(value) {
            Ok(roster) => flags.nodes = Some(roster),
            Err(refusal) => return Err(refusal),
        }
    } else if spelled(flag, "--online") {
        flags.online = Some(names(value));
    } else if spelled(flag, "--stress") {
        match level(value) {
            Ok(stress) => flags.stress = Some(stress),
            Err(refusal) => return Err(refusal),
        }
    } else if spelled(flag, "--scenarios") {
        match chosen(Some(value)) {
            Ok(scenarios) => flags.scenarios = scenarios,
            Err(refusal) => return Err(refusal),
        }
    } else if spelled(flag, "--rounds") {
        match number(flag, value) {
            Ok(rounds) => flags.rounds = Some(rounds),
            Err(refusal) => return Err(refusal),
        }
    } else if spelled(flag, "--snapshot") {
        flags.snapshot = Some(value.to_owned());
    } else if spelled(flag, "--interval-ms") {
        match number(flag, value) {
            Ok(interval_ms) => flags.interval_ms = interval_ms,
            Err(refusal) => return Err(refusal),
        }
    } else {
        let mut said = followed("REFUSED: no flag is called ", flag);
        said.append(
            "; the flags are --name, --shared, --nodes, --online, --stress, --scenarios, --rounds, --snapshot and --interval-ms",
        );
        return Err(said);
    }
    Ok(flags)
}

/// The arguments once every flag was read: each required one present.
fn finish(flags: Flags) -> (result: Result<ClusterArguments, String>)
    ensures
        match (result, cluster_arguments_of(flags.told())) {
            (Ok(arguments), Ok(expected)) => arguments@ == expected,
            (Err(said), Err(expected)) => said@ == expected,
            _ => false,
        },
{
    let Flags { name, shared, nodes, online, stress, scenarios, rounds, snapshot, interval_ms } =
        flags;
    let name = match name {
        Some(name) => name,
        None => return Err("REFUSED: --name is required; a cluster is named, never invented".to_owned()),
    };
    let shared = match shared {
        Some(shared) => shared,
        None => return Err("REFUSED: --shared is required; it is the store the nodes share".to_owned()),
    };
    let nodes = match nodes {
        Some(nodes) => nodes,
        None => return Err(
            "REFUSED: --nodes is required; --nodes R1=receive,P1=process,S1=send names them and what each declares".to_owned(),
        ),
    };
    let stress = match stress {
        Some(stress) => stress,
        None => return Err(
            "REFUSED: --stress is required; it is one of calm, realistic, harsh, brutal".to_owned(),
        ),
    };
    let rounds = match rounds {
        Some(rounds) => rounds,
        None => return Err("REFUSED: --rounds is required; 0 rolls until stopped".to_owned()),
    };
    let snapshot = match snapshot {
        Some(snapshot) => snapshot,
        None => return Err(
            "REFUSED: --snapshot is required; it is where the cluster publishes".to_owned(),
        ),
    };
    Ok(ClusterArguments { name, shared, nodes, online, stress, scenarios, rounds, snapshot, interval_ms })
}

/// The required flags checked over what was read, in the usage's order.
pub open spec fn cluster_arguments_of(told: ClusterTold) -> Result<ClusterArgumentsView, Seq<char>> {
    if told.name is None {
        Err("REFUSED: --name is required; a cluster is named, never invented"@)
    } else if told.shared is None {
        Err("REFUSED: --shared is required; it is the store the nodes share"@)
    } else if told.nodes is None {
        Err(
            "REFUSED: --nodes is required; --nodes R1=receive,P1=process,S1=send names them and what each declares"@,
        )
    } else if told.stress is None {
        Err("REFUSED: --stress is required; it is one of calm, realistic, harsh, brutal"@)
    } else if told.rounds is None {
        Err("REFUSED: --rounds is required; 0 rolls until stopped"@)
    } else if told.snapshot is None {
        Err("REFUSED: --snapshot is required; it is where the cluster publishes"@)
    } else {
        Ok(
            ClusterArgumentsView {
                name: told.name->0,
                shared: told.shared->0,
                nodes: told.nodes->0,
                online: told.online,
                stress: told.stress->0,
                scenarios: told.scenarios,
                rounds: told.rounds->0,
                snapshot: told.snapshot->0,
                interval_ms: told.interval_ms,
            },
        )
    }
}

/// A cluster's command line, `--flag value` pairs, every required flag
/// present and well formed. The first flag that has no value, is no flag,
/// or has a value that does not read is refused, saying what was wrong and
/// what would be right; then a required flag missing is.
pub fn parse(args: &[String]) -> (result: Result<ClusterArguments, String>)
    ensures
        match (result, cluster_arguments(string_views(args@))) {
            (Ok(arguments), Ok(expected)) => arguments@ == expected,
            (Err(said), Err(expected)) => said@ == expected,
            _ => false,
        },
{
    let ghost all = string_views(args@);
    let mut flags = Flags {
        name: None,
        shared: None,
        nodes: None,
        online: None,
        stress: None,
        scenarios: Vec::new(),
        rounds: None,
        snapshot: None,
        interval_ms: 250,
    };
    assert(flags.told() =~= untold()) by {
        assert(string_views(flags.scenarios@) =~= Seq::<Seq<char>>::empty());
    }
    assert(all.subrange(0, all.len() as int) == all);
    let mut i: usize = 0;
    while i < args.len()
        invariant
            i <= args@.len(),
            all == string_views(args@),
            cluster_read(all, untold()) == cluster_read(
                all.subrange(i as int, all.len() as int),
                flags.told(),
            ),
        decreases args@.len() - i,
    {
        let ghost rest = all.subrange(i as int, all.len() as int);
        if i + 1 >= args.len() {
            assert(rest.len() == 1 && rest[0] == args@[i as int]@);
            return Err(followed(args[i].as_str(), " needs a value"));
        }
        assert(rest[0] == args@[i as int]@ && rest[1] == args@[i as int + 1]@);
        assert(rest.subrange(2, rest.len() as int) == all.subrange(i as int + 2, all.len() as int));
        flags = match with_flag(flags, args[i].as_str(), args[i + 1].as_str()) {
            Ok(next) => next,
            Err(refusal) => return Err(refusal),
        };
        i = i + 2;
    }
    assert(all.subrange(i as int, all.len() as int) =~= Seq::<Seq<char>>::empty());
    finish(flags)
}


/// The flags a roll starts the cluster called `cluster` with, in order: its
/// name, the level, every node with what it declared, no rounds of its own
/// (it rolls until it is stopped), the online nodes when the orders name
/// them, the scenarios when any were named, and where it shares and
/// publishes.
pub open spec fn cluster_pairs(
    cluster: Seq<char>,
    stress: Stress,
    roster: Seq<Entry>,
    online: Option<Seq<Seq<char>>>,
    scenarios: Seq<Seq<char>>,
    shared: Seq<char>,
    snapshot: Seq<char>,
) -> Seq<Said> {
    seq![("--name"@, cluster)] + seq![("--stress"@, stress_name(stress))] + seq![
        ("--nodes"@, roster_text(roster)),
    ] + seq![("--rounds"@, "0"@)] + (match online {
        Some(list) => seq![("--online"@, join(list, ","@))],
        None => Seq::empty(),
    }) + (if scenarios.len() > 0 {
        seq![("--scenarios"@, join(scenarios, ","@))]
    } else {
        Seq::empty()
    }) + seq![("--shared"@, shared)] + seq![("--snapshot"@, snapshot)]
}

/// The command line a roll starts its cluster with: every node with what it
/// was declared with, never its name alone; the cluster rolls until the roll
/// stops it, and its nodes run the rounds the orders carry.
pub fn cluster_command_line(
    cluster: &str,
    stress: Stress,
    roster: &Roster,
    online: Option<&[String]>,
    scenarios: &[String],
    shared: &str,
    snapshot: &str,
) -> (args: Vec<String>)
    ensures
        string_views(args@) == flattened(
            cluster_pairs(
                cluster@,
                stress,
                roster@,
                match online {
                    Some(list) => Some(string_views(list@)),
                    None => None,
                },
                string_views(scenarios@),
                shared@,
                snapshot@,
            ),
        ),
{
    let ghost online_said = match online {
        Some(list) => Some(string_views(list@)),
        None => None,
    };
    let mut args: Vec<String> = Vec::new();
    let ghost mut pairs = Seq::<Said>::empty();
    assert(string_views(args@) =~= flattened(pairs));
    push_pair(&mut args, "--name", cluster.to_owned(), Ghost(pairs));
    proof {
        pairs = pairs + seq![("--name"@, cluster@)];
    }
    push_pair(&mut args, "--stress", stress.name().to_owned(), Ghost(pairs));
    proof {
        pairs = pairs + seq![("--stress"@, stress_name(stress))];
    }
    push_pair(&mut args, "--nodes", roster.text(), Ghost(pairs));
    proof {
        pairs = pairs + seq![("--nodes"@, roster_text(roster@))];
    }
    push_pair(&mut args, "--rounds", "0".to_owned(), Ghost(pairs));
    proof {
        pairs = pairs + seq![("--rounds"@, "0"@)];
    }
    match online {
        Some(list) => {
            let mut listed = String::new();
            crate::text::append_joined(&mut listed, list, ",");
            assert(listed@ =~= join(string_views(list@), ","@));
            push_pair(&mut args, "--online", listed, Ghost(pairs));
            proof {
                pairs = pairs + seq![("--online"@, join(string_views(list@), ","@))];
            }
        },
        None => {
            proof {
                assert(pairs + Seq::<Said>::empty() =~= pairs);
            }
        },
    }
    if scenarios.len() > 0 {
        let mut listed = String::new();
        crate::text::append_joined(&mut listed, scenarios, ",");
        assert(listed@ =~= join(string_views(scenarios@), ","@));
        push_pair(&mut args, "--scenarios", listed, Ghost(pairs));
        proof {
            pairs = pairs + seq![("--scenarios"@, join(string_views(scenarios@), ","@))];
        }
    } else {
        proof {
            assert(pairs + Seq::<Said>::empty() =~= pairs);
        }
    }
    push_pair(&mut args, "--shared", shared.to_owned(), Ghost(pairs));
    proof {
        pairs = pairs + seq![("--shared"@, shared@)];
    }
    push_pair(&mut args, "--snapshot", snapshot.to_owned(), Ghost(pairs));
    proof {
        pairs = pairs + seq![("--snapshot"@, snapshot@)];
        let expected = cluster_pairs(
            cluster@,
            stress,
            roster@,
            online_said,
            string_views(scenarios@),
            shared@,
            snapshot@,
        );
        assert(pairs =~= expected);
    }
    args
}

/// The flags read one pair after another, from what was read so far.
pub open spec fn cluster_fold(pairs: Seq<Said>, told: ClusterTold) -> Result<ClusterTold, Seq<char>>
    decreases pairs.len(),
{
    if pairs.len() == 0 {
        Ok(told)
    } else {
        match cluster_flag(told, pairs[0].0, pairs[0].1) {
            Ok(next) => cluster_fold(pairs.drop_first(), next),
            Err(refusal) => Err(refusal),
        }
    }
}

/// Reading the flags written one after another is reading them pair by
/// pair.
proof fn lemma_read_flattened(pairs: Seq<Said>, told: ClusterTold)
    ensures
        cluster_read(flattened(pairs), told) == cluster_fold(pairs, told),
    decreases pairs.len(),
{
    if pairs.len() > 0 {
        let all = flattened(pairs);
        assert(all[0] == pairs[0].0 && all[1] == pairs[0].1);
        assert(all.subrange(2, all.len() as int) == flattened(pairs.drop_first()));
        match cluster_flag(told, pairs[0].0, pairs[0].1) {
            Ok(next) => lemma_read_flattened(pairs.drop_first(), next),
            Err(_) => {},
        }
    }
}

/// Reading two runs of flags is reading the first, then the second.
proof fn lemma_fold_split(first: Seq<Said>, second: Seq<Said>, told: ClusterTold)
    ensures
        cluster_fold(first + second, told) == match cluster_fold(first, told) {
            Ok(next) => cluster_fold(second, next),
            Err(refusal) => Err(refusal),
        },
    decreases first.len(),
{
    if first.len() == 0 {
        assert(first + second == second);
    } else {
        assert((first + second)[0] == first[0]);
        assert((first + second).drop_first() == first.drop_first() + second);
        match cluster_flag(told, first[0].0, first[0].1) {
            Ok(next) => lemma_fold_split(first.drop_first(), second, next),
            Err(_) => {},
        }
    }
}

/// One flag read on its own.
proof fn lemma_fold_one(said: Said, told: ClusterTold)
    ensures
        cluster_fold(seq![said], told) == cluster_flag(told, said.0, said.1),
{
    assert(seq![said].drop_first() =~= Seq::<Said>::empty());
    assert(seq![said][0] == said);
    match cluster_flag(told, said.0, said.1) {
        Ok(next) => {
            assert(cluster_fold(Seq::<Said>::empty(), next) == Ok::<ClusterTold, Seq<char>>(next));
        },
        Err(_) => {},
    }
}

/// One more flag read after a run of flags that read.
proof fn lemma_step(
    before: Seq<Said>,
    said: Said,
    start: ClusterTold,
    so_far: ClusterTold,
    next: ClusterTold,
)
    requires
        cluster_fold(before, start) == Ok::<ClusterTold, Seq<char>>(so_far),
        cluster_flag(so_far, said.0, said.1) == Ok::<ClusterTold, Seq<char>>(next),
    ensures
        cluster_fold(before + seq![said], start) == Ok::<ClusterTold, Seq<char>>(next),
{
    lemma_fold_split(before, seq![said], start);
    lemma_fold_one(said, so_far);
}

/// The flags the cluster takes, by their letters.
proof fn lemma_flag_words()
    ensures
        "--name"@.len() == 6,
        "--nodes"@.len() == 7,
        "--shared"@.len() == 8,
        "--online"@.len() == 8,
        "--stress"@.len() == 8,
        "--rounds"@.len() == 8,
        "--snapshot"@.len() == 10,
        "--scenarios"@.len() == 11,
        "--interval-ms"@.len() == 13,
        "--stress"@ != "--shared"@,
        "--rounds"@ != "--shared"@,
        "--rounds"@ != "--stress"@,
        "--online"@ != "--shared"@,
        "--online"@ != "--stress"@,
        "--online"@ != "--rounds"@,
{
    reveal_strlit("--name");
    reveal_strlit("--nodes");
    reveal_strlit("--shared");
    reveal_strlit("--online");
    reveal_strlit("--stress");
    reveal_strlit("--rounds");
    reveal_strlit("--snapshot");
    reveal_strlit("--scenarios");
    reveal_strlit("--interval-ms");
    lemma_flags_differ();
}

/// `--name` reads a well-shaped name as itself.
proof fn lemma_name_flag(told: ClusterTold, cluster: Seq<char>)
    requires
        well_shaped(cluster),
    ensures
        cluster_flag(told, "--name"@, cluster) == Ok::<ClusterTold, Seq<char>>(
            ClusterTold { name: Some(cluster), ..told },
        ),
{
    assert(crate::role::is_alphanumeric(cluster[cluster.len() - 1]) || cluster[cluster.len() - 1]
        == '-');
    crate::text::lemma_trim_unchanged(cluster);
}

/// `--stress` reads a level's name as the level.
proof fn lemma_stress_flag(told: ClusterTold, stress: Stress)
    ensures
        cluster_flag(told, "--stress"@, stress_name(stress)) == Ok::<ClusterTold, Seq<char>>(
            ClusterTold { stress: Some(stress), ..told },
        ),
{
    lemma_flag_words();
    crate::stress::lemma_stress_reads_back(stress);
}

/// `--nodes` reads a roster's text as the roster, when its names are plain
/// and its nodes offline.
proof fn lemma_nodes_flag(told: ClusterTold, roster: Seq<Entry>)
    requires
        plain_offline(roster),
    ensures
        cluster_flag(told, "--nodes"@, roster_text(roster)) == Ok::<ClusterTold, Seq<char>>(
            ClusterTold { nodes: Some(roster), ..told },
        ),
{
    lemma_flag_words();
    crate::roster::lemma_roster_reads_back(roster);
}

/// `--rounds` reads `0` as no rounds of its own.
proof fn lemma_rounds_flag(told: ClusterTold)
    ensures
        cluster_flag(told, "--rounds"@, "0"@) == Ok::<ClusterTold, Seq<char>>(
            ClusterTold { rounds: Some(0), ..told },
        ),
{
    lemma_flag_words();
    reveal_strlit("0");
    assert("0"@ == decimal(0));
    crate::number::lemma_decimal_reads_back(0, u64::MAX as nat);
}

/// A roster its text carries whole: every name plain and every node
/// offline (the text carries no online switch).
pub open spec fn plain_offline(roster: Seq<Entry>) -> bool {
    forall|i: int|
        0 <= i < roster.len() ==> crate::roster::plain_name(#[trigger] roster[i].0)
            && !roster[i].1.online
}

/// Words a list joined by commas gives back: none empty, none holding a
/// comma, each its own trim.
pub open spec fn plain_words(list: Seq<Seq<char>>) -> bool {
    forall|i: int|
        0 <= i < list.len() ==> (#[trigger] list[i]).len() > 0 && !list[i].contains(',') && trim(
            list[i],
        ) == list[i]
}

/// `--online` reads plain names joined by commas as those names.
proof fn lemma_online_flag(told: ClusterTold, online: Seq<Seq<char>>)
    requires
        plain_words(online),
    ensures
        cluster_flag(told, "--online"@, join(online, ","@)) == Ok::<ClusterTold, Seq<char>>(
            ClusterTold { online: Some(online), ..told },
        ),
{
    lemma_flag_words();
    reveal_strlit(",");
    assert(","@ == seq![',']);
    crate::text::lemma_words_join(online, ',');
}

/// `--scenarios` reads scenarios joined by commas as those scenarios.
proof fn lemma_scenarios_flag(told: ClusterTold, scenarios: Seq<Seq<char>>)
    requires
        forall|i: int|
            0 <= i < scenarios.len() ==> crate::scenario::scenario_names().contains(
                #[trigger] scenarios[i],
            ),
    ensures
        cluster_flag(told, "--scenarios"@, join(scenarios, ","@)) == Ok::<ClusterTold, Seq<char>>(
            ClusterTold { scenarios, ..told },
        ),
{
    lemma_flag_words();
    crate::scenario::lemma_scenarios_read_back(scenarios);
}

/// `--shared` and `--snapshot` read their values as they are.
proof fn lemma_place_flags(told: ClusterTold, place: Seq<char>)
    ensures
        cluster_flag(told, "--shared"@, place) == Ok::<ClusterTold, Seq<char>>(
            ClusterTold { shared: Some(place), ..told },
        ),
        cluster_flag(told, "--snapshot"@, place) == Ok::<ClusterTold, Seq<char>>(
            ClusterTold { snapshot: Some(place), ..told },
        ),
{
    lemma_flag_words();
}

/// The flags a roll starts its cluster with, up to its rounds, read one
/// after another.
#[verifier::spinoff_prover]
proof fn lemma_first_flags(cluster: Seq<char>, stress: Stress, roster: Seq<Entry>)
    requires
        well_shaped(cluster),
        plain_offline(roster),
    ensures
        cluster_fold(
            seq![("--name"@, cluster)] + seq![("--stress"@, stress_name(stress))] + seq![
                ("--nodes"@, roster_text(roster)),
            ] + seq![("--rounds"@, "0"@)],
            untold(),
        ) == Ok::<ClusterTold, Seq<char>>(
            ClusterTold {
                name: Some(cluster),
                stress: Some(stress),
                nodes: Some(roster),
                rounds: Some(0),
                ..untold()
            },
        ),
{
    let s1 = seq![("--name"@, cluster)];
    let p2 = ("--stress"@, stress_name(stress));
    let p3 = ("--nodes"@, roster_text(roster));
    let p4 = ("--rounds"@, "0"@);
    let t0 = untold();
    let t1 = ClusterTold { name: Some(cluster), ..t0 };
    let t2 = ClusterTold { stress: Some(stress), ..t1 };
    let t3 = ClusterTold { nodes: Some(roster), ..t2 };
    let t4 = ClusterTold { rounds: Some(0), ..t3 };
    assert(cluster_fold(s1, t0) == Ok::<ClusterTold, Seq<char>>(t1)) by {
        lemma_name_flag(t0, cluster);
        lemma_fold_one(s1[0], t0);
    }
    let x2 = s1 + seq![p2];
    assert(cluster_fold(x2, t0) == Ok::<ClusterTold, Seq<char>>(t2)) by {
        lemma_stress_flag(t1, stress);
        lemma_step(s1, p2, t0, t1, t2);
    }
    let x3 = x2 + seq![p3];
    assert(cluster_fold(x3, t0) == Ok::<ClusterTold, Seq<char>>(t3)) by {
        lemma_nodes_flag(t2, roster);
        lemma_step(x2, p3, t0, t2, t3);
    }
    lemma_rounds_flag(t3);
    lemma_step(x3, p4, t0, t3, t4);
}

/// The flags a roll starts its cluster with, from the online nodes on, read
/// one after another from what the first ones left.
#[verifier::spinoff_prover]
proof fn lemma_last_flags(
    told: ClusterTold,
    online: Option<Seq<Seq<char>>>,
    scenarios: Seq<Seq<char>>,
    shared: Seq<char>,
    snapshot: Seq<char>,
)
    requires
        told.online is None,
        told.scenarios == Seq::<Seq<char>>::empty(),
        match online {
            Some(list) => plain_words(list),
            None => true,
        },
        forall|i: int|
            0 <= i < scenarios.len() ==> crate::scenario::scenario_names().contains(
                #[trigger] scenarios[i],
            ),
    ensures
        cluster_fold(
            (match online {
                Some(list) => seq![("--online"@, join(list, ","@))],
                None => Seq::<Said>::empty(),
            }) + (if scenarios.len() > 0 {
                seq![("--scenarios"@, join(scenarios, ","@))]
            } else {
                Seq::<Said>::empty()
            }) + seq![("--shared"@, shared)] + seq![("--snapshot"@, snapshot)],
            told,
        ) == Ok::<ClusterTold, Seq<char>>(
            ClusterTold {
                online,
                scenarios,
                shared: Some(shared),
                snapshot: Some(snapshot),
                ..told
            },
        ),
{
    let on = match online {
        Some(list) => seq![("--online"@, join(list, ","@))],
        None => Seq::<Said>::empty(),
    };
    let sc = if scenarios.len() > 0 {
        seq![("--scenarios"@, join(scenarios, ","@))]
    } else {
        Seq::<Said>::empty()
    };
    let p7 = ("--shared"@, shared);
    let p8 = ("--snapshot"@, snapshot);
    let t5 = ClusterTold { online, ..told };
    let t6 = ClusterTold { scenarios, ..t5 };
    let t7 = ClusterTold { shared: Some(shared), ..t6 };
    let t8 = ClusterTold { snapshot: Some(snapshot), ..t7 };
    assert(cluster_fold(on, told) == Ok::<ClusterTold, Seq<char>>(t5)) by {
        match online {
            Some(list) => {
                lemma_online_flag(told, list);
                lemma_fold_one(on[0], told);
            },
            None => {
                assert(t5 == told);
            },
        }
    }
    assert(cluster_fold(sc, t5) == Ok::<ClusterTold, Seq<char>>(t6)) by {
        if scenarios.len() > 0 {
            lemma_scenarios_flag(t5, scenarios);
            lemma_fold_one(sc[0], t5);
        } else {
            assert(scenarios =~= Seq::<Seq<char>>::empty());
            assert(t6 == t5);
        }
    }
    let x6 = on + sc;
    assert(cluster_fold(x6, told) == Ok::<ClusterTold, Seq<char>>(t6)) by {
        lemma_fold_split(on, sc, told);
    }
    let x7 = x6 + seq![p7];
    assert(cluster_fold(x7, told) == Ok::<ClusterTold, Seq<char>>(t7)) by {
        lemma_place_flags(t6, shared);
        lemma_step(x6, p7, told, t6, t7);
    }
    lemma_place_flags(t7, snapshot);
    lemma_step(x7, p8, told, t7, t8);
}

/// What a roll starts its cluster with, the cluster reads back as exactly
/// what it was told: its name, the level, every node with what it declared,
/// no rounds of its own, the online nodes the orders name (none named leaves
/// them to the environment), the scenarios named, and where it shares and
/// publishes, at the pace it takes when none is said. Nothing is lost on the
/// way and nothing inferred. This holds of a well-shaped name, of a roster
/// whose names are plain and whose nodes are offline (the roster's text
/// carries no online switch; `--online` does), of online names that are
/// plain words, and of scenarios that are scenarios.
#[verifier::spinoff_prover]
pub proof fn lemma_cluster_reads_its_command_line(
    cluster: Seq<char>,
    stress: Stress,
    roster: Seq<Entry>,
    online: Option<Seq<Seq<char>>>,
    scenarios: Seq<Seq<char>>,
    shared: Seq<char>,
    snapshot: Seq<char>,
)
    requires
        well_shaped(cluster),
        plain_offline(roster),
        match online {
            Some(list) => plain_words(list),
            None => true,
        },
        forall|i: int|
            0 <= i < scenarios.len() ==> crate::scenario::scenario_names().contains(
                #[trigger] scenarios[i],
            ),
    ensures
        cluster_arguments(
            flattened(cluster_pairs(cluster, stress, roster, online, scenarios, shared, snapshot)),
        ) == Ok::<ClusterArgumentsView, Seq<char>>(
            ClusterArgumentsView {
                name: cluster,
                shared,
                nodes: roster,
                online,
                stress,
                scenarios,
                rounds: 0,
                snapshot,
                interval_ms: 250,
            },
        ),
{
    lemma_first_flags(cluster, stress, roster);
    let first = seq![("--name"@, cluster)] + seq![("--stress"@, stress_name(stress))] + seq![
        ("--nodes"@, roster_text(roster)),
    ] + seq![("--rounds"@, "0"@)];
    let last = (match online {
        Some(list) => seq![("--online"@, join(list, ","@))],
        None => Seq::<Said>::empty(),
    }) + (if scenarios.len() > 0 {
        seq![("--scenarios"@, join(scenarios, ","@))]
    } else {
        Seq::<Said>::empty()
    }) + seq![("--shared"@, shared)] + seq![("--snapshot"@, snapshot)];
    let middle = ClusterTold {
        name: Some(cluster),
        stress: Some(stress),
        nodes: Some(roster),
        rounds: Some(0),
        ..untold()
    };
    let pairs = cluster_pairs(cluster, stress, roster, online, scenarios, shared, snapshot);
    lemma_last_flags(middle, online, scenarios, shared, snapshot);
    lemma_fold_split(first, last, untold());
    assert(pairs =~= first + last);
    lemma_read_flattened(pairs, untold());
}

} // verus!
