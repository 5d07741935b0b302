//! A node process's command line:
//!
//! ```text
//! node --name <name> --shared <dir> --stress <level> --rounds <n> --snapshot <path>
//!      [--interval-ms <ms>] [--online true|false] [--can receive,process]
//!      [--nodes <name[=capability],...>] [--scenarios <scenario,...>]
//! ```
//!
//! A node declares what it can do: `--can` says which stages of the message
//! path it serves, in lowercase exactly, and `--nodes` says the same for
//! every node of the cluster. Nothing is read out of a name. A word that is
//! no capability, and a name that is no scenario, is REFUSED with the words
//! there are; it is never dropped.

use vstd::prelude::*;

use crate::capability::{declared_stages, parsed, stage_words, Capability};
use crate::cluster_command::text_view;
use crate::number::{decimal, parse_whole, whole_number};
use crate::roster::{read_entries, roster_text, Entry, Roster};
use crate::scenario::{choice, chosen};
use crate::stress::{stress_name, stress_named, Stress};
use crate::switch::switch_word;
use crate::text::{chars_of, followed, join, spelled, string_views, words};

verus! {

/// A node's command line as read so far.
pub struct NodeTold {
    pub name: Option<Seq<char>>,
    pub shared: Option<Seq<char>>,
    pub stress: Option<Stress>,
    pub rounds: Option<u64>,
    pub snapshot: Option<Seq<char>>,
    pub interval_ms: u64,
    pub online: bool,
    pub can: Capability,
    pub roster: Seq<Entry>,
    pub scenarios: Seq<Seq<char>>,
}

/// Nothing read yet: offline, declaring nothing, told of no other node,
/// every scenario, a quarter second between rounds.
pub open spec fn node_untold() -> NodeTold {
    NodeTold {
        name: None,
        shared: None,
        stress: None,
        rounds: None,
        snapshot: None,
        interval_ms: 250,
        online: false,
        can: Capability { receive: false, process: false, send: false, online: false },
        roster: Seq::empty(),
        scenarios: Seq::empty(),
    }
}

/// A count as `flag` takes it, or the refusal saying so.
pub open spec fn count_read(flag: Seq<char>, value: Seq<char>) -> Result<u64, Seq<char>> {
    match whole_number(value, u64::MAX as nat) {
        Some(n) => Ok(n as u64),
        None => Err(flag + " wants a number, not "@ + value),
    }
}

/// What one `flag value` pair does to what was read so far.
pub open spec fn node_flag(told: NodeTold, flag: Seq<char>, value: Seq<char>) -> Result<
    NodeTold,
    Seq<char>,
> {
    if flag == "--name"@ {
        Ok(NodeTold { name: Some(value), ..told })
    } else if flag == "--shared"@ {
        Ok(NodeTold { shared: Some(value), ..told })
    } else if flag == "--stress"@ {
        match stress_named(value) {
            Some(stress) => Ok(NodeTold { stress: Some(stress), ..told }),
            None => Err("unknown stress "@ + value),
        }
    } else if flag == "--rounds"@ {
        match count_read(flag, value) {
            Ok(rounds) => Ok(NodeTold { rounds: Some(rounds), ..told }),
            Err(refusal) => Err(refusal),
        }
    } else if flag == "--snapshot"@ {
        Ok(NodeTold { snapshot: Some(value), ..told })
    } else if flag == "--interval-ms"@ {
        match count_read(flag, value) {
            Ok(interval_ms) => Ok(NodeTold { interval_ms, ..told }),
            Err(refusal) => Err(refusal),
        }
    } else if flag == "--online"@ {
        match switch_word(value) {
            Some(online) => Ok(NodeTold { online, ..told }),
            None => Err("--online wants true or false, not "@ + value),
        }
    } else if flag == "--can"@ {
        match parsed(value) {
            Ok(can) => Ok(NodeTold { can, ..told }),
            Err(refusal) => Err(refusal),
        }
    } else if flag == "--nodes"@ {
        match read_entries(words(value, ',')) {
            Ok(roster) => Ok(NodeTold { roster, ..told }),
            Err(refusal) => Err(refusal),
        }
    } else if flag == "--scenarios"@ {
        match choice(value) {
            Ok(scenarios) => Ok(NodeTold { scenarios, ..told }),
            Err(refusal) => Err(refusal),
        }
    } else {
        Err("unknown flag "@ + flag)
    }
}

/// The arguments read pair by pair from the front.
pub open spec fn node_read(args: Seq<Seq<char>>, told: NodeTold) -> Result<NodeTold, Seq<char>>
    decreases args.len(),
{
    if args.len() == 0 {
        Ok(told)
    } else if args.len() == 1 {
        Err(args[0] + " needs a value"@)
    } else {
        match node_flag(told, args[0], args[1]) {
            Ok(next) => node_read(args.subrange(2, args.len() as int), next),
            Err(refusal) => Err(refusal),
        }
    }
}

/// A node's command line once read whole, as plain values.
pub struct NodeArgumentsView {
    pub name: Seq<char>,
    pub shared: Seq<char>,
    pub stress: Stress,
    pub rounds: u64,
    pub snapshot: Seq<char>,
    pub interval_ms: u64,
    pub capability: Capability,
    pub roster: Seq<Entry>,
    pub scenarios: Seq<Seq<char>>,
}

/// The required flags checked over what was read, in the usage's order;
/// the node's declaration carries the online switch.
pub open spec fn node_arguments_of(told: NodeTold) -> Result<NodeArgumentsView, Seq<char>> {
    if told.name is None {
        Err("--name is required"@)
    } else if told.shared is None {
        Err("--shared is required"@)
    } else if told.stress is None {
        Err("--stress is required"@)
    } else if told.rounds is None {
        Err("--rounds is required"@)
    } else if told.snapshot is None {
        Err("--snapshot is required"@)
    } else {
        Ok(
            NodeArgumentsView {
                name: told.name->0,
                shared: told.shared->0,
                stress: told.stress->0,
                rounds: told.rounds->0,
                snapshot: told.snapshot->0,
                interval_ms: told.interval_ms,
                capability: Capability { online: told.online, ..told.can },
                roster: told.roster,
                scenarios: told.scenarios,
            },
        )
    }
}

/// What `parse` answers: the arguments, or the first refusal.
pub open spec fn node_arguments(args: Seq<Seq<char>>) -> Result<NodeArgumentsView, Seq<char>> {
    match node_read(args, node_untold()) {
        Err(refusal) => Err(refusal),
        Ok(told) => node_arguments_of(told),
    }
}

/// What a node's command line said.
pub struct NodeArguments {
    pub name: String,
    pub shared: String,
    pub stress: Stress,
    pub rounds: u64,
    pub snapshot: String,
    /// The pause between rounds, in milliseconds.
    pub interval_ms: u64,
    /// What this node declared it can do: the stages from `--can`, and from
    /// `--online` whether it may assume the internet.
    pub capability: Capability,
    /// Every node of the cluster and what each declared; empty when not
    /// told.
    pub roster: Roster,
    /// The scenarios to run this node's part of; empty means every one.
    pub scenarios: Vec<String>,
}

impl View for NodeArguments {
    type V = NodeArgumentsView;

    open spec fn view(&self) -> NodeArgumentsView {
        NodeArgumentsView {
            name: self.name@,
            shared: self.shared@,
            stress: self.stress,
            rounds: self.rounds,
            snapshot: self.snapshot@,
            interval_ms: self.interval_ms,
            capability: self.capability,
            roster: self.roster@,
            scenarios: string_views(self.scenarios@),
        }
    }
}

/// What has been read so far, as values.
struct Flags {
    name: Option<String>,
    shared: Option<String>,
    stress: Option<Stress>,
    rounds: Option<u64>,
    snapshot: Option<String>,
    interval_ms: u64,
    online: bool,
    can: Capability,
    roster: Roster,
    scenarios: Vec<String>,
}

impl Flags {
    spec fn told(&self) -> NodeTold {
        NodeTold {
            name: text_view(self.name),
            shared: text_view(self.shared),
            stress: self.stress,
            rounds: self.rounds,
            snapshot: text_view(self.snapshot),
            interval_ms: self.interval_ms,
            online: self.online,
            can: self.can,
            roster: self.roster@,
            scenarios: string_views(self.scenarios@),
        }
    }
}

/// A count as `flag` takes it, or a refusal saying so.
fn count(flag: &str, value: &str) -> (result: Result<u64, String>)
    ensures
        match (result, count_read(flag@, value@)) {
            (Ok(n), Ok(expected)) => n == expected,
            (Err(said), Err(expected)) => said@ == expected,
            _ => false,
        },
{
    let chars = chars_of(value);
    match parse_whole(chars.as_slice()) {
        Some(n) => Ok(n),
        None => {
            let mut said = followed(flag, " wants a number, not ");
            said.append(value);
            Err(said)
        },
    }
}

/// What one `flag value` pair does to what was read so far.
fn with_flag(flags: Flags, flag: &str, value: &str) -> (result: Result<Flags, String>)
    ensures
        match (result, node_flag(flags.told(), flag@, value@)) {
            (Ok(next), Ok(expected)) => next.told() == expected,
            (Err(said), Err(expected)) => said@ == expected,
            _ => false,
        },
{
    let mut flags = flags;
    if spelled(flag, "--name") {
        flags.name = Some(value.to_owned());
    } else if spelled(flag, "--shared") {
        flags.shared = Some(value.to_owned());
    } else if spelled(flag, "--stress") {
        match Stress::parse(value) {
            Some(stress) => flags.stress = Some(stress),
            None => return Err(followed("unknown stress ", value)),
        }
    } else if spelled(flag, "--rounds") {
        match count(flag, value) {
            Ok(rounds) => flags.rounds = Some(rounds),
            Err(refusal) => return Err(refusal),
        }
    } else if spelled(flag, "--snapshot") {
        flags.snapshot = Some(value.to_owned());
    } else if spelled(flag, "--interval-ms") {
        match count(flag, value) {
            Ok(interval_ms) => flags.interval_ms = interval_ms,
            Err(refusal) => return Err(refusal),
        }
    } else if spelled(flag, "--online") {
        match crate::switch::parse(value) {
            Some(online) => flags.online = online,
            None => return Err(followed("--online wants true or false, not ", value)),
        }
    } else if spelled(flag, "--can") {
        match Capability::parse(value) {
            Ok(can) => flags.can = can,
            Err(refusal) => return Err(refusal),
        }
    } else if spelled(flag, "--nodes") {
        match Roster::parse(value) {
            Ok(roster) => flags.roster = roster,
            Err(refusal) => return Err(refusal),
        }
    } else if spelled(flag, "--scenarios") {
        match chosen(Some(value)) {
            Ok(scenarios) => flags.scenarios = scenarios,
            Err(refusal) => return Err(refusal),
        }
    } else {
        return Err(followed("unknown flag ", flag));
    }
    Ok(flags)
}

/// The arguments once every flag was read: each required one present.
fn finish(flags: Flags) -> (result: Result<NodeArguments, String>)
    ensures
        match (result, node_arguments_of(flags.told())) {
            (Ok(arguments), Ok(expected)) => arguments@ == expected,
            (Err(said), Err(expected)) => said@ == expected,
            _ => false,
        },
{
    let Flags { name, shared, stress, rounds, snapshot, interval_ms, online, can, roster, scenarios } =
        flags;
    let name = match name {
        Some(name) => name,
        None => return Err("--name is required".to_owned()),
    };
    let shared = match shared {
        Some(shared) => shared,
        None => return Err("--shared is required".to_owned()),
    };
    let stress = match stress {
        Some(stress) => stress,
        None => return Err("--stress is required".to_owned()),
    };
    let rounds = match rounds {
        Some(rounds) => rounds,
        None => return Err("--rounds is required".to_owned()),
    };
    let snapshot = match snapshot {
        Some(snapshot) => snapshot,
        None => return Err("--snapshot is required".to_owned()),
    };
    let capability = can.with_online(online);
    Ok(NodeArguments { name, shared, stress, rounds, snapshot, interval_ms, capability, roster, scenarios })
}

/// A node's command line, `--flag value` pairs, every required flag present
/// and well formed. The first flag that has no value, is no flag, or has a
/// value that does not read is refused; then a required flag missing is.
pub fn parse(args: &[String]) -> (result: Result<NodeArguments, String>)
    ensures
        match (result, node_arguments(string_views(args@))) {
            (Ok(arguments), Ok(expected)) => arguments@ == expected,
            (Err(said), Err(expected)) => said@ == expected,
            _ => false,
        },
{
    let ghost all = string_views(args@);
    let mut flags = Flags {
        name: None,
        shared: None,
        stress: None,
        rounds: None,
        snapshot: None,
        interval_ms: 250,
        online: false,
        can: Capability::none(),
        roster: Roster::default(),
        scenarios: Vec::new(),
    };
    assert(flags.told() =~= node_untold()) by {
        assert(string_views(flags.scenarios@) =~= Seq::<Seq<char>>::empty());
    }
    assert(all.subrange(0, all.len() as int) == all);
    let mut i: usize = 0;
    while i < args.len()
        invariant
            i <= args@.len(),
            all == string_views(args@),
            node_read(all, node_untold()) == node_read(
                all.subrange(i as int, all.len() as int),
                flags.told(),
            ),
        decreases args@.len() - i,
    {
        let ghost rest = all.subrange(i as int, all.len() as int);
        if i + 1 >= args.len() {
            assert(rest.len() == 1 && rest[0] == args@[i as int]@);
            return Err(followed(args[i].as_str(), " needs a value"));
        }
        assert(rest[0] == args@[i as int]@ && rest[1] == args@[i as int + 1]@);
        assert(rest.subrange(2, rest.len() as int) == all.subrange(i as int + 2, all.len() as int));
        flags = match with_flag(flags, args[i].as_str(), args[i + 1].as_str()) {
            Ok(next) => next,
            Err(refusal) => return Err(refusal),
        };
        i = i + 2;
    }
    assert(all.subrange(i as int, all.len() as int) =~= Seq::<Seq<char>>::empty());
    finish(flags)
}


/// A flag and its value, as a command line carries them.
pub type Said = (Seq<char>, Seq<char>);

/// The flags and their values, one after another.
pub open spec fn flattened(pairs: Seq<Said>) -> Seq<Seq<char>>
    decreases pairs.len(),
{
    if pairs.len() == 0 {
        Seq::empty()
    } else {
        seq![pairs[0].0, pairs[0].1] + flattened(pairs.drop_first())
    }
}

/// The flags read one pair after another, from what was read so far.
pub open spec fn node_fold(pairs: Seq<Said>, told: NodeTold) -> Result<NodeTold, Seq<char>>
    decreases pairs.len(),
{
    if pairs.len() == 0 {
        Ok(told)
    } else {
        match node_flag(told, pairs[0].0, pairs[0].1) {
            Ok(next) => node_fold(pairs.drop_first(), next),
            Err(refusal) => Err(refusal),
        }
    }
}

/// Reading the flags written one after another is reading them pair by
/// pair.
proof fn lemma_read_flattened(pairs: Seq<Said>, told: NodeTold)
    ensures
        node_read(flattened(pairs), told) == node_fold(pairs, told),
    decreases pairs.len(),
{
    if pairs.len() > 0 {
        let all = flattened(pairs);
        assert(all[0] == pairs[0].0 && all[1] == pairs[0].1);
        assert(all.subrange(2, all.len() as int) == flattened(pairs.drop_first()));
        match node_flag(told, pairs[0].0, pairs[0].1) {
            Ok(next) => lemma_read_flattened(pairs.drop_first(), next),
            Err(_) => {},
        }
    }
}

/// Reading two runs of flags is reading the first, then the second.
proof fn lemma_fold_split(first: Seq<Said>, second: Seq<Said>, told: NodeTold)
    ensures
        node_fold(first + second, told) == match node_fold(first, told) {
            Ok(next) => node_fold(second, next),
            Err(refusal) => Err(refusal),
        },
    decreases first.len(),
{
    if first.len() == 0 {
        assert(first + second == second);
    } else {
        assert((first + second)[0] == first[0]);
        assert((first + second).drop_first() == first.drop_first() + second);
        match node_flag(told, first[0].0, first[0].1) {
            Ok(next) => lemma_fold_split(first.drop_first(), second, next),
            Err(_) => {},
        }
    }
}

/// Writing two runs of flags is writing the first, then the second.
proof fn lemma_flatten_split(first: Seq<Said>, second: Seq<Said>)
    ensures
        flattened(first + second) == flattened(first) + flattened(second),
    decreases first.len(),
{
    if first.len() == 0 {
        assert(first + second == second);
        assert(flattened(first) =~= Seq::<Seq<char>>::empty());
    } else {
        assert((first + second)[0] == first[0]);
        assert((first + second).drop_first() == first.drop_first() + second);
        lemma_flatten_split(first.drop_first(), second);
    }
}

/// One flag read on its own.
proof fn lemma_fold_one(said: Said, told: NodeTold)
    ensures
        node_fold(seq![said], told) == node_flag(told, said.0, said.1),
{
    assert(seq![said].drop_first() =~= Seq::<Said>::empty());
    assert(seq![said][0] == said);
    match node_flag(told, said.0, said.1) {
        Ok(next) => {
            assert(node_fold(Seq::<Said>::empty(), next) == Ok::<NodeTold, Seq<char>>(next));
        },
        Err(_) => {},
    }
}

/// One flag written on its own.
proof fn lemma_flatten_one(said: Said)
    ensures
        flattened(seq![said]) == seq![said.0, said.1],
{
    assert(seq![said].drop_first() =~= Seq::<Said>::empty());
    assert(seq![said][0] == said);
    assert(flattened(Seq::<Said>::empty()) =~= Seq::<Seq<char>>::empty());
    assert(seq![said.0, said.1] + Seq::<Seq<char>>::empty() =~= seq![said.0, said.1]);
}

/// How often a node ticks at a level, in milliseconds.
pub open spec fn interval_at(stress: Stress) -> u64 {
    match stress {
        Stress::Calm | Stress::Realistic => 250,
        Stress::Harsh => 1000,
        Stress::Brutal => 2000,
    }
}

/// The word the online switch is written with.
pub open spec fn online_word(online: bool) -> Seq<char> {
    if online {
        "true"@
    } else {
        "false"@
    }
}

/// The flags a cluster starts the node called `name` with, in order: its
/// name, the level, the rounds and the pace the level sets, every node of
/// the cluster with what each declared, the scenarios when any were named,
/// its own declaration and online switch, and where it shares and publishes.
pub open spec fn command_pairs(
    name: Seq<char>,
    stress: Stress,
    rounds: u64,
    roster: Seq<Entry>,
    scenarios: Seq<Seq<char>>,
    capability: Capability,
    shared: Seq<char>,
    snapshot: Seq<char>,
) -> Seq<Said> {
    seq![("--name"@, name)] + seq![("--stress"@, stress_name(stress))] + seq![
        ("--rounds"@, decimal(rounds as nat)),
    ] + seq![("--interval-ms"@, decimal(interval_at(stress) as nat))] + seq![
        ("--nodes"@, roster_text(roster)),
    ] + (if scenarios.len() > 0 {
        seq![("--scenarios"@, join(scenarios, ","@))]
    } else {
        Seq::empty()
    }) + seq![("--can"@, stage_words(declared_stages(capability), seq![',']))] + seq![
        ("--online"@, online_word(capability.online)),
    ] + seq![("--shared"@, shared)] + seq![("--snapshot"@, snapshot)]
}

/// `args` grown by one flag and its value.
pub(crate) fn push_pair(args: &mut Vec<String>, flag: &str, value: String, Ghost(pairs): Ghost<Seq<Said>>)
    requires
        string_views(old(args)@) == flattened(pairs),
    ensures
        string_views(final(args)@) == flattened(pairs + seq![(flag@, value@)]),
{
    let ghost before = old(args)@;
    let owned_flag = flag.to_owned();
    args.push(owned_flag);
    args.push(value);
    proof {
        lemma_flatten_split(pairs, seq![(flag@, value@)]);
        lemma_flatten_one((flag@, value@));
        assert(string_views(final(args)@) =~= string_views(before) + seq![flag@, value@]);
    }
}

/// The command line a cluster starts the node called `name` with: what the
/// orders say of it and of the cluster, passed on and nothing inferred —
/// the node's own declaration as `--can`, its switch as `--online`.
pub fn command_line(
    name: &str,
    stress: Stress,
    rounds: u64,
    roster: &Roster,
    scenarios: &[String],
    capability: Capability,
    shared: &str,
    snapshot: &str,
) -> (args: Vec<String>)
    ensures
        string_views(args@) == flattened(
            command_pairs(
                name@,
                stress,
                rounds,
                roster@,
                string_views(scenarios@),
                capability,
                shared@,
                snapshot@,
            ),
        ),
{
    let mut args: Vec<String> = Vec::new();
    let ghost mut pairs = Seq::<Said>::empty();
    assert(string_views(args@) =~= flattened(pairs));
    push_pair(&mut args, "--name", name.to_owned(), Ghost(pairs));
    proof {
        pairs = pairs + seq![("--name"@, name@)];
    }
    push_pair(&mut args, "--stress", stress.name().to_owned(), Ghost(pairs));
    proof {
        pairs = pairs + seq![("--stress"@, stress_name(stress))];
    }
    let mut rounds_said = String::new();
    crate::number::append_decimal(&mut rounds_said, rounds);
    assert(rounds_said@ =~= decimal(rounds as nat));
    push_pair(&mut args, "--rounds", rounds_said, Ghost(pairs));
    proof {
        pairs = pairs + seq![("--rounds"@, decimal(rounds as nat))];
    }
    let mut interval_said = String::new();
    crate::number::append_decimal(&mut interval_said, stress.node_interval_ms());
    assert(interval_said@ =~= decimal(interval_at(stress) as nat));
    push_pair(&mut args, "--interval-ms", interval_said, Ghost(pairs));
    proof {
        pairs = pairs + seq![("--interval-ms"@, decimal(interval_at(stress) as nat))];
    }
    push_pair(&mut args, "--nodes", roster.text(), Ghost(pairs));
    proof {
        pairs = pairs + seq![("--nodes"@, roster_text(roster@))];
    }
    if scenarios.len() > 0 {
        let mut listed = String::new();
        crate::text::append_joined(&mut listed, scenarios, ",");
        assert(listed@ =~= join(string_views(scenarios@), ","@));
        push_pair(&mut args, "--scenarios", listed, Ghost(pairs));
        proof {
            pairs = pairs + seq![("--scenarios"@, join(string_views(scenarios@), ","@))];
        }
    } else {
        proof {
            assert(pairs + Seq::<Said>::empty() =~= pairs);
        }
    }
    push_pair(&mut args, "--can", capability.words(), Ghost(pairs));
    proof {
        pairs = pairs + seq![("--can"@, stage_words(declared_stages(capability), seq![',']))];
    }
    let online = if capability.is_online() { "true" } else { "false" };
    push_pair(&mut args, "--online", online.to_owned(), Ghost(pairs));
    proof {
        pairs = pairs + seq![("--online"@, online_word(capability.online))];
    }
    push_pair(&mut args, "--shared", shared.to_owned(), Ghost(pairs));
    proof {
        pairs = pairs + seq![("--shared"@, shared@)];
    }
    push_pair(&mut args, "--snapshot", snapshot.to_owned(), Ghost(pairs));
    proof {
        pairs = pairs + seq![("--snapshot"@, snapshot@)];
        let expected = command_pairs(
            name@,
            stress,
            rounds,
            roster@,
            string_views(scenarios@),
            capability,
            shared@,
            snapshot@,
        );
        assert(pairs =~= expected);
    }
    args
}


/// One more flag read after a run of flags that read.
proof fn lemma_step(before: Seq<Said>, said: Said, start: NodeTold, so_far: NodeTold, next: NodeTold)
    requires
        node_fold(before, start) == Ok::<NodeTold, Seq<char>>(so_far),
        node_flag(so_far, said.0, said.1) == Ok::<NodeTold, Seq<char>>(next),
    ensures
        node_fold(before + seq![said], start) == Ok::<NodeTold, Seq<char>>(next),
{
    lemma_fold_split(before, seq![said], start);
    lemma_fold_one(said, so_far);
}

/// The flags a node takes are different words, even those of one length.
pub(crate) proof fn lemma_flags_differ()
    ensures
        "--stress"@ != "--shared"@,
        "--rounds"@ != "--shared"@,
        "--rounds"@ != "--stress"@,
        "--online"@ != "--shared"@,
        "--online"@ != "--stress"@,
        "--online"@ != "--rounds"@,
{
    reveal_strlit("--shared");
    reveal_strlit("--stress");
    reveal_strlit("--rounds");
    reveal_strlit("--online");
    assert("--stress"@[3] != "--shared"@[3]);
    assert("--rounds"@[2] != "--shared"@[2]);
    assert("--rounds"@[2] != "--stress"@[2]);
    assert("--online"@[2] != "--shared"@[2]);
    assert("--online"@[2] != "--stress"@[2]);
    assert("--online"@[2] != "--rounds"@[2]);
}

/// `--name` reads as the name.
proof fn lemma_name_flag(told: NodeTold, name: Seq<char>)
    ensures
        node_flag(told, "--name"@, name) == Ok::<NodeTold, Seq<char>>(
            NodeTold { name: Some(name), ..told },
        ),
{
}

/// `--stress` reads a level's name as the level.
proof fn lemma_stress_flag(told: NodeTold, stress: Stress)
    ensures
        node_flag(told, "--stress"@, stress_name(stress)) == Ok::<NodeTold, Seq<char>>(
            NodeTold { stress: Some(stress), ..told },
        ),
{
    lemma_flags_differ();
    reveal_strlit("--name");
    reveal_strlit("--shared");
    reveal_strlit("--stress");
    crate::stress::lemma_stress_reads_back(stress);
    assert("--stress"@ != "--name"@);
    assert("--stress"@ != "--shared"@);
    assert(stress_named(stress_name(stress)) == Some(stress));
}

/// `--rounds` reads a number written in decimal as that number.
proof fn lemma_rounds_flag(told: NodeTold, rounds: u64)
    ensures
        node_flag(told, "--rounds"@, decimal(rounds as nat)) == Ok::<NodeTold, Seq<char>>(
            NodeTold { rounds: Some(rounds), ..told },
        ),
{
    lemma_flags_differ();
    reveal_strlit("--name");
    reveal_strlit("--shared");
    reveal_strlit("--stress");
    reveal_strlit("--rounds");
    assert("--rounds"@.len() == 8);
    assert("--rounds"@ != "--name"@);
    assert("--rounds"@ != "--shared"@);
    assert("--rounds"@ != "--stress"@);
    crate::number::lemma_decimal_reads_back(rounds as nat, u64::MAX as nat);
    assert(count_read("--rounds"@, decimal(rounds as nat)) == Ok::<u64, Seq<char>>(rounds));
}

/// `--interval-ms` reads a number written in decimal as that number.
proof fn lemma_interval_flag(told: NodeTold, ms: u64)
    ensures
        node_flag(told, "--interval-ms"@, decimal(ms as nat)) == Ok::<NodeTold, Seq<char>>(
            NodeTold { interval_ms: ms, ..told },
        ),
{
    lemma_flags_differ();
    reveal_strlit("--name");
    reveal_strlit("--shared");
    reveal_strlit("--stress");
    reveal_strlit("--rounds");
    reveal_strlit("--snapshot");
    reveal_strlit("--interval-ms");
    assert("--interval-ms"@.len() == 13);
    assert("--interval-ms"@ != "--name"@);
    assert("--interval-ms"@ != "--shared"@);
    assert("--interval-ms"@ != "--stress"@);
    assert("--interval-ms"@ != "--rounds"@);
    assert("--interval-ms"@ != "--snapshot"@);
    crate::number::lemma_decimal_reads_back(ms as nat, u64::MAX as nat);
    assert(count_read("--interval-ms"@, decimal(ms as nat)) == Ok::<u64, Seq<char>>(ms));
}

/// `--nodes` reads a roster's text as the roster, when its names are plain
/// and its nodes offline.
proof fn lemma_nodes_flag(told: NodeTold, roster: Seq<Entry>)
    requires
        forall|i: int|
            0 <= i < roster.len() ==> crate::roster::plain_name(#[trigger] roster[i].0)
                && !roster[i].1.online,
    ensures
        node_flag(told, "--nodes"@, roster_text(roster)) == Ok::<NodeTold, Seq<char>>(
            NodeTold { roster, ..told },
        ),
{
    lemma_flags_differ();
    reveal_strlit("--name");
    reveal_strlit("--shared");
    reveal_strlit("--stress");
    reveal_strlit("--rounds");
    reveal_strlit("--snapshot");
    reveal_strlit("--interval-ms");
    reveal_strlit("--online");
    reveal_strlit("--can");
    reveal_strlit("--nodes");
    crate::roster::lemma_roster_reads_back(roster);
}

/// `--scenarios` reads scenarios joined by commas as those scenarios.
proof fn lemma_scenarios_flag(told: NodeTold, scenarios: Seq<Seq<char>>)
    requires
        forall|i: int|
            0 <= i < scenarios.len() ==> crate::scenario::scenario_names().contains(
                #[trigger] scenarios[i],
            ),
    ensures
        node_flag(told, "--scenarios"@, join(scenarios, ","@)) == Ok::<NodeTold, Seq<char>>(
            NodeTold { scenarios, ..told },
        ),
{
    lemma_flags_differ();
    reveal_strlit("--name");
    reveal_strlit("--shared");
    reveal_strlit("--stress");
    reveal_strlit("--rounds");
    reveal_strlit("--snapshot");
    reveal_strlit("--interval-ms");
    reveal_strlit("--online");
    reveal_strlit("--can");
    reveal_strlit("--nodes");
    reveal_strlit("--scenarios");
    crate::scenario::lemma_scenarios_read_back(scenarios);
}

/// `--can` reads a declaration's words as the declaration, offline.
proof fn lemma_can_flag(told: NodeTold, capability: Capability)
    ensures
        node_flag(told, "--can"@, stage_words(declared_stages(capability), seq![',']))
            == Ok::<NodeTold, Seq<char>>(
            NodeTold { can: Capability { online: false, ..capability }, ..told },
        ),
{
    lemma_flags_differ();
    reveal_strlit("--name");
    reveal_strlit("--shared");
    reveal_strlit("--stress");
    reveal_strlit("--rounds");
    reveal_strlit("--snapshot");
    reveal_strlit("--interval-ms");
    reveal_strlit("--online");
    reveal_strlit("--can");
    crate::capability::lemma_declaration_reads_back(capability, ',');
}

/// `--online` reads its word as the switch.
proof fn lemma_online_flag(told: NodeTold, online: bool)
    ensures
        node_flag(told, "--online"@, online_word(online)) == Ok::<NodeTold, Seq<char>>(
            NodeTold { online, ..told },
        ),
{
    lemma_flags_differ();
    reveal_strlit("--name");
    reveal_strlit("--shared");
    reveal_strlit("--stress");
    reveal_strlit("--rounds");
    reveal_strlit("--snapshot");
    reveal_strlit("--interval-ms");
    reveal_strlit("--online");
    crate::switch::lemma_switch_reads_back();
}

/// `--shared` and `--snapshot` read their values as they are.
proof fn lemma_place_flags(told: NodeTold, place: Seq<char>)
    ensures
        node_flag(told, "--shared"@, place) == Ok::<NodeTold, Seq<char>>(
            NodeTold { shared: Some(place), ..told },
        ),
        node_flag(told, "--snapshot"@, place) == Ok::<NodeTold, Seq<char>>(
            NodeTold { snapshot: Some(place), ..told },
        ),
{
    lemma_flags_differ();
    reveal_strlit("--name");
    reveal_strlit("--shared");
    reveal_strlit("--stress");
    reveal_strlit("--rounds");
    reveal_strlit("--snapshot");
    assert("--shared"@.len() == 8);
    assert("--snapshot"@.len() == 10);
    assert("--shared"@ != "--name"@);
    assert("--snapshot"@ != "--name"@);
    assert("--snapshot"@ != "--shared"@);
    assert("--snapshot"@ != "--stress"@);
    assert("--snapshot"@ != "--rounds"@);
}

/// The flags a cluster starts a node with, up to the roster, read one after
/// another.
#[verifier::spinoff_prover]
proof fn lemma_first_flags(
    name: Seq<char>,
    stress: Stress,
    rounds: u64,
    roster: Seq<Entry>,
)
    requires
        forall|i: int|
            0 <= i < roster.len() ==> crate::roster::plain_name(#[trigger] roster[i].0)
                && !roster[i].1.online,
    ensures
        node_fold(
            seq![("--name"@, name)] + seq![("--stress"@, stress_name(stress))] + seq![
                ("--rounds"@, decimal(rounds as nat)),
            ] + seq![("--interval-ms"@, decimal(interval_at(stress) as nat))] + seq![
                ("--nodes"@, roster_text(roster)),
            ],
            node_untold(),
        ) == Ok::<NodeTold, Seq<char>>(
            NodeTold {
                name: Some(name),
                stress: Some(stress),
                rounds: Some(rounds),
                interval_ms: interval_at(stress),
                roster,
                ..node_untold()
            },
        ),
{
    let early = NodeTold {
        name: Some(name),
        stress: Some(stress),
        rounds: Some(rounds),
        interval_ms: interval_at(stress),
        ..node_untold()
    };
    lemma_nodes_flag(early, roster);
    let s1 = seq![("--name"@, name)];
    let p2 = ("--stress"@, stress_name(stress));
    let p3 = ("--rounds"@, decimal(rounds as nat));
    let p4 = ("--interval-ms"@, decimal(interval_at(stress) as nat));
    let p5 = ("--nodes"@, roster_text(roster));
    let t0 = node_untold();
    let t1 = NodeTold { name: Some(name), ..t0 };
    let t2 = NodeTold { stress: Some(stress), ..t1 };
    let t3 = NodeTold { rounds: Some(rounds), ..t2 };
    let t4 = NodeTold { interval_ms: interval_at(stress), ..t3 };
    let t5 = NodeTold { roster, ..t4 };
    assert(node_fold(s1, t0) == Ok::<NodeTold, Seq<char>>(t1)) by {
        lemma_name_flag(t0, name);
        lemma_fold_one(s1[0], t0);
    }
    let x2 = s1 + seq![p2];
    assert(node_fold(x2, t0) == Ok::<NodeTold, Seq<char>>(t2)) by {
        lemma_stress_flag(t1, stress);
        lemma_step(s1, p2, t0, t1, t2);
    }
    let x3 = x2 + seq![p3];
    assert(node_fold(x3, t0) == Ok::<NodeTold, Seq<char>>(t3)) by {
        lemma_rounds_flag(t2, rounds);
        lemma_step(x2, p3, t0, t2, t3);
    }
    let x4 = x3 + seq![p4];
    assert(node_fold(x4, t0) == Ok::<NodeTold, Seq<char>>(t4)) by {
        lemma_interval_flag(t3, interval_at(stress));
        lemma_step(x3, p4, t0, t3, t4);
    }
    assert(t4 == early);
    lemma_step(x4, p5, t0, t4, t5);
}

/// The flags a cluster starts a node with, from the scenarios on, read one
/// after another from what the first ones left.
proof fn lemma_last_flags(
    told: NodeTold,
    scenarios: Seq<Seq<char>>,
    capability: Capability,
    shared: Seq<char>,
    snapshot: Seq<char>,
)
    requires
        told.scenarios == Seq::<Seq<char>>::empty(),
        forall|i: int|
            0 <= i < scenarios.len() ==> crate::scenario::scenario_names().contains(
                #[trigger] scenarios[i],
            ),
    ensures
        node_fold(
            (if scenarios.len() > 0 {
                seq![("--scenarios"@, join(scenarios, ","@))]
            } else {
                Seq::<Said>::empty()
            }) + seq![("--can"@, stage_words(declared_stages(capability), seq![',']))] + seq![
                ("--online"@, online_word(capability.online)),
            ] + seq![("--shared"@, shared)] + seq![("--snapshot"@, snapshot)],
            told,
        ) == Ok::<NodeTold, Seq<char>>(
            NodeTold {
                scenarios,
                can: Capability { online: false, ..capability },
                online: capability.online,
                shared: Some(shared),
                snapshot: Some(snapshot),
                ..told
            },
        ),
{
    let sc = if scenarios.len() > 0 {
        seq![("--scenarios"@, join(scenarios, ","@))]
    } else {
        Seq::<Said>::empty()
    };
    let p6 = ("--can"@, stage_words(declared_stages(capability), seq![',']));
    let p7 = ("--online"@, online_word(capability.online));
    let p8 = ("--shared"@, shared);
    let p9 = ("--snapshot"@, snapshot);
    let t6 = NodeTold { scenarios, ..told };
    let t7 = NodeTold { can: Capability { online: false, ..capability }, ..t6 };
    let t8 = NodeTold { online: capability.online, ..t7 };
    let t9 = NodeTold { shared: Some(shared), ..t8 };
    let t10 = NodeTold { snapshot: Some(snapshot), ..t9 };
    assert(node_fold(sc, told) == Ok::<NodeTold, Seq<char>>(t6)) by {
        if scenarios.len() > 0 {
            lemma_scenarios_flag(told, scenarios);
            lemma_fold_one(sc[0], told);
        } else {
            assert(scenarios =~= Seq::<Seq<char>>::empty());
            assert(t6 == told);
        }
    }
    let x6 = sc + seq![p6];
    assert(node_fold(x6, told) == Ok::<NodeTold, Seq<char>>(t7)) by {
        lemma_can_flag(t6, capability);
        lemma_step(sc, p6, told, t6, t7);
    }
    let x7 = x6 + seq![p7];
    assert(node_fold(x7, told) == Ok::<NodeTold, Seq<char>>(t8)) by {
        lemma_online_flag(t7, capability.online);
        lemma_step(x6, p7, told, t7, t8);
    }
    let x8 = x7 + seq![p8];
    assert(node_fold(x8, told) == Ok::<NodeTold, Seq<char>>(t9)) by {
        lemma_place_flags(t8, shared);
        lemma_step(x7, p8, told, t8, t9);
    }
    lemma_place_flags(t9, snapshot);
    lemma_step(x8, p9, told, t9, t10);
}

/// What a cluster starts a node with, the node reads back as exactly what it
/// was told: its name, the level, the rounds, the pace the level sets, every
/// node of the cluster with what each declared, the scenarios named, its own
/// declaration with its online switch, and where it shares and publishes.
/// Nothing is lost on the way and nothing inferred. This holds of a roster
/// whose names are plain and whose nodes are offline — the roster's text
/// carries no online switch; a node's own comes as `--online` — and of
/// scenarios that are scenarios.
#[verifier::spinoff_prover]
pub proof fn lemma_node_reads_its_command_line(
    name: Seq<char>,
    stress: Stress,
    rounds: u64,
    roster: Seq<Entry>,
    scenarios: Seq<Seq<char>>,
    capability: Capability,
    shared: Seq<char>,
    snapshot: Seq<char>,
)
    requires
        forall|i: int|
            0 <= i < roster.len() ==> crate::roster::plain_name(#[trigger] roster[i].0)
                && !roster[i].1.online,
        forall|i: int|
            0 <= i < scenarios.len() ==> crate::scenario::scenario_names().contains(
                #[trigger] scenarios[i],
            ),
    ensures
        node_arguments(
            flattened(
                command_pairs(name, stress, rounds, roster, scenarios, capability, shared, snapshot),
            ),
        ) == Ok::<NodeArgumentsView, Seq<char>>(
            NodeArgumentsView {
                name,
                shared,
                stress,
                rounds,
                snapshot,
                interval_ms: interval_at(stress),
                capability,
                roster,
                scenarios,
            },
        ),
{
    let first = seq![("--name"@, name)] + seq![("--stress"@, stress_name(stress))] + seq![
        ("--rounds"@, decimal(rounds as nat)),
    ] + seq![("--interval-ms"@, decimal(interval_at(stress) as nat))] + seq![
        ("--nodes"@, roster_text(roster)),
    ];
    let last = (if scenarios.len() > 0 {
        seq![("--scenarios"@, join(scenarios, ","@))]
    } else {
        Seq::<Said>::empty()
    }) + seq![("--can"@, stage_words(declared_stages(capability), seq![',']))] + seq![
        ("--online"@, online_word(capability.online)),
    ] + seq![("--shared"@, shared)] + seq![("--snapshot"@, snapshot)];
    let middle = NodeTold {
        name: Some(name),
        stress: Some(stress),
        rounds: Some(rounds),
        interval_ms: interval_at(stress),
        roster,
        ..node_untold()
    };
    let pairs = command_pairs(name, stress, rounds, roster, scenarios, capability, shared, snapshot);
    lemma_first_flags(name, stress, rounds, roster);
    lemma_last_flags(middle, scenarios, capability, shared, snapshot);
    lemma_fold_split(first, last, node_untold());
    assert(pairs =~= first + last);
    lemma_read_flattened(pairs, node_untold());
    assert(Capability { online: capability.online, ..Capability { online: false, ..capability } }
        == capability);
}

} // verus!
