//! Every node of a cluster and the capability each declared: the roster.
//!
//! Which node serves which stage comes from what the node **declared**,
//! never from what it is called. A node that declares no stage runs whole
//! tests itself. The roster is the same list in the roll, in the cluster and
//! in every node, so each decides alone and all agree: which pairs of the
//! matrix a receiving node takes (its index modulo the count of nodes that
//! can receive), and which node a pair is handed to next (a stable hash of
//! the stage and the pair over the nodes that declared it).
//!
//! A roster is written as the `--nodes` flag takes it: `name`, or
//! `name=capability`, or `name=capability+capability`, comma separated.

use vstd::prelude::*;

use crate::capability::{
    declared_stages, entry_declaration, entry_name, entry_of, serves, stage_words, Capability,
};
use crate::pick::{hash_path, path_key};
use crate::role::{picked_by, position_takes, str_views, takes};
use crate::stage::{stage_name, Stage};
use crate::switch::{is_named, names_one};
use crate::text::{
    append_joined, chars_of, equal_ignoring_case, is_space, join, same_ignoring_case, string_of,
    string_views, trim, trim_end, trim_start, words, words_of,
};

verus! {

/// One node and what it declared, as plain values.
pub type Entry = (Seq<char>, Capability);

/// Every node's name, in order.
pub open spec fn entry_names(entries: Seq<Entry>) -> Seq<Seq<char>> {
    entries.map_values(|entry: Entry| entry.0)
}

/// The nodes that declared `stage`, in order.
pub open spec fn serving(entries: Seq<Entry>, stage: Stage) -> Seq<Seq<char>>
    decreases entries.len(),
{
    if entries.len() == 0 {
        Seq::empty()
    } else {
        let before = serving(entries.drop_last(), stage);
        if serves(entries.last().1, stage) {
            before.push(entries.last().0)
        } else {
            before
        }
    }
}

/// Whether the node at `at` is the first called `name`, whatever the case.
pub open spec fn first_called(entries: Seq<Entry>, name: Seq<char>, at: int) -> bool {
    &&& 0 <= at < entries.len()
    &&& same_ignoring_case(entries[at].0, name)
    &&& forall|j: int| 0 <= j < at ==> !same_ignoring_case(#[trigger] entries[j].0, name)
}

/// Whether some node is called `name`, whatever the case.
pub open spec fn calls(entries: Seq<Entry>, name: Seq<char>) -> bool {
    exists|at: int| first_called(entries, name, at)
}

/// Where the first node called `name` stands.
pub open spec fn place_of(entries: Seq<Entry>, name: Seq<char>) -> int {
    choose|at: int| first_called(entries, name, at)
}

/// A node that declares nothing and is offline.
pub open spec fn nothing() -> Capability {
    Capability { receive: false, process: false, send: false, online: false }
}

/// What the node called `name` declared; nothing when it is no node here.
pub open spec fn capability_in(entries: Seq<Entry>, name: Seq<char>) -> Capability {
    if calls(entries, name) {
        entries[place_of(entries, name)].1
    } else {
        nothing()
    }
}

/// The roster with `name`'s declaration replaced, or `name` added last.
pub open spec fn redeclared(entries: Seq<Entry>, name: Seq<char>, capability: Capability) -> Seq<
    Entry,
> {
    if calls(entries, name) {
        let at = place_of(entries, name);
        entries.update(at, (entries[at].0, capability))
    } else {
        entries.push((name, capability))
    }
}

/// What `Roster::parse` reads from its entries: every entry in order, or the
/// first refusal.
pub open spec fn read_entries(said: Seq<Seq<char>>) -> Result<Seq<Entry>, Seq<char>>
    decreases said.len(),
{
    if said.len() == 0 {
        Ok(Seq::empty())
    } else {
        match read_entries(said.drop_last()) {
            Err(refusal) => Err(refusal),
            Ok(before) => match entry_declaration(said.last()) {
                Err(refusal) => Err(refusal),
                Ok(capability) => Ok(before.push((entry_name(said.last()), capability))),
            },
        }
    }
}

/// The stages of the message path nobody declared, by name, in order.
pub open spec fn undeclared(entries: Seq<Entry>) -> Seq<Seq<char>> {
    (if serving(entries, Stage::Receive).len() == 0 {
        seq![stage_name(Stage::Receive)]
    } else {
        Seq::empty()
    }) + (if serving(entries, Stage::Process).len() == 0 {
        seq![stage_name(Stage::Process)]
    } else {
        Seq::empty()
    }) + (if serving(entries, Stage::Send).len() == 0 {
        seq![stage_name(Stage::Send)]
    } else {
        Seq::empty()
    })
}

/// Whether some node declared a stage of the message path.
pub open spec fn any_stage(entries: Seq<Entry>) -> bool {
    exists|i: int| 0 <= i < entries.len() && declares_any(#[trigger] entries[i].1)
}

/// Whether a declaration serves any stage of the message path.
pub open spec fn declares_any(capability: Capability) -> bool {
    capability.receive || capability.process || capability.send
}

/// What `Roster::refusal` answers.
pub open spec fn stage_refusal(entries: Seq<Entry>) -> Option<Seq<char>> {
    if !any_stage(entries) || undeclared(entries).len() == 0 {
        None
    } else {
        Some(
            "REFUSED. RoundTrip across nodes needs the receive, process and send capability declared; no node declares "@
                + join(undeclared(entries), " or "@) + "."@,
        )
    }
}

/// The names a declaration speaks of that are no node of `names`.
pub open spec fn strangers(said: Seq<Seq<char>>, names: Seq<Seq<char>>) -> Seq<Seq<char>>
    decreases said.len(),
{
    if said.len() == 0 {
        Seq::empty()
    } else {
        let before = strangers(said.drop_last(), names);
        if names_one(names, said.last()) {
            before
        } else {
            before.push(said.last())
        }
    }
}

/// What `Roster::declaring` answers once the declaration read as `said`.
pub open spec fn declaring_spec(names: Seq<Seq<char>>, said: Seq<Entry>) -> Result<
    Seq<Entry>,
    Seq<char>,
> {
    let unknown = strangers(entry_names(said), names);
    if unknown.len() > 0 {
        Err(
            "REFUSED: a capability was given to "@ + join(unknown, ", "@)
                + ", which is no node of this cluster; the nodes are "@ + join(names, ", "@)
                + "."@,
        )
    } else {
        Ok(names.map_values(|name: Seq<char>| (name, capability_in(said, name))))
    }
}

/// The roster as `--nodes` takes it back.
pub open spec fn roster_text(entries: Seq<Entry>) -> Seq<char> {
    join(entries.map_values(|entry: Entry| entry_of(entry.1, entry.0)), ","@)
}

/// Every node of a cluster, in the order they were named, with what each
/// declared it can do.
#[derive(Clone, Debug)]
pub struct Roster {
    nodes: Vec<(String, Capability)>,
}

/// The plain values of a list of entries.
pub open spec fn entry_views(nodes: Seq<(String, Capability)>) -> Seq<Entry> {
    nodes.map_values(|node: (String, Capability)| (node.0@, node.1))
}

impl View for Roster {
    type V = Seq<Entry>;

    closed spec fn view(&self) -> Seq<Entry> {
        entry_views(self.nodes@)
    }
}

impl Default for Roster {
    fn default() -> (roster: Self)
        ensures
            roster@ == Seq::<Entry>::empty(),
    {
        let roster = Roster { nodes: Vec::new() };
        assert(roster@ =~= Seq::<Entry>::empty());
        roster
    }
}

impl Roster {
    /// The roster holding exactly these nodes, in this order.
    pub(crate) fn listing(nodes: Vec<(String, Capability)>) -> (roster: Self)
        ensures
            roster@ == entry_views(nodes@),
    {
        Roster { nodes }
    }

    /// The roster of the nodes named, none of them declaring a stage.
    pub fn of(names: &[String]) -> (roster: Self)
        ensures
            roster@ == string_views(names@).map_values(|name: Seq<char>| (name, nothing())),
    {
        let ghost expected = string_views(names@).map_values(|name: Seq<char>| (name, nothing()));
        let mut nodes: Vec<(String, Capability)> = Vec::new();
        let mut i: usize = 0;
        while i < names.len()
            invariant
                i <= names@.len(),
                expected == string_views(names@).map_values(|name: Seq<char>| (name, nothing())),
                entry_views(nodes@) == expected.take(i as int),
            decreases names@.len() - i,
        {
            let one = (names[i].clone(), Capability::none());
            proof {
                assert(entry_views(nodes@.push(one)) == entry_views(nodes@).push((one.0@, one.1)));
                assert(expected.take(i as int + 1) == expected.take(i as int).push(expected[i as int]));
            }
            nodes.push(one);
            i = i + 1;
        }
        assert(expected.take(names@.len() as int) == expected);
        Roster { nodes }
    }

    /// The roster a `--nodes` value says: `name[=capability[+capability]]`,
    /// comma separated, empty entries skipped. The first word that is no
    /// capability is refused, as `Capability::parse` refuses it.
    pub fn parse(raw: &str) -> (result: Result<Self, String>)
        ensures
            match (result, read_entries(words(raw@, ','))) {
                (Ok(roster), Ok(expected)) => roster@ == expected,
                (Err(said), Err(expected)) => said@ == expected,
                _ => false,
            },
    {
        let chars = chars_of(raw);
        let entries = words_of(chars.as_slice(), ',');
        let ghost said = crate::text::char_views(entries@);
        let mut nodes: Vec<(String, Capability)> = Vec::new();
        assert(said.take(0) =~= Seq::<Seq<char>>::empty());
        assert(entry_views(nodes@) =~= Seq::<Entry>::empty());
        let mut i: usize = 0;
        while i < entries.len()
            invariant
                i <= entries@.len(),
                said == crate::text::char_views(entries@),
                said == words(raw@, ','),
                read_entries(said.take(i as int)) == Ok::<Seq<Entry>, Seq<char>>(
                    entry_views(nodes@),
                ),
            decreases entries@.len() - i,
        {
            let entry = string_of(entries[i].as_slice());
            proof {
                assert(said.take(i as int + 1).drop_last() == said.take(i as int));
                assert(said.take(i as int + 1).last() == entry@);
            }
            let (name, declared) = Capability::from_entry(entry.as_str());
            match declared {
                Ok(capability) => {
                    proof {
                        assert(entry_views(nodes@.push((name, capability))) == entry_views(
                            nodes@,
                        ).push((name@, capability)));
                    }
                    nodes.push((name, capability));
                },
                Err(refusal) => {
                    proof {
                        lemma_refusal_stays(said, i as int + 1);
                    }
                    return Err(refusal);
                },
            }
            i = i + 1;
        }
        assert(said.take(entries@.len() as int) == said);
        Ok(Roster { nodes })
    }

    /// The nodes named, each declaring what `declared` gives it — the same
    /// `name=capability` list, from which a node it does not name declares
    /// nothing. Refused when a word is no capability, or when `declared`
    /// names a node that is no node of the cluster.
    pub fn declaring(names: &[String], declared: &str) -> (result: Result<Self, String>)
        ensures
            match (result, read_entries(words(declared@, ','))) {
                (Err(said), Err(expected)) => said@ == expected,
                (_, Ok(read)) => match (result, declaring_spec(string_views(names@), read)) {
                    (Ok(roster), Ok(expected)) => roster@ == expected,
                    (Err(said), Err(expected)) => said@ == expected,
                    _ => false,
                },
                _ => false,
            },
    {
        let said = match Roster::parse(declared) {
            Ok(said) => said,
            Err(refusal) => return Err(refusal),
        };
        let ghost read = said@;
        let ghost all = string_views(names@);
        let ghost said_names = entry_names(read);
        let mut unknown: Vec<String> = Vec::new();
        let mut i: usize = 0;
        while i < said.nodes.len()
            invariant
                i <= said.nodes@.len(),
                read == said@,
                read == entry_views(said.nodes@),
                all == string_views(names@),
                said_names == entry_names(read),
                string_views(unknown@) == strangers(said_names.take(i as int), all),
            decreases said.nodes@.len() - i,
        {
            proof {
                assert(said_names.take(i as int + 1).drop_last() == said_names.take(i as int));
                assert(said_names.take(i as int + 1).last() == said.nodes@[i as int].0@);
            }
            if !is_named(names, said.nodes[i].0.as_str()) {
                let one = said.nodes[i].0.clone();
                proof {
                    assert(string_views(unknown@.push(one)) == string_views(unknown@).push(one@));
                }
                unknown.push(one);
            }
            i = i + 1;
        }
        assert(said_names.take(said.nodes@.len() as int) == said_names);
        if unknown.len() > 0 {
            let mut refusal = String::new();
            refusal.append("REFUSED: a capability was given to ");
            append_joined(&mut refusal, &unknown, ", ");
            refusal.append(", which is no node of this cluster; the nodes are ");
            let listed = crate::role::copied(names);
            append_joined(&mut refusal, &listed, ", ");
            refusal.append(".");
            return Err(refusal);
        }
        let ghost expected = all.map_values(|name: Seq<char>| (name, capability_in(read, name)));
        let mut nodes: Vec<(String, Capability)> = Vec::new();
        let mut j: usize = 0;
        while j < names.len()
            invariant
                j <= names@.len(),
                read == said@,
                all == string_views(names@),
                expected == all.map_values(|name: Seq<char>| (name, capability_in(read, name))),
                entry_views(nodes@) == expected.take(j as int),
            decreases names@.len() - j,
        {
            let one = (names[j].clone(), said.capability(names[j].as_str()));
            proof {
                assert(entry_views(nodes@.push(one)) == entry_views(nodes@).push((one.0@, one.1)));
                assert(expected.take(j as int + 1) == expected.take(j as int).push(expected[j as int]));
            }
            nodes.push(one);
            j = j + 1;
        }
        assert(expected.take(names@.len() as int) == expected);
        Ok(Roster { nodes })
    }

    /// The roster as `--nodes` takes it back: each node's entry, comma
    /// separated.
    pub fn text(&self) -> (text: String)
        ensures
            text@ == roster_text(self@),
    {
        let ghost entries = self@.map_values(|entry: Entry| entry_of(entry.1, entry.0));
        let mut said: Vec<String> = Vec::new();
        let mut i: usize = 0;
        while i < self.nodes.len()
            invariant
                i <= self.nodes@.len(),
                entries == self@.map_values(|entry: Entry| entry_of(entry.1, entry.0)),
                self@ == entry_views(self.nodes@),
                string_views(said@) == entries.take(i as int),
            decreases self.nodes@.len() - i,
        {
            let one = self.nodes[i].1.entry(self.nodes[i].0.as_str());
            proof {
                assert(string_views(said@.push(one)) == string_views(said@).push(one@));
                assert(entries.take(i as int + 1) == entries.take(i as int).push(entries[i as int]));
            }
            said.push(one);
            i = i + 1;
        }
        assert(entries.take(self.nodes@.len() as int) == entries);
        let mut text = String::new();
        append_joined(&mut text, &said, ",");
        assert(text@ =~= join(entries, ","@));
        text
    }

    /// Every node's name, in the order they were named.
    pub fn names(&self) -> (names: Vec<&str>)
        ensures
            str_views(names@) == entry_names(self@),
    {
        let mut names: Vec<&str> = Vec::new();
        let mut i: usize = 0;
        while i < self.nodes.len()
            invariant
                i <= self.nodes@.len(),
                self@ == entry_views(self.nodes@),
                str_views(names@) == entry_names(self@).take(i as int),
            decreases self.nodes@.len() - i,
        {
            let one = self.nodes[i].0.as_str();
            proof {
                assert(str_views(names@.push(one)) == str_views(names@).push(one@));
                assert(entry_names(self@).take(i as int + 1) == entry_names(self@).take(
                    i as int,
                ).push(self@[i as int].0));
            }
            names.push(one);
            i = i + 1;
        }
        assert(entry_names(self@).take(self.nodes@.len() as int) == entry_names(self@));
        names
    }

    /// Whether no node was named at all.
    pub fn is_empty(&self) -> (empty: bool)
        ensures
            empty == (self@.len() == 0),
    {
        self.nodes.len() == 0
    }

    /// Where the first node called `name` stands, whatever the case.
    fn place(&self, name: &str) -> (at: Option<usize>)
        ensures
            match at {
                Some(at) => first_called(self@, name@, at as int),
                None => !calls(self@, name@),
            },
    {
        let wanted = chars_of(name);
        let mut i: usize = 0;
        while i < self.nodes.len()
            invariant
                i <= self.nodes@.len(),
                self@ == entry_views(self.nodes@),
                wanted@ == name@,
                forall|j: int| 0 <= j < i ==> !same_ignoring_case(#[trigger] self@[j].0, name@),
            decreases self.nodes@.len() - i,
        {
            let one = chars_of(self.nodes[i].0.as_str());
            if equal_ignoring_case(one.as_slice(), wanted.as_slice()) {
                return Some(i);
            }
            i = i + 1;
        }
        assert forall|at: int| !first_called(self@, name@, at) by {
            if 0 <= at < self@.len() {
                assert(!same_ignoring_case(self@[at].0, name@));
            }
        }
        None
    }

    /// What the node called `name` declared; nothing when it is no node here.
    pub fn capability(&self, name: &str) -> (capability: Capability)
        ensures
            capability == capability_in(self@, name@),
    {
        match self.place(name) {
            Some(at) => {
                proof {
                    lemma_first_called_unique(self@, name@, at as int);
                }
                self.nodes[at].1
            },
            None => Capability::none(),
        }
    }

    /// The same roster with `name`'s declaration replaced by `capability`,
    /// or `name` added last when it is no node yet — how a node makes its
    /// own `--can` the last word on itself.
    pub fn declared(self, name: &str, capability: Capability) -> (roster: Self)
        ensures
            roster@ == redeclared(self@, name@, capability),
    {
        let mut roster = self;
        match roster.place(name) {
            Some(at) => {
                proof {
                    lemma_first_called_unique(roster@, name@, at as int);
                }
                let ghost before = roster.nodes@;
                let kept = roster.nodes[at].0.clone();
                roster.nodes.set(at, (kept, capability));
                proof {
                    assert(entry_views(roster.nodes@) =~= entry_views(before).update(
                        at as int,
                        (entry_views(before)[at as int].0, capability),
                    ));
                }
                roster
            },
            None => {
                let mut added = String::new();
                added.append(name);
                let ghost before = roster.nodes@;
                roster.nodes.push((added, capability));
                proof {
                    assert(entry_views(roster.nodes@) =~= entry_views(before).push(
                        (name@, capability),
                    ));
                }
                roster
            },
        }
    }

    /// The nodes that declared they can serve `stage`, in the order they
    /// were named.
    pub fn with(&self, stage: Stage) -> (nodes: Vec<&str>)
        ensures
            str_views(nodes@) == serving(self@, stage),
    {
        let mut nodes: Vec<&str> = Vec::new();
        let mut i: usize = 0;
        while i < self.nodes.len()
            invariant
                i <= self.nodes@.len(),
                self@ == entry_views(self.nodes@),
                str_views(nodes@) == serving(self@.take(i as int), stage),
            decreases self.nodes@.len() - i,
        {
            proof {
                assert(self@.take(i as int + 1).drop_last() == self@.take(i as int));
                assert(self@.take(i as int + 1).last() == (
                    self.nodes@[i as int].0@,
                    self.nodes@[i as int].1,
                ));
            }
            if self.nodes[i].1.can(stage) {
                let one = self.nodes[i].0.as_str();
                proof {
                    assert(str_views(nodes@.push(one)) == str_views(nodes@).push(one@));
                }
                nodes.push(one);
            }
            i = i + 1;
        }
        assert(self@.take(self.nodes@.len() as int) == self@);
        nodes
    }

    /// Whether any node declared a stage of the message path.
    pub fn serves_any_stage(&self) -> (yes: bool)
        ensures
            yes == any_stage(self@),
    {
        let mut i: usize = 0;
        while i < self.nodes.len()
            invariant
                i <= self.nodes@.len(),
                self@ == entry_views(self.nodes@),
                forall|j: int| 0 <= j < i ==> !declares_any(#[trigger] self@[j].1),
            decreases self.nodes@.len() - i,
        {
            assert(self@[i as int].1 == self.nodes@[i as int].1);
            if !self.nodes[i].1.declares_no_stage() {
                return true;
            }
            i = i + 1;
        }
        false
    }

    /// Why `RoundTrip` cannot run across these nodes, if it cannot: the path
    /// needs receive, process and send declared somewhere, and the message
    /// names the capability nobody declared. `None` when no node declares a
    /// stage at all, or every stage is covered.
    pub fn refusal(&self) -> (refusal: Option<String>)
        ensures
            match (refusal, stage_refusal(self@)) {
                (Some(said), Some(expected)) => said@ == expected,
                (None, None) => true,
                _ => false,
            },
    {
        if !self.serves_any_stage() {
            return None;
        }
        let mut missing: Vec<String> = Vec::new();
        if self.with(Stage::Receive).len() == 0 {
            missing.push(owned(Stage::Receive.name()));
        }
        if self.with(Stage::Process).len() == 0 {
            missing.push(owned(Stage::Process.name()));
        }
        if self.with(Stage::Send).len() == 0 {
            missing.push(owned(Stage::Send.name()));
        }
        assert(string_views(missing@) =~= undeclared(self@));
        if missing.len() == 0 {
            return None;
        }
        let mut said = String::new();
        said.append(
            "REFUSED. RoundTrip across nodes needs the receive, process and send capability declared; no node declares ",
        );
        append_joined(&mut said, &missing, " or ");
        said.append(".");
        Some(said)
    }

    /// Whether the receiving node `name` takes the pair at `index` of the
    /// matrix: a stable partition, the index modulo the count that receive.
    pub fn receives(&self, name: &str, index: usize) -> (yes: bool)
        ensures
            yes == takes(serving(self@, Stage::Receive), name@, index as int),
    {
        let receivers = self.with(Stage::Receive);
        position_takes(&receivers, name, index)
    }

    /// The node a pair is handed to for `stage`: a stable hash of the stage
    /// and the pair over the nodes that declared it, so every sender picks
    /// the same one. The pair is a transport and a content contract, by name.
    pub fn target(&self, stage: Stage, transport: &str, contract: &str) -> (node: Option<&str>)
        ensures
            match (node, picked_by(serving(self@, stage), path_key(stage_name(stage), transport@, contract@))) {
                (Some(chosen), Some(expected)) => chosen@ == expected,
                (None, None) => true,
                _ => false,
            },
    {
        let nodes = self.with(stage);
        if nodes.len() == 0 {
            return None;
        }
        let hash = hash_path(stage.name(), transport, contract);
        let at = (hash % (nodes.len() as u64)) as usize;
        Some(nodes[at])
    }
}

/// `word` as an owned `String`.
fn owned(word: &str) -> (out: String)
    ensures
        out@ == word@,
{
    let mut out = String::new();
    out.append(word);
    out
}

/// The first node called a name is the one `place_of` chooses.
proof fn lemma_first_called_unique(entries: Seq<Entry>, name: Seq<char>, at: int)
    requires
        first_called(entries, name, at),
    ensures
        calls(entries, name),
        place_of(entries, name) == at,
{
    let other = place_of(entries, name);
    assert(first_called(entries, name, other));
    if other < at {
        assert(!same_ignoring_case(entries[other].0, name));
    }
    if at < other {
        assert(!same_ignoring_case(entries[at].0, name));
    }
}

/// Once an entry is refused, every longer list of entries is refused for it.
proof fn lemma_refusal_stays(said: Seq<Seq<char>>, at: int)
    requires
        0 < at <= said.len(),
        read_entries(said.take(at)) is Err,
    ensures
        read_entries(said) == read_entries(said.take(at)),
    decreases said.len() - at,
{
    if at == said.len() {
        assert(said.take(at) == said);
    } else {
        assert(said.take(at + 1).drop_last() == said.take(at));
        lemma_refusal_stays(said, at + 1);
    }
}


/// Whether a node's name is written into a roster and read back as itself:
/// not empty, no space at either end, and neither `,` nor `=` in it.
pub open spec fn plain_name(name: Seq<char>) -> bool {
    &&& name.len() > 0
    &&& trim(name) == name
    &&& !name.contains(',')
    &&& !name.contains('=')
}

/// A node's entry is one word of the roster: not empty, no `,`, no space
/// at either end.
proof fn lemma_entry_plain(capability: Capability, name: Seq<char>)
    requires
        plain_name(name),
    ensures
        entry_of(capability, name).len() > 0,
        !entry_of(capability, name).contains(','),
        trim(entry_of(capability, name)) == entry_of(capability, name),
{
    let stages = declared_stages(capability);
    let text = entry_of(capability, name);
    assert(!is_space(name[0]) && !is_space(name.last())) by {
        if is_space(name[0]) {
            assert(trim_start(name) == trim_start(name.subrange(1, name.len() as int)));
            assert(trim_start(name).len() < name.len()) by {
                lemma_trim_start_shorter(name.subrange(1, name.len() as int));
            }
            lemma_trim_end_shorter(trim_start(name));
        }
        if is_space(name.last()) {
            lemma_trim_start_shorter(name);
            if trim_start(name) == name {
                assert(trim_end(name) == trim_end(name.drop_last()));
                lemma_trim_end_shorter(name.drop_last());
            } else {
                lemma_trim_end_shorter(trim_start(name));
            }
        }
    }
    if stages.len() == 0 {
        assert(text == name);
    } else {
        let words_of_stages = stages.map_values(|stage: Stage| stage_name(stage));
        let said = stage_words(stages, seq!['+']);
        let ok = |c: char| c != ',' && !is_space(c);
        assert forall|k: int, j: int|
            0 <= k < words_of_stages.len() && 0 <= j < words_of_stages[k].len() implies ok(
            #[trigger] words_of_stages[k][j],
        ) by {
            crate::capability::lemma_stage_name_plain(stages[k]);
            assert(words_of_stages[k] == stage_name(stages[k]));
            assert('a' <= words_of_stages[k][j] <= 'z');
        }
        crate::capability::lemma_stage_words_joined(stages, seq!['+']);
        crate::text::lemma_join_all(words_of_stages, seq!['+'], ok);
        assert(said.len() > 0) by {
            crate::capability::lemma_stage_name_plain(stages.last());
            lemma_join_len(words_of_stages, seq!['+']);
        }
        assert(text == name + seq!['='] + said);
        assert forall|i: int| 0 <= i < text.len() implies text[i] != ',' by {
            if i < name.len() {
                assert(text[i] == name[i]);
                if name[i] == ',' {
                    assert(name.contains(','));
                }
            } else if i == name.len() {
            } else {
                assert(text[i] == said[i - name.len() - 1]);
                assert(ok(said[i - name.len() - 1]));
            }
        }
        assert(text[0] == name[0]);
        assert(text.last() == said.last());
        assert(ok(said[said.len() - 1]));
        crate::text::lemma_trim_unchanged(text);
    }
    if stages.len() == 0 {
        crate::text::lemma_trim_unchanged(text);
    }
}

/// A joined list is at least as long as its last piece.
proof fn lemma_join_len(pieces: Seq<Seq<char>>, sep: Seq<char>)
    requires
        pieces.len() > 0,
    ensures
        join(pieces, sep).len() >= pieces.last().len(),
{
}

/// Trimming the front never lengthens text.
proof fn lemma_trim_start_shorter(text: Seq<char>)
    ensures
        trim_start(text).len() <= text.len(),
    decreases text.len(),
{
    if text.len() > 0 && is_space(text[0]) {
        lemma_trim_start_shorter(text.subrange(1, text.len() as int));
    }
}

/// Trimming the end never lengthens text.
proof fn lemma_trim_end_shorter(text: Seq<char>)
    ensures
        trim_end(text).len() <= text.len(),
    decreases text.len(),
{
    if text.len() > 0 && is_space(text.last()) {
        lemma_trim_end_shorter(text.drop_last());
    }
}

/// A node's entry reads back as its name and its declaration, offline.
proof fn lemma_entry_reads_back(capability: Capability, name: Seq<char>)
    requires
        plain_name(name),
        !capability.online,
    ensures
        entry_name(entry_of(capability, name)) == name,
        entry_declaration(entry_of(capability, name)) == Ok::<Capability, Seq<char>>(capability),
{
    let stages = declared_stages(capability);
    let text = entry_of(capability, name);
    assert forall|j: int| 0 <= j < name.len() implies name[j] != '=' by {
        if name[j] == '=' {
            assert(name.contains('='));
        }
    }
    if stages.len() == 0 {
        crate::text::lemma_split_once_none(name, '=');
        assert(!capability.receive && !capability.process && !capability.send) by {
            if capability.receive {
                assert(stages[0] == Stage::Receive);
            } else if capability.process {
                assert(stages[0] == Stage::Process);
            } else if capability.send {
                assert(stages[0] == Stage::Send);
            }
        }
    } else {
        let said = stage_words(stages, seq!['+']);
        assert(text == name + seq!['='] + said);
        assert(text.take(name.len() as int) == name);
        assert(text.skip(name.len() as int + 1) == said);
        crate::text::lemma_split_once_at(text, '=', name.len() as int);
        crate::capability::lemma_declaration_reads_back(capability, '+');
    }
}

/// The entries read back one by one are the entries written.
proof fn lemma_entries_read_back(entries: Seq<Entry>)
    requires
        forall|i: int|
            0 <= i < entries.len() ==> plain_name(#[trigger] entries[i].0) && !entries[i].1.online,
    ensures
        read_entries(entries.map_values(|entry: Entry| entry_of(entry.1, entry.0))) == Ok::<
            Seq<Entry>,
            Seq<char>,
        >(entries),
    decreases entries.len(),
{
    let texts = entries.map_values(|entry: Entry| entry_of(entry.1, entry.0));
    if entries.len() > 0 {
        let before = entries.drop_last();
        assert forall|i: int| 0 <= i < before.len() implies plain_name(#[trigger] before[i].0)
            && !before[i].1.online by {
            assert(before[i] == entries[i]);
        }
        lemma_entries_read_back(before);
        assert(texts.drop_last() == before.map_values(|entry: Entry| entry_of(entry.1, entry.0)));
        let last = entries.last();
        assert(plain_name(entries[entries.len() - 1].0));
        lemma_entry_reads_back(last.1, last.0);
        assert(before.push(last) == entries);
    } else {
        assert(texts =~= Seq::<Seq<char>>::empty());
        assert(entries =~= Seq::<Entry>::empty());
    }
}

/// A roster written as `--nodes` takes it reads back as the same roster,
/// when every node's name is plain: what `roll --roster` prints is what
/// `--nodes` takes back. The text does not carry the online switch, so the
/// law is of rosters whose nodes are offline.
pub proof fn lemma_roster_reads_back(entries: Seq<Entry>)
    requires
        forall|i: int|
            0 <= i < entries.len() ==> plain_name(#[trigger] entries[i].0) && !entries[i].1.online,
    ensures
        read_entries(words(roster_text(entries), ',')) == Ok::<Seq<Entry>, Seq<char>>(entries),
{
    let texts = entries.map_values(|entry: Entry| entry_of(entry.1, entry.0));
    reveal_strlit(",");
    assert(","@ == seq![',']);
    assert forall|i: int| 0 <= i < texts.len() implies (#[trigger] texts[i]).len() > 0
        && !texts[i].contains(',') && trim(texts[i]) == texts[i] by {
        lemma_entry_plain(entries[i].1, entries[i].0);
    }
    crate::text::lemma_words_join(texts, ',');
    lemma_entries_read_back(entries);
}


/// A node called `name` somewhere means a first one called so.
proof fn lemma_some_called(entries: Seq<Entry>, name: Seq<char>, j: int)
    requires
        0 <= j < entries.len(),
        same_ignoring_case(entries[j].0, name),
    ensures
        calls(entries, name),
    decreases j,
{
    if exists|k: int| 0 <= k < j && same_ignoring_case(#[trigger] entries[k].0, name) {
        let k = choose|k: int| 0 <= k < j && same_ignoring_case(#[trigger] entries[k].0, name);
        lemma_some_called(entries, name, k);
    } else {
        assert(first_called(entries, name, j));
    }
}

/// A node has the last word on itself: once it declares, the roster says of
/// it what it declared, whatever the case of its name. No node is added
/// twice: a node already there keeps its place, and one that is not is
/// added last.
pub proof fn lemma_last_word_on_itself(entries: Seq<Entry>, name: Seq<char>, capability: Capability)
    ensures
        capability_in(redeclared(entries, name, capability), name) == capability,
        calls(entries, name) ==> redeclared(entries, name, capability).len() == entries.len()
            && entry_names(redeclared(entries, name, capability)) == entry_names(entries),
        !calls(entries, name) ==> redeclared(entries, name, capability) == entries.push(
            (name, capability),
        ),
{
    let after = redeclared(entries, name, capability);
    if calls(entries, name) {
        let at = place_of(entries, name);
        assert(first_called(entries, name, at));
        assert(first_called(after, name, at));
        lemma_first_called_unique(after, name, at);
        assert(entry_names(after) =~= entry_names(entries));
    } else {
        let at = entries.len() as int;
        assert(same_ignoring_case(name, name));
        assert forall|j: int| 0 <= j < at implies !same_ignoring_case(#[trigger] after[j].0, name) by {
            assert(after[j] == entries[j]);
            if same_ignoring_case(entries[j].0, name) {
                lemma_some_called(entries, name, j);
            }
        }
        assert(first_called(after, name, at));
        lemma_first_called_unique(after, name, at);
    }
}

} // verus!
