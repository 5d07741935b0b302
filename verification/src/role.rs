//! The role a node's name gives it, and the roster of a cluster's nodes by
//! role. The letter is the role: a name of letters and digits starting with
//! `R` receives, `P` processes, `S` sends, in either case (`R1`, `p2`,
//! `Send3`). Any other name (`node-01`, `left`) has no role and runs whole
//! tests itself.
//!
//! The [`Roster`] is every node of the cluster, the same list everywhere, so
//! each decides alone and all agree: which pairs of the matrix an `R` node
//! receives (its index modulo the `R` count), and which `P` or `S` node a pair
//! is handed to (a stable hash of the role and the pair over the nodes of
//! that role).

use vstd::prelude::*;

use crate::pick::{hash_path, path_key, stable_hash};
use crate::stage::Stage;
use crate::text::{chars_of, join, push_char, same_chars, string_views};

verus! {

/// What a node does on the message path, from its name.
#[derive(Clone, Copy, Debug, PartialEq, Eq, Structural)]
pub enum Role {
    /// Takes the Stream in through the transport and hands it on.
    Receive,
    /// Holds the content contract over what was received and hands it on.
    Process,
    /// Sends out through the transport and closes the verdict.
    Send,
    /// No role: the node runs whole tests itself.
    Whole,
}

/// Whether `c` is an ASCII letter or digit.
pub open spec fn is_alphanumeric(c: char) -> bool {
    ('a' <= c <= 'z') || ('A' <= c <= 'Z') || ('0' <= c <= '9')
}

/// The role a name gives: by its first letter when the whole name is letters
/// and digits, else none.
pub open spec fn role_of(name: Seq<char>) -> Role {
    if name.len() == 0 || !(forall|i: int| 0 <= i < name.len() ==> is_alphanumeric(name[i])) {
        Role::Whole
    } else if name[0] == 'R' || name[0] == 'r' {
        Role::Receive
    } else if name[0] == 'P' || name[0] == 'p' {
        Role::Process
    } else if name[0] == 'S' || name[0] == 's' {
        Role::Send
    } else {
        Role::Whole
    }
}

/// The letter a name starts with to have a role; empty for none.
pub open spec fn letter_of(role: Role) -> Seq<char> {
    match role {
        Role::Receive => seq!['R'],
        Role::Process => seq!['P'],
        Role::Send => seq!['S'],
        Role::Whole => Seq::empty(),
    }
}

/// The stage a role runs, if it has one.
pub open spec fn stage_of(role: Role) -> Option<Stage> {
    match role {
        Role::Receive => Some(Stage::Receive),
        Role::Process => Some(Stage::Process),
        Role::Send => Some(Stage::Send),
        Role::Whole => None,
    }
}

/// The role a handoff goes to next: `R` to `P`, `P` to `S`.
pub open spec fn next_of(role: Role) -> Option<Role> {
    match role {
        Role::Receive => Some(Role::Process),
        Role::Process => Some(Role::Send),
        _ => None,
    }
}

/// Whether `c` is an ASCII letter or digit.
fn alphanumeric(c: char) -> (yes: bool)
    ensures
        yes == is_alphanumeric(c),
{
    ('a' <= c && c <= 'z') || ('A' <= c && c <= 'Z') || ('0' <= c && c <= '9')
}

impl Role {
    /// The role `name` gives a node: by its first letter when the whole name
    /// is letters and digits, else none.
    pub fn of(name: &str) -> (role: Self)
        ensures
            role == role_of(name@),
    {
        let chars = chars_of(name);
        if chars.len() == 0 {
            return Role::Whole;
        }
        let mut i: usize = 0;
        while i < chars.len()
            invariant
                i <= chars@.len(),
                chars@ == name@,
                forall|j: int| 0 <= j < i ==> is_alphanumeric(chars@[j]),
            decreases chars@.len() - i,
        {
            if !alphanumeric(chars[i]) {
                return Role::Whole;
            }
            i = i + 1;
        }
        let first = chars[0];
        if first == 'R' || first == 'r' {
            Role::Receive
        } else if first == 'P' || first == 'p' {
            Role::Process
        } else if first == 'S' || first == 's' {
            Role::Send
        } else {
            Role::Whole
        }
    }

    /// The letter a name starts with to have this role; empty for none.
    pub fn letter(self) -> (letter: &'static str)
        ensures
            letter@ == letter_of(self),
    {
        match self {
            Role::Receive => {
                proof {
                    reveal_strlit("R");
                }
                "R"
            },
            Role::Process => {
                proof {
                    reveal_strlit("P");
                }
                "P"
            },
            Role::Send => {
                proof {
                    reveal_strlit("S");
                }
                "S"
            },
            Role::Whole => {
                proof {
                    reveal_strlit("");
                }
                ""
            },
        }
    }

    /// The stage of the message path this role runs, if it has one.
    pub fn stage(self) -> (stage: Option<Stage>)
        ensures
            stage == stage_of(self),
    {
        match self {
            Role::Receive => Some(Stage::Receive),
            Role::Process => Some(Stage::Process),
            Role::Send => Some(Stage::Send),
            Role::Whole => None,
        }
    }

    /// The role a handoff goes to next: `R` to `P`, `P` to `S`.
    pub fn next(self) -> (next: Option<Self>)
        ensures
            next == next_of(self),
    {
        match self {
            Role::Receive => Some(Role::Process),
            Role::Process => Some(Role::Send),
            _ => None,
        }
    }
}

/// The views of a list of string slices.
pub open spec fn str_views(list: Seq<&str>) -> Seq<Seq<char>> {
    list.map_values(|one: &str| one@)
}

/// The names that have `role`, in order.
pub open spec fn having(names: Seq<Seq<char>>, role: Role) -> Seq<Seq<char>>
    decreases names.len(),
{
    if names.len() == 0 {
        names
    } else {
        let before = having(names.drop_last(), role);
        if role_of(names.last()) == role {
            before.push(names.last())
        } else {
            before
        }
    }
}

/// The letters of the roles of the message path that no name has, in the
/// path's order.
pub open spec fn missing_letters(names: Seq<Seq<char>>) -> Seq<Seq<char>> {
    (if having(names, Role::Receive).len() == 0 { seq![seq!['R']] } else { Seq::empty() })
        + (if having(names, Role::Process).len() == 0 { seq![seq!['P']] } else { Seq::empty() })
        + (if having(names, Role::Send).len() == 0 { seq![seq!['S']] } else { Seq::empty() })
}

/// Whether some name has a role on the message path.
pub open spec fn any_role(names: Seq<Seq<char>>) -> bool {
    exists|i: int| 0 <= i < names.len() && role_of(names[i]) != Role::Whole
}

/// What `Roster::refusal` answers.
pub open spec fn role_refusal(names: Seq<Seq<char>>) -> Option<Seq<char>> {
    if !any_role(names) || missing_letters(names).len() == 0 {
        None
    } else {
        Some(
            "REFUSED. RoundTrip over role nodes needs at least one R, one P and one S node; the nodes name no "@
                + join(missing_letters(names), " and no "@) + "."@,
        )
    }
}

/// Whether `name` stands at `at` in `list` and nowhere before it.
pub open spec fn first_at(list: Seq<Seq<char>>, name: Seq<char>, at: int) -> bool {
    &&& 0 <= at < list.len()
    &&& list[at] == name
    &&& forall|j: int| 0 <= j < at ==> list[j] != name
}

/// Whether the receiver `name` takes the pair at `index`: its place among
/// the receivers is the index modulo their count.
pub open spec fn takes(receivers: Seq<Seq<char>>, name: Seq<char>, index: int) -> bool {
    exists|at: int| first_at(receivers, name, at) && index % (receivers.len() as int) == at
}

/// The node a pair goes to among `nodes`, by the stable hash of its key.
pub open spec fn picked_by(nodes: Seq<Seq<char>>, key: Seq<u8>) -> Option<Seq<char>> {
    if nodes.len() == 0 {
        None
    } else {
        Some(nodes[(stable_hash(key) as int) % (nodes.len() as int)])
    }
}

/// Every node of a cluster, by role, in the order they were named.
#[derive(Clone, Debug)]
pub struct Roster {
    names: Vec<String>,
}

impl View for Roster {
    type V = Seq<Seq<char>>;

    closed spec fn view(&self) -> Seq<Seq<char>> {
        string_views(self.names@)
    }
}

impl Default for Roster {
    fn default() -> (roster: Self)
        ensures
            roster@ == Seq::<Seq<char>>::empty(),
    {
        let roster = Roster { names: Vec::new() };
        assert(roster@ =~= Seq::<Seq<char>>::empty());
        roster
    }
}

/// A copy of `names`.
pub fn copied(names: &[String]) -> (out: Vec<String>)
    ensures
        string_views(out@) == string_views(names@),
{
    let mut out: Vec<String> = Vec::new();
    let mut i: usize = 0;
    while i < names.len()
        invariant
            i <= names@.len(),
            string_views(out@) == string_views(names@).take(i as int),
        decreases names@.len() - i,
    {
        let one = names[i].clone();
        proof {
            assert(string_views(out@.push(one)) == string_views(out@).push(one@));
            assert(string_views(names@).take(i as int + 1) == string_views(names@).take(
                i as int,
            ).push(names@[i as int]@));
        }
        out.push(one);
        i = i + 1;
    }
    assert(string_views(names@).take(names@.len() as int) == string_views(names@));
    out
}

impl Roster {
    /// The roster of the nodes named.
    pub fn of(names: &[String]) -> (roster: Self)
        ensures
            roster@ == string_views(names@),
    {
        Roster { names: copied(names) }
    }

    /// The same roster, held apart from this one.
    pub fn duplicate(&self) -> (copy: Self)
        ensures
            copy@ == self@,
    {
        Roster { names: copied(self.names.as_slice()) }
    }

    /// The nodes with `role`, in the order they were named.
    pub fn with(&self, role: Role) -> (nodes: Vec<&str>)
        ensures
            str_views(nodes@) == having(self@, role),
    {
        let ghost all = self@;
        let mut nodes: Vec<&str> = Vec::new();
        let mut i: usize = 0;
        while i < self.names.len()
            invariant
                i <= self.names@.len(),
                all == self@,
                all == string_views(self.names@),
                str_views(nodes@) == having(all.take(i as int), role),
            decreases self.names@.len() - i,
        {
            let name = self.names[i].as_str();
            proof {
                assert(all.take(i as int + 1).drop_last() == all.take(i as int));
                assert(all.take(i as int + 1).last() == name@);
            }
            if Role::of(name) == role {
                proof {
                    assert(str_views(nodes@.push(name)) == str_views(nodes@).push(name@));
                }
                nodes.push(name);
            }
            i = i + 1;
        }
        assert(all.take(self.names@.len() as int) == all);
        nodes
    }

    /// Whether any node has a role on the message path.
    pub fn has_roles(&self) -> (yes: bool)
        ensures
            yes == any_role(self@),
    {
        let ghost all = self@;
        let mut i: usize = 0;
        while i < self.names.len()
            invariant
                i <= self.names@.len(),
                all == self@,
                all == string_views(self.names@),
                forall|j: int| 0 <= j < i ==> role_of(#[trigger] all[j]) == Role::Whole,
            decreases self.names@.len() - i,
        {
            if Role::of(self.names[i].as_str()) != Role::Whole {
                assert(role_of(all[i as int]) != Role::Whole);
                return true;
            }
            i = i + 1;
        }
        false
    }

    /// Why `RoundTrip` cannot run over these role nodes, if it cannot: the
    /// path needs all three roles, and the message names the ones missing.
    /// `None` when there are no role nodes at all, or every role is there.
    pub fn refusal(&self) -> (refusal: Option<String>)
        ensures
            match (refusal, role_refusal(self@)) {
                (Some(said), Some(expected)) => said@ == expected,
                (None, None) => true,
                _ => false,
            },
    {
        if !self.has_roles() {
            return None;
        }
        let mut missing: Vec<String> = Vec::new();
        let ghost all = self@;
        if self.with(Role::Receive).len() == 0 {
            missing.push(letter_string('R'));
        }
        if self.with(Role::Process).len() == 0 {
            missing.push(letter_string('P'));
        }
        if self.with(Role::Send).len() == 0 {
            missing.push(letter_string('S'));
        }
        assert(string_views(missing@) =~= missing_letters(all));
        if missing.len() == 0 {
            return None;
        }
        let mut said = String::new();
        said.append(
            "REFUSED. RoundTrip over role nodes needs at least one R, one P and one S node; the nodes name no ",
        );
        crate::text::append_joined(&mut said, &missing, " and no ");
        said.append(".");
        Some(said)
    }

    /// Whether the `R` node `name` receives the pair at `index` of the
    /// matrix: a stable partition, the index modulo the `R` count.
    pub fn receives(&self, name: &str, index: usize) -> (yes: bool)
        ensures
            yes == takes(having(self@, Role::Receive), name@, index as int),
    {
        let receivers = self.with(Role::Receive);
        position_takes(&receivers, name, index)
    }

    /// The node of `role` a pair is handed to: a stable hash of the role and
    /// the pair over the nodes of that role, so every sender picks the same
    /// one. The pair is a transport and a content contract, by name.
    pub fn target(&self, role: Role, transport: &str, contract: &str) -> (node: Option<&str>)
        ensures
            match (node, picked_by(having(self@, role), path_key(letter_of(role), transport@, contract@))) {
                (Some(chosen), Some(expected)) => chosen@ == expected,
                (None, None) => true,
                _ => false,
            },
    {
        let nodes = self.with(role);
        if nodes.len() == 0 {
            return None;
        }
        let hash = hash_path(role.letter(), transport, contract);
        let at = (hash % (nodes.len() as u64)) as usize;
        Some(nodes[at])
    }
}

/// The string of one character.
fn letter_string(c: char) -> (out: String)
    ensures
        out@ == seq![c],
{
    let mut out = String::new();
    push_char(&mut out, c);
    out
}

/// Whether `name` stands in `list` at the place `index` modulo the list's
/// length picks, looking at its first place only.
pub fn position_takes(list: &Vec<&str>, name: &str, index: usize) -> (yes: bool)
    ensures
        yes == takes(str_views(list@), name@, index as int),
{
    let ghost views = str_views(list@);
    let wanted = chars_of(name);
    let mut i: usize = 0;
    while i < list.len()
        invariant
            i <= list@.len(),
            views == str_views(list@),
            wanted@ == name@,
            forall|j: int| 0 <= j < i ==> views[j] != name@,
        decreases list@.len() - i,
    {
        let one = chars_of(list[i]);
        if same_chars(one.as_slice(), wanted.as_slice()) {
            assert(first_at(views, name@, i as int));
            let yes = index % list.len() == i;
            proof {
                if !yes {
                    assert forall|at: int| !(first_at(views, name@, at) && index as int % (
                    views.len() as int) == at) by {
                        if first_at(views, name@, at) {
                            assert(at == i);
                        }
                    }
                }
            }
            return yes;
        }
        i = i + 1;
    }
    assert forall|at: int| !first_at(views, name@, at) by {
        if 0 <= at < views.len() {
            assert(views[at] != name@);
        }
    }
    false
}


/// Every pair of the matrix has exactly one receiver: among receivers of
/// distinct names, the one standing at the pair's index modulo their count
/// takes it, and no two names take the same pair.
pub proof fn lemma_one_receiver(receivers: Seq<Seq<char>>, index: int)
    requires
        receivers.len() > 0,
        receivers.no_duplicates(),
        index >= 0,
    ensures
        takes(receivers, receivers[index % (receivers.len() as int)], index),
        forall|a: Seq<char>, b: Seq<char>|
            takes(receivers, a, index) && takes(receivers, b, index) ==> a == b,
{
    let at = index % (receivers.len() as int);
    assert(first_at(receivers, receivers[at], at));
    assert forall|a: Seq<char>, b: Seq<char>|
        takes(receivers, a, index) && takes(receivers, b, index) implies a == b by {
        let i = choose|i: int| first_at(receivers, a, i) && index % (receivers.len() as int) == i;
        let j = choose|j: int| first_at(receivers, b, j) && index % (receivers.len() as int) == j;
        assert(i == j);
    }
}

/// A pair is handed on exactly when some node serves the next stage, and
/// always to one of them; which one depends on the pair alone, so every
/// sender picks the same.
pub proof fn lemma_target_serves(nodes: Seq<Seq<char>>, key: Seq<u8>)
    ensures
        picked_by(nodes, key) is Some <==> nodes.len() > 0,
        picked_by(nodes, key) is Some ==> nodes.contains(picked_by(nodes, key)->0),
{
    if nodes.len() > 0 {
        let at = (stable_hash(key) as int) % (nodes.len() as int);
        assert(nodes[at] == picked_by(nodes, key)->0);
    }
}

} // verus!
