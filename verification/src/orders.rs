//! What a cluster starts its nodes on: who they are, how hard they run, the
//! tests they are told, which of them may assume the internet, and for how
//! many rounds. One value rather than five arguments, so what the cluster
//! process was told at the door is handed on to its nodes unchanged.

use vstd::prelude::*;

use crate::complement::node_name;
use crate::number::append_two_digits;
use crate::role::{role_refusal, Roster};
use crate::scenario::{drives, drives_spec, ROUND_TRIP};
use crate::stress::Stress;
use crate::switch::{is_named, names_one, Switches};
use crate::text::{append_joined, join, string_views};

verus! {

/// The orders a cluster spawns its nodes under.
#[derive(Clone, Debug)]
pub struct Orders {
    /// How hard every node runs.
    pub stress: Stress,
    /// Every node's name, in the order they were named.
    pub names: Vec<String>,
    /// The nodes that may assume the internet. `None` leaves each node to
    /// what its environment says.
    pub online: Option<Vec<String>>,
    /// The scenarios every node is told to run; empty means every one.
    pub scenarios: Vec<String>,
    /// Rounds a node runs before it exits on its own; `0` runs until stopped.
    pub rounds: u64,
}

/// The names an online list speaks of that are not nodes of `names`.
pub open spec fn outsiders(online: Seq<Seq<char>>, names: Seq<Seq<char>>) -> Seq<Seq<char>>
    decreases online.len(),
{
    if online.len() == 0 {
        Seq::empty()
    } else {
        let before = outsiders(online.drop_last(), names);
        if names_one(names, online.last()) {
            before
        } else {
            before.push(online.last())
        }
    }
}

/// The online list, as plain values; `None` when it was left to the
/// environment.
pub open spec fn online_view(online: Option<Vec<String>>) -> Option<Seq<Seq<char>>> {
    match online {
        Some(list) => Some(string_views(list@)),
        None => None,
    }
}

/// What `Orders::refusal` answers.
pub open spec fn orders_refusal(
    names: Seq<Seq<char>>,
    online: Option<Seq<Seq<char>>>,
    scenarios: Seq<Seq<char>>,
) -> Option<Seq<char>> {
    let strangers = match online {
        Some(list) => outsiders(list, names),
        None => Seq::empty(),
    };
    if names.len() == 0 {
        Some("REFUSED: a cluster supervises nodes and none was named; --nodes R1,P1,S1 names them."@)
    } else if strangers.len() > 0 {
        Some(
            "REFUSED: --online names "@ + join(strangers, ", "@)
                + ", which --nodes does not; the nodes are "@ + join(names, ", "@) + "."@,
        )
    } else if drives_spec(scenarios, "round-trip"@) {
        role_refusal(names)
    } else {
        None
    }
}

/// The names `node-01` up to `node-<count>`.
pub open spec fn numbered_names(count: nat) -> Seq<Seq<char>> {
    Seq::new(count, |at: int| node_name((at + 1) as nat))
}

impl Orders {
    /// Orders for the nodes named: every scenario, online left to the
    /// environment.
    pub fn of(stress: Stress, names: &[String], rounds: u64) -> (orders: Self)
        ensures
            orders.stress == stress,
            string_views(orders.names@) == string_views(names@),
            orders.online is None,
            orders.scenarios@.len() == 0,
            orders.rounds == rounds,
    {
        Orders {
            stress,
            names: crate::role::copied(names),
            online: None,
            scenarios: Vec::new(),
            rounds,
        }
    }

    /// The same for `count` nodes numbered `node-01` up — a level's own,
    /// where nobody named them.
    pub fn numbered(stress: Stress, count: usize, rounds: u64) -> (orders: Self)
        requires
            count < u64::MAX,
        ensures
            orders.stress == stress,
            string_views(orders.names@) == numbered_names(count as nat),
            orders.online is None,
            orders.scenarios@.len() == 0,
            orders.rounds == rounds,
    {
        let ghost expected = numbered_names(count as nat);
        let mut names: Vec<String> = Vec::new();
        let mut at: usize = 0;
        while at < count
            invariant
                at <= count < u64::MAX,
                expected == numbered_names(count as nat),
                string_views(names@) == expected.take(at as int),
            decreases count - at,
        {
            let mut name = String::new();
            name.append("node-");
            append_two_digits(&mut name, (at + 1) as u64);
            proof {
                assert(string_views(names@.push(name)) == string_views(names@).push(name@));
                assert(expected.take(at as int + 1) == expected.take(at as int).push(
                    expected[at as int],
                ));
            }
            names.push(name);
            at = at + 1;
        }
        assert(expected.take(count as int) == expected);
        Orders { stress, names, online: None, scenarios: Vec::new(), rounds }
    }

    /// The same driving only the scenarios named; none named is every one.
    pub fn driving(self, scenarios: &[String]) -> (orders: Self)
        ensures
            orders.stress == self.stress,
            orders.names == self.names,
            orders.online == self.online,
            string_views(orders.scenarios@) == string_views(scenarios@),
            orders.rounds == self.rounds,
    {
        Orders { scenarios: crate::role::copied(scenarios), ..self }
    }

    /// The same with the online nodes named outright rather than left to the
    /// environment.
    pub fn with_online(self, online: Option<Vec<String>>) -> (orders: Self)
        ensures
            orders.stress == self.stress,
            orders.names == self.names,
            orders.online == online,
            orders.scenarios == self.scenarios,
            orders.rounds == self.rounds,
    {
        Orders { online, ..self }
    }

    /// Whether the node called `name` may assume the internet: named in the
    /// online list, whatever the case; with no list, what the environment
    /// says for it, `environment`.
    pub fn is_online(&self, name: &str, environment: bool) -> (online: bool)
        ensures
            online == match online_view(self.online) {
                Some(list) => names_one(list, name@),
                None => environment,
            },
    {
        match &self.online {
            Some(list) => is_named(list.as_slice(), name),
            None => environment,
        }
    }

    /// The switches the node called `name` is started with.
    pub fn switches(&self, name: &str, environment: bool) -> (switches: Switches)
        ensures
            switches.online == match online_view(self.online) {
                Some(list) => names_one(list, name@),
                None => environment,
            },
    {
        Switches { online: self.is_online(name, environment) }
    }

    /// Why these orders cannot be carried out, if they cannot: no node at
    /// all, an online node that is no node of the cluster, or a `RoundTrip`
    /// whose roster is missing a role. Asked before a process is spawned.
    pub fn refusal(&self) -> (refusal: Option<String>)
        ensures
            match (
                refusal,
                orders_refusal(
                    string_views(self.names@),
                    online_view(self.online),
                    string_views(self.scenarios@),
                ),
            ) {
                (Some(said), Some(expected)) => said@ == expected,
                (None, None) => true,
                _ => false,
            },
    {
        if self.names.len() == 0 {
            let mut said = String::new();
            said.append(
                "REFUSED: a cluster supervises nodes and none was named; --nodes R1,P1,S1 names them.",
            );
            return Some(said);
        }
        let ghost names = string_views(self.names@);
        let mut strangers: Vec<String> = Vec::new();
        match &self.online {
            Some(list) => {
                let ghost listed = string_views(list@);
                let mut i: usize = 0;
                while i < list.len()
                    invariant
                        i <= list@.len(),
                        listed == string_views(list@),
                        names == string_views(self.names@),
                        string_views(strangers@) == outsiders(listed.take(i as int), names),
                    decreases list@.len() - i,
                {
                    proof {
                        assert(listed.take(i as int + 1).drop_last() == listed.take(i as int));
                        assert(listed.take(i as int + 1).last() == list@[i as int]@);
                    }
                    if !is_named(self.names.as_slice(), list[i].as_str()) {
                        let one = list[i].clone();
                        proof {
                            assert(string_views(strangers@.push(one)) == string_views(
                                strangers@,
                            ).push(one@));
                        }
                        strangers.push(one);
                    }
                    i = i + 1;
                }
                assert(listed.take(list@.len() as int) == listed);
            },
            None => {
                assert(string_views(strangers@) =~= Seq::<Seq<char>>::empty());
            },
        }
        if strangers.len() > 0 {
            let mut said = String::new();
            said.append("REFUSED: --online names ");
            append_joined(&mut said, &strangers, ", ");
            said.append(", which --nodes does not; the nodes are ");
            append_joined(&mut said, &self.names, ", ");
            said.append(".");
            return Some(said);
        }
        proof {
            reveal_strlit("round-trip");
        }
        if drives(self.scenarios.as_slice(), ROUND_TRIP) {
            Roster::of(self.names.as_slice()).refusal()
        } else {
            None
        }
    }
}

} // verus!
