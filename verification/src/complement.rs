//! The full complement: the nodes a level brings when nobody named any.
//!
//! An omitted selector is not a cautious default; it is the most the rig can
//! give. For the nodes that is the level's own count, and a count alone is not
//! a complement: a cluster of nodes that declare nothing would leave
//! `RoundTrip` running whole in the roll. So the complement is dealt: the
//! level's nodes, `node-01` up, taking receive, process and send in
//! message-path order and round again, so every stage is covered and no two
//! counts differ by more than one. Nothing is read out of a name — the deal is
//! by position in the list.
//!
//! Below three nodes the deal cannot cover the path, and a roster with two of
//! the three declared would refuse itself; so below three every node of the
//! complement declares no stage and runs whole tests itself.

use vstd::prelude::*;

use crate::capability::Capability;
use crate::number::{append_decimal, append_two_digits, decimal, two_digits};
use crate::roster::{any_stage, nothing, serving, Entry, Roster};
use crate::stage::Stage;
use crate::stress::{node_count, Stress};

verus! {

/// The name of the `n`th node of a complement: `node-01` up.
pub open spec fn node_name(n: nat) -> Seq<char> {
    "node-"@ + two_digits(n)
}

/// The stage dealt to the node at `at` of a complement.
pub open spec fn dealt_stage(at: int) -> Stage {
    if at % 3 == 0 {
        Stage::Receive
    } else if at % 3 == 1 {
        Stage::Process
    } else {
        Stage::Send
    }
}

/// A declaration of exactly one stage, offline.
pub open spec fn only(stage: Stage) -> Capability {
    Capability {
        receive: stage == Stage::Receive,
        process: stage == Stage::Process,
        send: stage == Stage::Send,
        online: false,
    }
}

/// The complement of `count` nodes.
pub open spec fn dealt(count: nat) -> Seq<Entry> {
    Seq::new(
        count,
        |at: int|
            (node_name((at + 1) as nat), if count < 3 {
                nothing()
            } else {
                only(dealt_stage(at))
            }),
    )
}

/// Whether every stage of the message path is declared somewhere.
pub open spec fn covers(entries: Seq<Entry>) -> bool {
    &&& serving(entries, Stage::Receive).len() > 0
    &&& serving(entries, Stage::Process).len() > 0
    &&& serving(entries, Stage::Send).len() > 0
}

/// What `describe` says of a roster.
pub open spec fn description(entries: Seq<Entry>) -> Seq<char> {
    let count = entries.len();
    let many = if count == 1 { "node"@ } else { "nodes"@ };
    if count == 0 {
        "no nodes"@
    } else if !any_stage(entries) {
        decimal(count) + " "@ + many + ", none declaring a stage: whole tests in each"@
    } else {
        decimal(count) + " "@ + many + ", "@ + decimal(serving(entries, Stage::Receive).len())
            + " receive, "@ + decimal(serving(entries, Stage::Process).len()) + " process, "@
            + decimal(serving(entries, Stage::Send).len()) + " send"@
    }
}

/// The complement `stress` brings: its count of nodes, dealt over the
/// message path.
pub fn full(stress: Stress) -> (roster: Roster)
    ensures
        roster@ == dealt(node_count(stress)),
{
    of_count(stress.nodes())
}

/// The complement of `count` nodes: `node-01` up, dealt receive, process,
/// send and round again; every node declaring no stage when there are too
/// few to cover the path.
pub fn of_count(count: usize) -> (roster: Roster)
    requires
        count < u64::MAX,
    ensures
        roster@ == dealt(count as nat),
{
    let ghost expected = dealt(count as nat);
    let mut nodes: Vec<(String, Capability)> = Vec::new();
    let mut at: usize = 0;
    while at < count
        invariant
            at <= count < u64::MAX,
            expected == dealt(count as nat),
            crate::roster::entry_views(nodes@) == expected.take(at as int),
        decreases count - at,
    {
        let mut name = String::new();
        name.append("node-");
        append_two_digits(&mut name, (at + 1) as u64);
        let capability = if count < 3 {
            Capability::none()
        } else {
            let stage = if at % 3 == 0 {
                Stage::Receive
            } else if at % 3 == 1 {
                Stage::Process
            } else {
                Stage::Send
            };
            Capability::none().serving(stage)
        };
        proof {
            assert(crate::roster::entry_views(nodes@.push((name, capability)))
                == crate::roster::entry_views(nodes@).push((name@, capability)));
            assert(expected.take(at as int + 1) == expected.take(at as int).push(expected[at as int]));
            assert(expected[at as int] == (name@, capability));
        }
        nodes.push((name, capability));
        at = at + 1;
    }
    assert(expected.take(count as int) == expected);
    Roster::listing(nodes)
}

/// Whether this roster covers the whole message path — every stage declared
/// somewhere, so `RoundTrip` runs between the node processes.
pub fn covers_the_path(roster: &Roster) -> (yes: bool)
    ensures
        yes == covers(roster@),
{
    roster.with(Stage::Receive).len() > 0 && roster.with(Stage::Process).len() > 0
        && roster.with(Stage::Send).len() > 0
}

/// What a roster is, in one line: how many nodes, and how many of them serve
/// each stage — or that none declares a stage and each runs whole tests.
pub fn describe(roster: &Roster) -> (said: String)
    ensures
        said@ == description(roster@),
{
    let names = roster.names();
    let count = names.len();
    assert(crate::role::str_views(names@).len() == names@.len());
    assert(count == roster@.len());
    let mut said = String::new();
    if count == 0 {
        said.append("no nodes");
        return said;
    }
    append_decimal(&mut said, count as u64);
    said.append(" ");
    said.append(if count == 1 { "node" } else { "nodes" });
    if !roster.serves_any_stage() {
        said.append(", none declaring a stage: whole tests in each");
        return said;
    }
    said.append(", ");
    append_decimal(&mut said, roster.with(Stage::Receive).len() as u64);
    said.append(" receive, ");
    append_decimal(&mut said, roster.with(Stage::Process).len() as u64);
    said.append(" process, ");
    append_decimal(&mut said, roster.with(Stage::Send).len() as u64);
    said.append(" send");
    said
}


/// How many of the first `k` nodes of a deal are dealt `stage`.
pub open spec fn dealt_before(k: nat, stage: Stage) -> nat {
    match stage {
        Stage::Receive => (k + 2) / 3,
        Stage::Process => (k + 1) / 3,
        Stage::Send => k / 3,
    }
}

/// The first `k` nodes of a complement of three or more serve each stage
/// as often as the deal has reached it.
proof fn lemma_dealt_prefix(count: nat, k: nat, stage: Stage)
    requires
        count >= 3,
        k <= count,
    ensures
        serving(dealt(count).take(k as int), stage).len() == dealt_before(k, stage),
    decreases k,
{
    let all = dealt(count);
    if k == 0 {
        assert(all.take(0) =~= Seq::<Entry>::empty());
    } else {
        lemma_dealt_prefix(count, (k - 1) as nat, stage);
        assert(all.take(k as int).drop_last() == all.take(k - 1));
        assert(all.take(k as int).last() == all[k - 1]);
        let at = k - 1;
        assert(all[at].1 == only(dealt_stage(at)));
        assert(crate::capability::serves(only(dealt_stage(at)), stage) == (dealt_stage(at) == stage));
        assert(dealt_before(k, stage) == dealt_before((k - 1) as nat, stage) + (if dealt_stage(at)
            == stage {
            1nat
        } else {
            0nat
        })) by {
            assert(at % 3 == 0 || at % 3 == 1 || at % 3 == 2);
        }
    }
}

/// The complement of three nodes or more covers the message path, and its
/// stages are dealt receive, process, send and round again, so no two
/// stages' counts differ by more than one: twenty nodes are seven receive,
/// seven process and six send.
pub proof fn lemma_deal_covers_and_spreads(count: nat)
    requires
        count >= 3,
    ensures
        covers(dealt(count)),
        serving(dealt(count), Stage::Receive).len() == (count + 2) / 3,
        serving(dealt(count), Stage::Process).len() == (count + 1) / 3,
        serving(dealt(count), Stage::Send).len() == count / 3,
{
    assert(dealt(count).take(count as int) == dealt(count));
    lemma_dealt_prefix(count, count, Stage::Receive);
    lemma_dealt_prefix(count, count, Stage::Process);
    lemma_dealt_prefix(count, count, Stage::Send);
}

/// A complement of fewer than three nodes cannot cover the path, so none of
/// its nodes declares a stage — each runs whole tests — and it refuses
/// nothing.
pub proof fn lemma_too_few_declare_nothing(count: nat)
    requires
        count < 3,
    ensures
        !any_stage(dealt(count)),
        crate::roster::stage_refusal(dealt(count)) is None,
{
    let all = dealt(count);
    assert forall|i: int| 0 <= i < all.len() implies !crate::roster::declares_any(
        #[trigger] all[i].1,
    ) by {
        assert(all[i].1 == nothing());
    }
}

} // verus!
