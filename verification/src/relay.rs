//! The relay: the one stage of the `RoundTrip` test a role node runs, and the
//! handoff to the node that runs the next. An `R` node takes its share of
//! the (transport x contract) matrix and lets each pair arrive; a `P` node
//! holds the contract over what is in its inbox; an `S` node sends it out
//! and closes the verdict. What delivered is handed on to the node of the
//! next role the pair hashes to; a stage that fails hands nothing on.
//!
//! What a round reads and decides lives here: which node a relay is for,
//! its share of the matrix and where its rotation stands, where a handoff
//! goes and under which sequence, what a judged pair comes to, and the
//! records a node publishes of its handoffs. Moving the bytes stays with
//! the caller.

use vstd::prelude::*;

use crate::handoff::{end_key, hop_views, link_key, recorded, HopView, Hops, Inbox};
use crate::health::{record_views, Health, HealthRecord, HealthRecordView};
use crate::number::{append_decimal, decimal};
use crate::pick::path_key;
use crate::role::{
    any_role, having, letter_of, next_of, picked_by, role_of, role_refusal, stage_of, takes, Role, Roster,
};
use crate::round_trip::{Outcome, OutcomeView};
use crate::stage::{stage_name, Stage};
use crate::text::{followed, spelled};

verus! {

/// How many pairs a relay drives a round until it is bounded otherwise.
pub const PER_ROUND: usize = 16;

/// The role the node called `name` relays for over `roster`: its own, when
/// that role has a stage, the roster can run the path, and the roster names
/// the node under it.
pub open spec fn relay_role(name: Seq<char>, roster: Seq<Seq<char>>) -> Option<Role> {
    let role = role_of(name);
    if stage_of(role) is Some && role_refusal(roster) is None && having(roster, role).contains(
        name,
    ) {
        Some(role)
    } else {
        None
    }
}

/// What a judged pair comes to at a stage: the outcome to publish, the bytes
/// the verdict counts, and whether the pair is handed on. An injected fault
/// decides first; else the stage's own work: what arrived whole at an `R`
/// node, the contract held at a `P` node, what went out at an `S` node. Only
/// an `S` node counts bytes, and only an `R` or a `P` node hands on, and only
/// what delivered.
pub open spec fn judgement(role: Role, fault: Option<OutcomeView>, done: Result<u64, OutcomeView>) -> (
    OutcomeView,
    u64,
    bool,
) {
    match fault {
        Some(outcome) => (outcome, 0, false),
        None => match done {
            Ok(bytes) => (
                OutcomeView::Delivered,
                if role == Role::Send {
                    bytes
                } else {
                    0
                },
                role != Role::Send,
            ),
            Err(outcome) => (outcome, 0, false),
        },
    }
}

/// Where a handoff goes from a node of `role`: the node of the next role
/// the pair hashes to, with the stage it drains there; the refusal when the
/// role hands to none, or the roster names no node of the next role.
pub open spec fn destination(
    role: Role,
    roster: Seq<Seq<char>>,
    transport: Seq<char>,
    contract: Seq<char>,
) -> Result<(Seq<char>, Stage), Seq<char>> {
    match next_of(role) {
        Some(next) => match picked_by(
            having(roster, next),
            path_key(letter_of(next), transport, contract),
        ) {
            Some(to) => Ok((to, stage_of(next)->0)),
            None => Err("no node to hand on to"@),
        },
        None => Err("no node to hand on to"@),
    }
}

/// The record of one link handed over: `<node>/handoff/<to>`, fine, with
/// how many handoffs went over it.
pub open spec fn link_record(node: Seq<char>, hop: HopView, now: i64) -> HealthRecordView {
    HealthRecordView {
        scope: node + "/handoff/"@ + hop.to,
        health: Health::Fine,
        severity: 0,
        evidence: decimal(hop.count as nat) + " handoffs to "@ + hop.to,
        observed_unix_nanos: now,
    }
}

/// The record of the inbox: `<node>/handoff/inbox`, how many handoffs wait
/// and how many arrived unreadable; stressed once any did.
pub open spec fn inbox_record(node: Seq<char>, waiting: nat, unreadable: u64, now: i64) -> HealthRecordView {
    HealthRecordView {
        scope: node + "/handoff/inbox"@,
        health: if unreadable > 0 {
            Health::Stressed
        } else {
            Health::Fine
        },
        severity: if unreadable > 0 {
            50
        } else {
            0
        },
        evidence: decimal(waiting) + " waiting, "@ + decimal(unreadable as nat) + " unreadable"@,
        observed_unix_nanos: now,
    }
}

/// Every record a relay of `role` publishes of its handoffs under `node`:
/// one per link, in the order they are filed, and one for the inbox unless
/// the relay receives (an `R` node has none).
pub open spec fn handoff_records_of(
    node: Seq<char>,
    hops: Seq<HopView>,
    role: Role,
    waiting: nat,
    unreadable: u64,
    now: i64,
) -> Seq<HealthRecordView> {
    let links = hops.map_values(|hop: HopView| link_record(node, hop, now));
    if role == Role::Receive {
        links
    } else {
        links.push(inbox_record(node, waiting, unreadable, now))
    }
}

/// The indices below `pairs` of the matrix that the `R` node `name` takes
/// among `receivers`, in order.
pub open spec fn share_of(receivers: Seq<Seq<char>>, name: Seq<char>, pairs: nat) -> Seq<usize>
    decreases pairs,
{
    if pairs == 0 {
        Seq::empty()
    } else {
        let before = share_of(receivers, name, (pairs - 1) as nat);
        if takes(receivers, name, pairs - 1) {
            before.push((pairs - 1) as usize)
        } else {
            before
        }
    }
}

/// A relay as plain values.
pub struct RelayView {
    pub name: Seq<char>,
    pub role: Role,
    pub roster: Seq<Seq<char>>,
    pub inbox: (Seq<char>, Seq<char>, Stage),
    pub hops: Seq<HopView>,
    pub round: u64,
    pub cursor: usize,
    pub per_round: usize,
    pub workers: usize,
    pub sequence: u64,
    pub unreadable: u64,
}

/// One role node's part in `RoundTrip`: who it is, the roster it hands
/// over in, its inbox, the links it has handed over, and where its rounds
/// stand.
#[derive(Debug)]
pub struct Relay {
    name: String,
    role: Role,
    roster: Roster,
    inbox: Inbox,
    hops: Hops,
    round: u64,
    cursor: usize,
    per_round: usize,
    workers: usize,
    sequence: u64,
    unreadable: u64,
}

impl View for Relay {
    type V = RelayView;

    closed spec fn view(&self) -> RelayView {
        RelayView {
            name: self.name@,
            role: self.role,
            roster: self.roster@,
            inbox: self.inbox@,
            hops: self.hops@,
            round: self.round,
            cursor: self.cursor,
            per_round: self.per_round,
            workers: self.workers,
            sequence: self.sequence,
            unreadable: self.unreadable,
        }
    }
}

/// Whether `name` is one of `names`.
fn listed(names: &Vec<&str>, name: &str) -> (found: bool)
    ensures
        found == crate::role::str_views(names@).contains(name@),
{
    let ghost views = crate::role::str_views(names@);
    let mut i: usize = 0;
    while i < names.len()
        invariant
            i <= names@.len(),
            views == crate::role::str_views(names@),
            forall|j: int| 0 <= j < i ==> views[j] != name@,
        decreases names@.len() - i,
    {
        if spelled(names[i], name) {
            assert(views[i as int] == name@);
            return true;
        }
        i = i + 1;
    }
    assert(!views.contains(name@));
    false
}

impl Relay {
    /// A relay is for a node the roster names under a role with a stage,
    /// drains that node's inbox at that stage, and drives at least one pair
    /// from at least one worker a round.
    #[verifier::type_invariant]
    closed spec fn runs(self) -> bool {
        &&& relay_role(self.name@, self.roster@) == Some(self.role)
        &&& self.inbox@.1 == self.name@
        &&& Some(self.inbox@.2) == stage_of(self.role)
        &&& self.per_round >= 1
        &&& self.workers >= 1
    }

    /// The relay of the node called `name` in `roster`, handing over through
    /// the directory `shared`. `None` when the name gives the node no role
    /// with a stage, the roster cannot run the path (a role is missing), or
    /// the roster does not name the node under its role.
    pub fn new(name: &str, roster: &Roster, shared: &str) -> (relay: Option<Self>)
        ensures
            match (relay, relay_role(name@, roster@)) {
                (Some(relay), Some(role)) => relay@ == (RelayView {
                    name: name@,
                    role,
                    roster: roster@,
                    inbox: (shared@, name@, stage_of(role)->0),
                    hops: Seq::empty(),
                    round: 0,
                    cursor: 0,
                    per_round: PER_ROUND,
                    workers: 1,
                    sequence: 0,
                    unreadable: 0,
                }),
                (None, None) => true,
                _ => false,
            },
    {
        let role = Role::of(name);
        let stage = match role.stage() {
            Some(stage) => stage,
            None => return None,
        };
        if roster.refusal().is_some() {
            return None;
        }
        let mine = roster.with(role);
        if !listed(&mine, name) {
            return None;
        }
        let mut own = String::new();
        own.append(name);
        Some(
            Relay {
                name: own,
                role,
                roster: roster.duplicate(),
                inbox: Inbox::of(shared, name, stage),
                hops: Hops::new(),
                round: 0,
                cursor: 0,
                per_round: PER_ROUND,
                workers: 1,
                sequence: 0,
                unreadable: 0,
            },
        )
    }

    /// The node this relay is for.
    pub fn name(&self) -> (name: &str)
        ensures
            name@ == self@.name,
    {
        self.name.as_str()
    }

    /// The role it relays for.
    pub fn role(&self) -> (role: Role)
        ensures
            role == self@.role,
            relay_role(self@.name, self@.roster) == Some(role),
    {
        proof {
            use_type_invariant(self);
        }
        self.role
    }

    /// The stage this relay runs.
    pub fn stage(&self) -> (stage: Stage)
        ensures
            stage_of(self@.role) == Some(stage),
            stage == self@.inbox.2,
    {
        proof {
            use_type_invariant(self);
        }
        self.inbox.stage()
    }

    /// The inbox it drains.
    pub fn inbox(&self) -> (inbox: &Inbox)
        ensures
            inbox@ == self@.inbox,
    {
        &self.inbox
    }

    /// The links this node has handed over, with their hops.
    pub fn hops(&self) -> (hops: &Hops)
        ensures
            hops@ == self@.hops,
    {
        &self.hops
    }

    /// How many rounds it has begun.
    pub fn round(&self) -> (round: u64)
        ensures
            round == self@.round,
    {
        self.round
    }

    /// Where its rotation through its share stands: the first pair the next
    /// round drives.
    pub fn cursor(&self) -> (cursor: usize)
        ensures
            cursor == self@.cursor,
    {
        self.cursor
    }

    /// How many handoffs it has sent on: the sequence the last went under.
    pub fn sequence(&self) -> (sequence: u64)
        ensures
            sequence == self@.sequence,
    {
        self.sequence
    }

    /// How many handoffs its claims found unreadable.
    pub fn unreadable(&self) -> (unreadable: u64)
        ensures
            unreadable == self@.unreadable,
    {
        self.unreadable
    }

    /// How many pairs it drives a round, at most.
    pub fn per_round(&self) -> (pairs: usize)
        ensures
            pairs == self@.per_round,
            pairs >= 1,
    {
        proof {
            use_type_invariant(self);
        }
        self.per_round
    }

    /// How many workers drive them.
    pub fn workers(&self) -> (workers: usize)
        ensures
            workers == self@.workers,
            workers >= 1,
    {
        proof {
            use_type_invariant(self);
        }
        self.workers
    }

    /// The same relay driving at most `pairs` pairs a round from `workers`
    /// workers at once, each at least one.
    pub fn bounded(self, pairs: usize, workers: usize) -> (relay: Self)
        ensures
            relay@ == (RelayView {
                per_round: if pairs == 0 {
                    1
                } else {
                    pairs
                },
                workers: if workers == 0 {
                    1
                } else {
                    workers
                },
                ..self@
            }),
    {
        let mut relay = self;
        proof {
            use_type_invariant(&relay);
        }
        relay.per_round = if pairs == 0 {
            1
        } else {
            pairs
        };
        relay.workers = if workers == 0 {
            1
        } else {
            workers
        };
        relay
    }

    /// Begin the next round, and say which it is.
    pub fn begin_round(&mut self) -> (round: u64)
        requires
            old(self)@.round < u64::MAX,
        ensures
            round == old(self)@.round + 1,
            final(self)@ == (RelayView { round, ..old(self)@ }),
    {
        proof {
            use_type_invariant(&*self);
        }
        self.round = self.round + 1;
        self.round
    }

    /// This node's share of a matrix of `pairs` pairs: the indices an `R`
    /// node receives, the index modulo the `R` count being its own place.
    pub fn share(&self, pairs: usize) -> (share: Vec<usize>)
        ensures
            share@ == share_of(having(self@.roster, Role::Receive), self@.name, pairs as nat),
    {
        let ghost receivers = having(self@.roster, Role::Receive);
        let mut share: Vec<usize> = Vec::new();
        let mut i: usize = 0;
        while i < pairs
            invariant
                i <= pairs,
                receivers == having(self@.roster, Role::Receive),
                share@ == share_of(receivers, self@.name, i as nat),
            decreases pairs - i,
        {
            if self.roster.receives(self.name.as_str(), i) {
                share.push(i);
            }
            i = i + 1;
        }
        share
    }

    /// Move the rotation on by the `taken` pairs this round drove, over a
    /// share of `share` pairs: the next round starts where this one ended,
    /// from the top once the share is through.
    pub fn advance(&mut self, taken: usize, share: usize)
        requires
            old(self)@.cursor + taken <= usize::MAX,
        ensures
            final(self)@ == (RelayView {
                cursor: ((old(self)@.cursor + taken) % (if share == 0 {
                    1
                } else {
                    share
                } as int)) as usize,
                ..old(self)@
            }),
    {
        proof {
            use_type_invariant(&*self);
        }
        let whole: usize = if share == 0 {
            1
        } else {
            share
        };
        self.cursor = (self.cursor + taken) % whole;
    }

    /// Count the handoffs a claim found unreadable.
    pub fn claimed(&mut self, unreadable: usize)
        requires
            old(self)@.unreadable + unreadable <= u64::MAX,
        ensures
            final(self)@ == (RelayView {
                unreadable: (old(self)@.unreadable + unreadable) as u64,
                ..old(self)@
            }),
    {
        proof {
            use_type_invariant(&*self);
        }
        self.unreadable = self.unreadable + unreadable as u64;
    }

    /// What a judged pair comes to at this node's stage, from the fault
    /// injected into it, if any, and else what the stage's own work came to:
    /// the bytes it moved, or the outcome when it did not deliver.
    pub fn judge(&self, fault: Option<Outcome>, done: Result<u64, Outcome>) -> (judged: (
        Outcome,
        u64,
        bool,
    ))
        ensures
            (judged.0@, judged.1, judged.2) == judgement(
                self@.role,
                match fault {
                    Some(outcome) => Some(outcome@),
                    None => None,
                },
                match done {
                    Ok(bytes) => Ok(bytes),
                    Err(outcome) => Err(outcome@),
                },
            ),
            judged.2 ==> judged.0 is Delivered,
    {
        match fault {
            Some(outcome) => (outcome, 0, false),
            None => match done {
                Ok(bytes) => {
                    let send = match self.role {
                        Role::Send => true,
                        _ => false,
                    };
                    (Outcome::Delivered, if send {
                        bytes
                    } else {
                        0
                    }, !send)
                },
                Err(outcome) => (outcome, 0, false),
            },
        }
    }

    /// Where a pair that delivered here goes next, and the sequence it is
    /// delivered under: the node of the next role the pair hashes to, so
    /// every sender picks the same one. The refusal when there is none to
    /// hand on to; then nothing is counted.
    pub fn hand_on(&mut self, transport: &str, contract: &str) -> (to: Result<(String, Stage, u64), String>)
        requires
            old(self)@.sequence < u64::MAX,
        ensures
            match (to, destination(old(self)@.role, old(self)@.roster, transport@, contract@)) {
                (Ok((node, stage, sequence)), Ok((expected, at))) => {
                    &&& node@ == expected
                    &&& stage == at
                    &&& sequence == old(self)@.sequence + 1
                    &&& final(self)@ == (RelayView { sequence, ..old(self)@ })
                },
                (Err(said), Err(expected)) => said@ == expected && final(self)@ == old(self)@,
                _ => false,
            },
    {
        proof {
            reveal_strlit("no node to hand on to");
        }
        proof {
            use_type_invariant(&*self);
        }
        let next = match self.role.next() {
            Some(next) => next,
            None => return Err("no node to hand on to".to_owned()),
        };
        let stage = match next.stage() {
            Some(stage) => stage,
            None => return Err("no node to hand on to".to_owned()),
        };
        let node = match self.roster.target(next, transport, contract) {
            Some(node) => node,
            None => return Err("no node to hand on to".to_owned()),
        };
        let mut to = String::new();
        to.append(node);
        self.sequence = self.sequence + 1;
        Ok((to, stage, self.sequence))
    }

    /// Record one handoff delivered to `to`, which drains it at `stage`, at
    /// `now`.
    pub fn delivered(&mut self, to: &str, stage: Stage, now: i64)
        requires
            forall|i: int|
                0 <= i < old(self)@.hops.len() && link_key(old(self)@.hops[i]) == (
                    end_key(old(self)@.name, stage_name(old(self)@.inbox.2)),
                    end_key(to@, stage_name(stage)),
                ) ==> old(self)@.hops[i].count < u64::MAX,
        ensures
            recorded(
                old(self)@.hops,
                final(self)@.hops,
                HopView {
                    from: old(self)@.name,
                    from_stage: stage_name(old(self)@.inbox.2),
                    to: to@,
                    to_stage: stage_name(stage),
                    count: 1,
                    last_unix_nanos: now,
                },
                now,
            ),
            final(self)@ == (RelayView { hops: final(self)@.hops, ..old(self)@ }),
    {
        proof {
            use_type_invariant(&*self);
        }
        let from = self.inbox.stage();
        let mut hops = Hops::new();
        std::mem::swap(&mut hops, &mut self.hops);
        assert(hops@ == old(self)@.hops);
        hops.record((self.name.as_str(), from), (to, stage), now);
        self.hops = hops;
    }

    /// The records this node publishes under `node` of its handoffs: one
    /// per link it handed over, and, unless it receives, one for its inbox
    /// with the `waiting` handoffs in it.
    pub fn handoff_records(&self, node: &str, waiting: usize, now: i64) -> (records: Vec<
        HealthRecord,
    >)
        ensures
            record_views(records@) == handoff_records_of(
                node@,
                self@.hops,
                self@.role,
                waiting as nat,
                self@.unreadable,
                now,
            ),
    {
        let links = self.hops.links();
        let ghost hops = hop_views(links@);
        let mut records: Vec<HealthRecord> = Vec::new();
        let mut i: usize = 0;
        while i < links.len()
            invariant
                i <= links@.len(),
                hops == hop_views(links@),
                hops == self@.hops,
                record_views(records@) == hops.take(i as int).map_values(
                    |hop: HopView| link_record(node@, hop, now),
                ),
            decreases links@.len() - i,
        {
            let hop = &links[i];
            let mut scope = followed(node, "/handoff/");
            scope.append(hop.to.as_str());
            let mut evidence = String::new();
            append_decimal(&mut evidence, hop.count);
            evidence.append(" handoffs to ");
            evidence.append(hop.to.as_str());
            let record = HealthRecord {
                scope,
                health: Health::Fine,
                severity: 0,
                evidence,
                observed_unix_nanos: now,
            };
            proof {
                assert(hops[i as int] == hop@);
                assert(record@ == link_record(node@, hops[i as int], now));
                assert(hops.take(i as int + 1) == hops.take(i as int).push(hops[i as int]));
                assert(record_views(records@.push(record)) == record_views(records@).push(record@));
            }
            records.push(record);
            i = i + 1;
        }
        assert(hops.take(links@.len() as int) == hops);
        match self.role {
            Role::Receive => {},
            _ => {
                let unreadable = self.unreadable;
                let mut evidence = String::new();
                append_decimal(&mut evidence, waiting as u64);
                evidence.append(" waiting, ");
                append_decimal(&mut evidence, unreadable);
                evidence.append(" unreadable");
                let stressed = unreadable > 0;
                let record = HealthRecord {
                    scope: followed(node, "/handoff/inbox"),
                    health: if stressed {
                        Health::Stressed
                    } else {
                        Health::Fine
                    },
                    severity: if stressed {
                        50
                    } else {
                        0
                    },
                    evidence,
                    observed_unix_nanos: now,
                };
                proof {
                    assert(record@ == inbox_record(node@, waiting as nat, unreadable, now));
                    assert(record_views(records@.push(record)) == record_views(records@).push(
                        record@,
                    ));
                }
                records.push(record);
            },
        }
        records
    }
}

/// Why a handoff to `to` was not delivered, from the error that stopped it.
pub fn delivery_failed(to: &str, error: &str) -> (said: String)
    ensures
        said@ == "handoff to "@ + to@ + " failed: "@ + error@,
{
    let mut said = followed("handoff to ", to);
    said.append(" failed: ");
    said.append(error);
    said
}

/// A verdict once its pair was handed on: as judged when the handoff went,
/// failed with the reason and counting nothing when it did not.
pub fn after_hand_on(outcome: Outcome, bytes: u64, failure: Option<String>) -> (settled: (
    Outcome,
    u64,
))
    ensures
        match failure {
            Some(why) => settled.0@ == OutcomeView::Failed(why@) && settled.1 == 0,
            None => settled.0@ == outcome@ && settled.1 == bytes,
        },
{
    match failure {
        Some(why) => (Outcome::Failed(why), 0),
        None => (outcome, bytes),
    }
}

/// What `having` keeps is on the list and has the role.
proof fn lemma_having_members(names: Seq<Seq<char>>, role: Role)
    ensures
        forall|x: Seq<char>|
            having(names, role).contains(x) ==> names.contains(x) && role_of(x) == role,
    decreases names.len(),
{
    if names.len() > 0 {
        let rest = names.drop_last();
        lemma_having_members(rest, role);
        let before = having(rest, role);
        assert forall|x: Seq<char>| having(names, role).contains(x) implies names.contains(x)
            && role_of(x) == role by {
            if before.contains(x) {
                let j = choose|j: int| 0 <= j < rest.len() && rest[j] == x;
                assert(names[j] == x);
            } else {
                let k = choose|k: int|
                    0 <= k < having(names, role).len() && having(names, role)[k] == x;
                assert(role_of(names.last()) == role);
                assert(k == before.len());
                assert(names[names.len() - 1] == x);
            }
        }
    }
}

/// A role on the path that a roster with no refusal lacks nobody for.
proof fn lemma_every_role_served(roster: Seq<Seq<char>>, role: Role)
    requires
        any_role(roster),
        role_refusal(roster) is None,
        role != Role::Whole,
    ensures
        having(roster, role).len() > 0,
{
}

/// A relay whose role hands on always finds a node to hand to: one the
/// roster names, of the next role on the path, draining it at that role's
/// stage. So a pair goes from `R` to `P` to `S`.
pub proof fn lemma_relay_hands_on(
    name: Seq<char>,
    roster: Seq<Seq<char>>,
    transport: Seq<char>,
    contract: Seq<char>,
)
    requires
        relay_role(name, roster) is Some,
        relay_role(name, roster)->0 != Role::Send,
    ensures
        match destination(relay_role(name, roster)->0, roster, transport, contract) {
            Ok((to, stage)) => {
                &&& roster.contains(to)
                &&& Some(role_of(to)) == next_of(relay_role(name, roster)->0)
                &&& stage_of(role_of(to)) == Some(stage)
            },
            Err(_) => false,
        },
{
    let role = relay_role(name, roster)->0;
    let next = next_of(role)->0;
    lemma_having_members(roster, role);
    let i = choose|i: int| 0 <= i < roster.len() && roster[i] == name;
    assert(role_of(roster[i]) != Role::Whole);
    lemma_every_role_served(roster, next);
    let key = path_key(letter_of(next), transport, contract);
    crate::role::lemma_target_serves(having(roster, next), key);
    lemma_having_members(roster, next);
}

/// The send role ends the path: no role follows it, and whatever its
/// stage judged, nothing goes on from it.
pub proof fn lemma_send_closes(
    roster: Seq<Seq<char>>,
    transport: Seq<char>,
    contract: Seq<char>,
    fault: Option<OutcomeView>,
    done: Result<u64, OutcomeView>,
)
    ensures
        destination(Role::Send, roster, transport, contract) is Err,
        !judgement(Role::Send, fault, done).2,
{
}

/// Only what delivered is handed on: an injected fault, or a stage that did
/// not deliver, hands nothing on.
pub proof fn lemma_only_delivered_is_handed_on(
    role: Role,
    fault: Option<OutcomeView>,
    done: Result<u64, OutcomeView>,
)
    ensures
        judgement(role, fault, done).2 ==> judgement(role, fault, done).0 is Delivered,
        fault is Some ==> !judgement(role, fault, done).2,
        done is Err ==> !judgement(role, fault, done).2,
{
}

/// An `R` node's share of the matrix is exactly the pairs it takes, each
/// once, in order.
pub proof fn lemma_share_is_taken(receivers: Seq<Seq<char>>, name: Seq<char>, pairs: nat)
    requires
        pairs <= usize::MAX,
    ensures
        forall|k: int|
            0 <= k < share_of(receivers, name, pairs).len() ==> (#[trigger] share_of(
                receivers,
                name,
                pairs,
            )[k]) < pairs && takes(receivers, name, share_of(receivers, name, pairs)[k] as int),
        forall|i: int|
            0 <= i < pairs && takes(receivers, name, i) ==> share_of(receivers, name, pairs).contains(
                i as usize,
            ),
        forall|k: int, l: int|
            0 <= k < l < share_of(receivers, name, pairs).len() ==> share_of(receivers, name, pairs)[k]
                < share_of(receivers, name, pairs)[l],
    decreases pairs,
{
    if pairs > 0 {
        let before = share_of(receivers, name, (pairs - 1) as nat);
        lemma_share_is_taken(receivers, name, (pairs - 1) as nat);
        let all = share_of(receivers, name, pairs);
        if takes(receivers, name, pairs - 1) {
            assert(all == before.push((pairs - 1) as usize));
            assert forall|i: int| 0 <= i < pairs && takes(receivers, name, i) implies all.contains(
                i as usize,
            ) by {
                if i < pairs - 1 {
                    let k = choose|k: int| 0 <= k < before.len() && before[k] == i as usize;
                    assert(all[k] == i as usize);
                } else {
                    assert(all[before.len() as int] == i as usize);
                }
            }
        } else {
            assert(all == before);
        }
    }
}

/// Receivers share the matrix: each pair is in the share of the receiver
/// standing at its index modulo their count, and in no other's.
pub proof fn lemma_shares_partition(receivers: Seq<Seq<char>>, pairs: nat, index: int)
    requires
        receivers.len() > 0,
        receivers.no_duplicates(),
        0 <= index < pairs,
        pairs <= usize::MAX,
    ensures
        share_of(receivers, receivers[index % (receivers.len() as int)], pairs).contains(
            index as usize,
        ),
        forall|a: Seq<char>, b: Seq<char>|
            share_of(receivers, a, pairs).contains(index as usize) && share_of(
                receivers,
                b,
                pairs,
            ).contains(index as usize) ==> a == b,
{
    crate::role::lemma_one_receiver(receivers, index);
    lemma_share_is_taken(receivers, receivers[index % (receivers.len() as int)], pairs);
    assert forall|a: Seq<char>, b: Seq<char>|
        share_of(receivers, a, pairs).contains(index as usize) && share_of(
            receivers,
            b,
            pairs,
        ).contains(index as usize) implies a == b by {
        lemma_share_is_taken(receivers, a, pairs);
        lemma_share_is_taken(receivers, b, pairs);
        let k = choose|k: int|
            0 <= k < share_of(receivers, a, pairs).len() && share_of(receivers, a, pairs)[k]
                == index as usize;
        let l = choose|l: int|
            0 <= l < share_of(receivers, b, pairs).len() && share_of(receivers, b, pairs)[l]
                == index as usize;
        assert(takes(receivers, a, index));
        assert(takes(receivers, b, index));
    }
}

} // verus!
