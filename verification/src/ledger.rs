//! What the verdicts published under one node scope add up to: the
//! Streams in at Receive, the Journeys through Process, the Messages out at
//! Send and the bytes that moved — what an operator's stage cards count —
//! and the item each transport verdict is listed as; and, when a round
//! closes, the totals it publishes and the pairs that waited between their
//! turns, which keep their standing. The identity steps beneath a stage
//! count nothing: a Stream is received once, not once per identity step.

use vstd::prelude::*;

use crate::handoff::{append_padded, padded};
use crate::text::{same_chars, chars_of, string_views};
use crate::round_trip::{Outcome, OutcomeView};
use crate::stage::Stage;

verus! {

/// Which kind of item a stage produces.
#[derive(Clone, Copy, Debug, PartialEq, Eq, Structural)]
pub enum ItemKind {
    /// Received in.
    Stream,
    /// Carried through processing.
    Journey,
    /// Sent out.
    Message,
}

/// The kind of item a stage produces: Receive a Stream in, Process a
/// Journey through, Send a Message out.
pub fn item_kind(stage: Stage) -> (kind: ItemKind)
    ensures
        kind == (match stage {
            Stage::Receive => ItemKind::Stream,
            Stage::Process => ItemKind::Journey,
            Stage::Send => ItemKind::Message,
        }),
{
    match stage {
        Stage::Receive => ItemKind::Stream,
        Stage::Process => ItemKind::Journey,
        Stage::Send => ItemKind::Message,
    }
}

/// An item's detail line: what became of it.
pub open spec fn detail_of(outcome: OutcomeView) -> Seq<char> {
    match outcome {
        OutcomeView::Delivered => "delivered"@,
        OutcomeView::OneSided(why) => why,
        OutcomeView::Failed(why) => why,
    }
}

/// An item's detail line: `delivered`, or the reason it was not.
pub fn detail(outcome: &Outcome) -> (said: String)
    ensures
        said@ == detail_of(outcome@),
{
    match outcome {
        Outcome::Delivered => "delivered".to_owned(),
        Outcome::OneSided(why) => why.clone(),
        Outcome::Failed(why) => why.clone(),
    }
}

/// The cumulative throughput of one node scope.
#[derive(Clone, Copy, Debug, PartialEq, Eq, Structural)]
pub struct Throughput {
    /// Streams delivered in at Receive.
    pub streams: u64,
    /// Journeys delivered through Process.
    pub journeys: u64,
    /// Messages delivered out at Send.
    pub messages: u64,
    /// The bytes the delivered Messages moved.
    pub moved_bytes: u64,
}

/// The throughput once one verdict is counted: a delivered transport
/// verdict counts at its stage, and at Send its bytes moved; anything else
/// counts nothing.
pub open spec fn counted(
    before: Throughput,
    stage: Stage,
    transport: bool,
    delivered: bool,
    bytes: u64,
) -> Throughput {
    if transport && delivered {
        match stage {
            Stage::Receive => Throughput { streams: (before.streams + 1) as u64, ..before },
            Stage::Process => Throughput { journeys: (before.journeys + 1) as u64, ..before },
            Stage::Send => Throughput {
                messages: (before.messages + 1) as u64,
                moved_bytes: (before.moved_bytes + bytes) as u64,
                ..before
            },
        }
    } else {
        before
    }
}

/// Whether counting one more verdict at `stage` stays within the counters.
pub open spec fn room_for(before: Throughput, stage: Stage, bytes: u64) -> bool {
    match stage {
        Stage::Receive => before.streams < u64::MAX,
        Stage::Process => before.journeys < u64::MAX,
        Stage::Send => before.messages < u64::MAX && before.moved_bytes + bytes <= u64::MAX,
    }
}

impl Throughput {
    /// Nothing counted yet.
    pub fn new() -> (throughput: Self)
        ensures
            throughput == (Throughput { streams: 0, journeys: 0, messages: 0, moved_bytes: 0 }),
    {
        Throughput { streams: 0, journeys: 0, messages: 0, moved_bytes: 0 }
    }

    /// Count one verdict at `stage`: `transport` says it is the stage's own
    /// verdict rather than an identity step beneath it, `outcome` what it
    /// came to, `bytes` what it carried.
    pub fn count(&mut self, stage: Stage, transport: bool, outcome: &Outcome, bytes: u64)
        requires
            transport && outcome is Delivered ==> room_for(*old(self), stage, bytes),
        ensures
            *final(self) == counted(*old(self), stage, transport, outcome is Delivered, bytes),
    {
        let delivered = match outcome {
            Outcome::Delivered => true,
            _ => false,
        };
        if transport && delivered {
            match stage {
                Stage::Receive => self.streams = self.streams + 1,
                Stage::Process => self.journeys = self.journeys + 1,
                Stage::Send => {
                    self.messages = self.messages + 1;
                    self.moved_bytes = self.moved_bytes + bytes;
                },
            }
        }
    }
}


/// What a count counts at a node's scope.
#[derive(Clone, Copy, Debug, PartialEq, Eq, Structural)]
pub enum Counted {
    /// Streams received in.
    Streams,
    /// Journeys carried through processing.
    Journeys,
    /// Messages sent out.
    Messages,
    /// The bytes the Messages moved.
    Bytes,
}

/// One count published at a scope, over the window it covers.
#[derive(Clone, Debug)]
pub struct Count {
    pub scope: String,
    pub counted: Counted,
    pub value: u64,
    pub window_start_unix_nanos: i64,
    pub window_end_unix_nanos: i64,
    pub observed_unix_nanos: i64,
}

/// A count as plain values: scope, what it counts, and its value, all at
/// one moment.
pub open spec fn count_view(count: Count) -> (Seq<char>, Counted, u64, i64, i64, i64) {
    (
        count.scope@,
        count.counted,
        count.value,
        count.window_start_unix_nanos,
        count.window_end_unix_nanos,
        count.observed_unix_nanos,
    )
}

/// The counts a round closes with at `node`, at `now`: Streams, Journeys,
/// Messages and Bytes, in that order, each the running total.
pub open spec fn closing_counts(node: Seq<char>, throughput: Throughput, now: i64) -> Seq<
    (Seq<char>, Counted, u64, i64, i64, i64),
> {
    seq![
        (node, Counted::Streams, throughput.streams, now, now, now),
        (node, Counted::Journeys, throughput.journeys, now, now, now),
        (node, Counted::Messages, throughput.messages, now, now, now),
        (node, Counted::Bytes, throughput.moved_bytes, now, now, now),
    ]
}

/// One count at `node`, at `now`.
fn count_at(node: &str, counted: Counted, value: u64, now: i64) -> (count: Count)
    ensures
        count_view(count) == (node@, counted, value, now, now, now),
{
    Count {
        scope: node.to_owned(),
        counted,
        value,
        window_start_unix_nanos: now,
        window_end_unix_nanos: now,
        observed_unix_nanos: now,
    }
}

impl Throughput {
    /// What a round publishes of the throughput at the node scope `node`
    /// when it closes: the cumulative Streams, Journeys, Messages and Bytes
    /// that the stage cards count.
    pub fn counts(&self, node: &str, now: i64) -> (counts: Vec<Count>)
        ensures
            counts@.map_values(|count: Count| count_view(count)) == closing_counts(node@, *self, now),
    {
        let mut counts: Vec<Count> = Vec::new();
        counts.push(count_at(node, Counted::Streams, self.streams, now));
        counts.push(count_at(node, Counted::Journeys, self.journeys, now));
        counts.push(count_at(node, Counted::Messages, self.messages, now));
        counts.push(count_at(node, Counted::Bytes, self.moved_bytes, now));
        assert(counts@.map_values(|count: Count| count_view(count)) =~= closing_counts(
            node@,
            *self,
            now,
        ));
        counts
    }
}

/// An item the activity feed lists: what kind, under which pair's scope,
/// its number, the bytes it carried, what became of it, and when.
#[derive(Clone, Debug)]
pub struct Item {
    pub kind: ItemKind,
    pub scope: String,
    pub id: String,
    pub bytes: u64,
    pub detail: String,
    pub observed_unix_nanos: i64,
}

/// The item a transport verdict is listed as: the kind its stage makes,
/// numbered `sequence` in eight digits, with the verdict's bytes and what
/// became of it.
pub fn item(sequence: u64, stage: Stage, scope: &str, bytes: u64, outcome: &Outcome, now: i64) -> (item: Item)
    ensures
        item.kind == (match stage {
            Stage::Receive => ItemKind::Stream,
            Stage::Process => ItemKind::Journey,
            Stage::Send => ItemKind::Message,
        }),
        item.scope@ == scope@,
        item.id@ == padded(sequence as nat, 8),
        item.bytes == bytes,
        item.detail@ == detail_of(outcome@),
        item.observed_unix_nanos == now,
{
    let mut id = String::new();
    append_padded(&mut id, sequence, 8);
    Item {
        kind: item_kind(stage),
        scope: scope.to_owned(),
        id,
        bytes,
        detail: detail(outcome),
        observed_unix_nanos: now,
    }
}

/// The pairs that waited this round: those with a tally that published
/// nothing this round, in the order they are tallied. Each keeps its
/// standing on the board when the round closes.
pub open spec fn waited(tallied: Seq<Seq<char>>, published: Seq<Seq<char>>) -> Seq<Seq<char>> {
    tallied.filter(|scope: Seq<char>| !published.contains(scope))
}

/// Whether `scope` is one of `published`.
fn published_at(published: &[String], scope: &str) -> (found: bool)
    ensures
        found == string_views(published@).contains(scope@),
{
    let wanted = chars_of(scope);
    let ghost views = string_views(published@);
    let mut i: usize = 0;
    while i < published.len()
        invariant
            i <= published@.len(),
            views == string_views(published@),
            wanted@ == scope@,
            forall|j: int| 0 <= j < i ==> views[j] != scope@,
        decreases published@.len() - i,
    {
        let one = chars_of(published[i].as_str());
        if same_chars(one.as_slice(), wanted.as_slice()) {
            assert(views[i as int] == scope@);
            return true;
        }
        i = i + 1;
    }
    false
}

/// Of the scopes with a tally, in the order they are tallied, those that
/// published nothing this round: the pairs that waited between their turns,
/// whose standing the round republishes.
pub fn waiting(tallied: &[String], published: &[String]) -> (waited_scopes: Vec<String>)
    ensures
        string_views(waited_scopes@) == waited(string_views(tallied@), string_views(published@)),
{
    let ghost all = string_views(tallied@);
    let ghost said = string_views(published@);
    let ghost pick = |scope: Seq<char>| !said.contains(scope);
    let mut out: Vec<String> = Vec::new();
    assert(all.take(0).filter(pick) =~= Seq::<Seq<char>>::empty());
    let mut i: usize = 0;
    while i < tallied.len()
        invariant
            i <= tallied@.len(),
            all == string_views(tallied@),
            said == string_views(published@),
            pick == (|scope: Seq<char>| !said.contains(scope)),
            string_views(out@) == all.take(i as int).filter(pick),
        decreases tallied@.len() - i,
    {
        proof {
            assert(all.take(i as int + 1).drop_last() == all.take(i as int));
            assert(all.take(i as int + 1).last() == tallied@[i as int]@);
            reveal(Seq::filter);
        }
        if !published_at(published, tallied[i].as_str()) {
            proof {
                assert(string_views(out@.push(tallied@[i as int])) == string_views(out@).push(
                    tallied@[i as int]@,
                ));
            }
            out.push(tallied[i].clone());
        }
        i = i + 1;
    }
    assert(all.take(tallied@.len() as int) == all);
    out
}

} // verus!
