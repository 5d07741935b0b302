//! What the communication topology draws between the stages of a cluster:
//! one handoff link per pair of stages that the roster configures to
//! exchange them or that exchanged any — configured, observed or both, said
//! on the link — and the ids the drawing gives the things it draws. A link
//! is there because the roster declares it or a hop was delivered over it;
//! nothing is inferred from a node's name.

use vstd::prelude::*;

use crate::capability::{serves, stage_named, stage_of_word, Capability};
use crate::handoff::{Hop, HopView};
use crate::health::{Health, HealthRecord, HealthRecordView};
use crate::number::{append_decimal, decimal};
use crate::role::str_views;
use crate::roster::{serving, Entry, Roster};
use crate::stage::{stage_name, Stage};
use crate::text::{chars_of, comes_before, followed, precedes, push_char, string_of};

verus! {

/// The id of the node called `name`: `node/<name>`.
pub open spec fn node_id_of(name: Seq<char>) -> Seq<char> {
    "node/"@ + name
}

/// The id of the node called `name`.
pub fn node_id(name: &str) -> (id: String)
    ensures
        id@ == node_id_of(name@),
{
    followed("node/", name)
}

/// Whether the last `/` of `scope` stands at `at`.
pub open spec fn last_slash(scope: Seq<char>, at: int) -> bool {
    &&& 0 <= at < scope.len()
    &&& scope[at] == '/'
    &&& forall|j: int| at < j < scope.len() ==> scope[j] != '/'
}

/// The last segment of a scope: what stands after its last `/`, or the
/// whole scope where it has none.
pub open spec fn label_of(scope: Seq<char>) -> Seq<char> {
    if exists|at: int| last_slash(scope, at) {
        scope.skip((choose|at: int| last_slash(scope, at)) + 1)
    } else {
        scope
    }
}

/// The last segment of a scope: what a thing is called.
pub fn label(scope: &str) -> (name: String)
    ensures
        name@ == label_of(scope@),
{
    let chars = chars_of(scope);
    let n = chars.len();
    let mut at = n;
    while at > 0 && chars[at - 1] != '/'
        invariant
            at <= n == chars@.len(),
            forall|j: int| at <= j < n ==> chars@[j] != '/',
        decreases at,
    {
        at = at - 1;
    }
    if at == 0 {
        assert(forall|k: int| !last_slash(scope@, k));
        return string_of(chars.as_slice());
    }
    proof {
        assert(last_slash(scope@, at - 1));
        assert forall|other: int| last_slash(scope@, other) implies other == at - 1 by {
            if other < at - 1 {
                assert(scope@[at - 1] == '/');
            } else if other > at - 1 {
                assert(scope@[other] == '/');
            }
        }
    }
    let (_, after) = chars.as_slice().split_at(at);
    string_of(after)
}

/// A pair of stages a handoff runs between: the sending node and the stage
/// it left, the receiving node and the stage it was delivered to.
pub type Pair = (String, Stage, String, Stage);

/// A pair of stages as plain values.
pub type PairView = (Seq<char>, Stage, Seq<char>, Stage);

/// The plain values of a pair.
pub open spec fn pair_view(pair: Pair) -> PairView {
    (pair.0@, pair.1, pair.2@, pair.3)
}

/// Every sender of `from` paired with every receiver of `to`, senders in
/// order, each with the receivers in order.
pub open spec fn pairs_between(
    senders: Seq<Seq<char>>,
    from: Stage,
    receivers: Seq<Seq<char>>,
    to: Stage,
) -> Seq<PairView>
    decreases senders.len(),
{
    if senders.len() == 0 {
        Seq::empty()
    } else {
        pairs_between(senders.drop_last(), from, receivers, to) + receivers.map_values(
            |receiver: Seq<char>| (senders.last(), from, receiver, to),
        )
    }
}

/// Every pair of stages a roster configures a handoff between: receive to
/// process, then process to send, over the nodes that declared each, in the
/// order they were named.
pub open spec fn configured(entries: Seq<Entry>) -> Seq<PairView> {
    pairs_between(
        serving(entries, Stage::Receive),
        Stage::Receive,
        serving(entries, Stage::Process),
        Stage::Process,
    ) + pairs_between(
        serving(entries, Stage::Process),
        Stage::Process,
        serving(entries, Stage::Send),
        Stage::Send,
    )
}

/// Every pair of stages the roster configures a handoff between: receive
/// to process, process to send, over the nodes that declared each, in the
/// order they were named.
pub fn configured_pairs(roster: &Roster) -> (pairs: Vec<Pair>)
    ensures
        pairs@.map_values(|pair: Pair| pair_view(pair)) == configured(roster@),
{
    let mut pairs: Vec<Pair> = Vec::new();
    assert(pairs@.map_values(|pair: Pair| pair_view(pair)) =~= Seq::<PairView>::empty());
    add_pairs(&mut pairs, roster, Stage::Receive, Stage::Process);
    add_pairs(&mut pairs, roster, Stage::Process, Stage::Send);
    assert(Seq::<PairView>::empty() + configured(roster@) =~= configured(roster@));
    pairs
}

/// The pairs from every node serving `from` to every node serving `to`,
/// put after those already there.
fn add_pairs(pairs: &mut Vec<Pair>, roster: &Roster, from: Stage, to: Stage)
    ensures
        final(pairs)@.map_values(|pair: Pair| pair_view(pair)) == old(pairs)@.map_values(
            |pair: Pair| pair_view(pair),
        ) + pairs_between(serving(roster@, from), from, serving(roster@, to), to),
{
    let senders = roster.with(from);
    let receivers = roster.with(to);
    let ghost sent = str_views(senders@);
    let ghost taking = str_views(receivers@);
    let ghost start = old(pairs)@.map_values(|pair: Pair| pair_view(pair));
    let mut s: usize = 0;
    assert(sent.take(0) =~= Seq::<Seq<char>>::empty());
    assert(start + pairs_between(sent.take(0), from, taking, to) =~= start);
    while s < senders.len()
        invariant
            s <= senders@.len(),
            sent == str_views(senders@),
            taking == str_views(receivers@),
            start == old(pairs)@.map_values(|pair: Pair| pair_view(pair)),
            pairs@.map_values(|pair: Pair| pair_view(pair)) == start + pairs_between(
                sent.take(s as int),
                from,
                taking,
                to,
            ),
        decreases senders@.len() - s,
    {
        let ghost so_far = pairs@.map_values(|pair: Pair| pair_view(pair));
        let ghost sender = sent[s as int];
        let ghost row = taking.map_values(|receiver: Seq<char>| (sender, from, receiver, to));
        let mut r: usize = 0;
        assert(so_far + row.take(0) =~= so_far);
        while r < receivers.len()
            invariant
                s < senders@.len(),
                r <= receivers@.len(),
                sent == str_views(senders@),
                taking == str_views(receivers@),
                sender == sent[s as int],
                row == taking.map_values(|receiver: Seq<char>| (sender, from, receiver, to)),
                pairs@.map_values(|pair: Pair| pair_view(pair)) == so_far + row.take(r as int),
            decreases receivers@.len() - r,
        {
            let pair: Pair = (senders[s].to_owned(), from, receivers[r].to_owned(), to);
            proof {
                assert(pair_view(pair) == row[r as int]);
                assert(row.take(r as int + 1) == row.take(r as int).push(row[r as int]));
            }
            let ghost before = pairs@;
            pairs.push(pair);
            proof {
                assert(pairs@.map_values(|pair: Pair| pair_view(pair)) =~= before.map_values(
                    |pair: Pair| pair_view(pair),
                ).push(row[r as int]));
                assert(pairs@.map_values(|pair: Pair| pair_view(pair)) =~= so_far + row.take(
                    r as int + 1,
                ));
            }
            r = r + 1;
        }
        proof {
            assert(row.take(r as int) == row);
            assert(sent.take(s as int + 1).drop_last() == sent.take(s as int));
            assert(sent.take(s as int + 1).last() == sender);
            assert(start + pairs_between(sent.take(s as int + 1), from, taking, to) =~= so_far
                + row);
        }
        s = s + 1;
    }
    assert(sent.take(senders@.len() as int) == sent);
}


/// A link the drawing shows: its pair of stages, whether the roster
/// configures it, and how many handoffs went over it.
#[derive(Debug)]
pub struct Link {
    pub pair: Pair,
    pub configured: bool,
    pub count: u64,
}

/// A link as plain values.
pub type LinkView = (PairView, bool, nat);

/// The plain values of a link.
pub open spec fn link_view(link: Link) -> LinkView {
    (pair_view(link.pair), link.configured, link.count as nat)
}

/// The pair a hop went over, where both its stages are named.
pub open spec fn hop_pair(hop: HopView) -> Option<PairView> {
    match (stage_of_word(hop.from_stage), stage_of_word(hop.to_stage)) {
        (Some(from), Some(to)) => Some((hop.from, from, hop.to, to)),
        _ => None,
    }
}

/// Whether the first link over `pair` stands at `at`.
pub open spec fn first_with(links: Seq<LinkView>, pair: PairView, at: int) -> bool {
    &&& 0 <= at < links.len()
    &&& links[at].0 == pair
    &&& forall|j: int| 0 <= j < at ==> (#[trigger] links[j]).0 != pair
}

/// The links once one hop is counted: its handoffs added to the first link
/// over its pair, or a link observed over a pair nobody configured; a hop
/// whose stages are not named is passed over.
pub open spec fn with_hop(links: Seq<LinkView>, hop: HopView) -> Seq<LinkView> {
    match hop_pair(hop) {
        None => links,
        Some(pair) => if exists|at: int| first_with(links, pair, at) {
            let at = choose|at: int| first_with(links, pair, at);
            links.update(at, (pair, links[at].1, (links[at].2 + hop.count) as nat))
        } else {
            links.push((pair, false, hop.count as nat))
        },
    }
}

/// The links once every hop is counted, in order.
pub open spec fn with_hops(links: Seq<LinkView>, hops: Seq<HopView>) -> Seq<LinkView>
    decreases hops.len(),
{
    if hops.len() == 0 {
        links
    } else {
        with_hop(with_hops(links, hops.drop_last()), hops.last())
    }
}

/// What `handoff_links` answers: the configured pairs first, none counted
/// yet, then every hop counted onto them.
pub open spec fn linked(configured_by: Option<Seq<Entry>>, hops: Seq<HopView>) -> Seq<LinkView> {
    let start = match configured_by {
        Some(entries) => configured(entries).map_values(|pair: PairView| (pair, true, 0nat)),
        None => Seq::empty(),
    };
    with_hops(start, hops)
}

/// Whether `later` keeps every link of `earlier` where it stood, counted no
/// less, and perhaps more links after them.
pub open spec fn grown(earlier: Seq<LinkView>, later: Seq<LinkView>) -> bool {
    &&& earlier.len() <= later.len()
    &&& forall|i: int|
        0 <= i < earlier.len() ==> (#[trigger] earlier[i]).0 == later[i].0 && earlier[i].1
            == later[i].1 && earlier[i].2 <= later[i].2
}

/// Counting hops only ever grows the links.
proof fn lemma_hops_grow(links: Seq<LinkView>, hops: Seq<HopView>, k: int)
    requires
        0 <= k <= hops.len(),
    ensures
        grown(with_hops(links, hops.take(k)), with_hops(links, hops)),
    decreases hops.len() - k,
{
    if k == hops.len() {
        assert(hops.take(k) == hops);
    } else {
        lemma_hops_grow(links, hops, k + 1);
        let before = with_hops(links, hops.take(k));
        assert(hops.take(k + 1).drop_last() == hops.take(k));
        assert(hops.take(k + 1).last() == hops[k]);
        let after = with_hops(links, hops.take(k + 1));
        assert(after == with_hop(before, hops[k]));
        assert(grown(before, after));
    }
}

/// Whether no two links run over one pair.
pub open spec fn once_each(links: Seq<LinkView>) -> bool {
    forall|i: int, j: int|
        0 <= i < j < links.len() ==> (#[trigger] links[i]).0 != (#[trigger] links[j]).0
}

/// Counting one hop keeps every pair once.
proof fn lemma_hop_keeps_once(links: Seq<LinkView>, hop: HopView)
    requires
        once_each(links),
    ensures
        once_each(with_hop(links, hop)),
{
    match hop_pair(hop) {
        None => {},
        Some(pair) => {
            if exists|at: int| first_with(links, pair, at) {
                let at = choose|at: int| first_with(links, pair, at);
                let after = links.update(at, (pair, links[at].1, (links[at].2 + hop.count) as nat));
                assert forall|i: int, j: int| 0 <= i < j < after.len() implies (
                #[trigger] after[i]).0 != (#[trigger] after[j]).0 by {
                    assert(after[i].0 == links[i].0);
                    assert(after[j].0 == links[j].0);
                }
            } else {
                let after = links.push((pair, false, hop.count as nat));
                assert forall|i: int, j: int| 0 <= i < j < after.len() implies (
                #[trigger] after[i]).0 != (#[trigger] after[j]).0 by {
                    if j == links.len() {
                        // a link over the pair would be the only one, so the first
                        assert(!first_with(links, pair, i));
                    } else {
                        assert(after[i] == links[i] && after[j] == links[j]);
                    }
                }
            }
        },
    }
}

/// Counting hops keeps every pair once.
proof fn lemma_hops_keep_once(links: Seq<LinkView>, hops: Seq<HopView>)
    requires
        once_each(links),
    ensures
        once_each(with_hops(links, hops)),
    decreases hops.len(),
{
    if hops.len() > 0 {
        lemma_hops_keep_once(links, hops.drop_last());
        lemma_hop_keeps_once(with_hops(links, hops.drop_last()), hops.last());
    }
}

/// The nodes that declared a stage are nodes of the roster, each once when
/// the roster names each once.
proof fn lemma_serving_once(entries: Seq<Entry>, stage: Stage)
    ensures
        forall|x: Seq<char>|
            serving(entries, stage).contains(x) ==> crate::roster::entry_names(entries).contains(x),
        crate::roster::entry_names(entries).no_duplicates() ==> serving(entries, stage).no_duplicates(),
    decreases entries.len(),
{
    if entries.len() > 0 {
        let rest = entries.drop_last();
        lemma_serving_once(rest, stage);
        let names = crate::roster::entry_names(entries);
        let before = serving(rest, stage);
        assert(crate::roster::entry_names(rest) =~= names.drop_last());
        assert forall|x: Seq<char>| serving(entries, stage).contains(x) implies names.contains(x) by {
            if before.contains(x) {
                let rest_names = crate::roster::entry_names(rest);
                assert(rest_names.contains(x));
                let k = choose|k: int| 0 <= k < rest_names.len() && rest_names[k] == x;
                assert(names[k] == x);
            } else {
                assert(names[names.len() - 1] == entries.last().0);
            }
        }
        if names.no_duplicates() {
            assert(names.drop_last().no_duplicates()) by {
                assert forall|i: int, j: int|
                    0 <= i < j < names.drop_last().len() implies names.drop_last()[i]
                    != names.drop_last()[j] by {
                    assert(names.drop_last()[i] == names[i] && names.drop_last()[j] == names[j]);
                }
            }
            if serves(entries.last().1, stage) {
                let last = entries.last().0;
                assert(!before.contains(last)) by {
                    if before.contains(last) {
                        let rest_names = crate::roster::entry_names(rest);
                        assert(rest_names.contains(last));
                        let k = choose|k: int| 0 <= k < rest_names.len() && rest_names[k] == last;
                        assert(names[k] == last);
                        assert(names[names.len() - 1] == last);
                    }
                }
                let after = before.push(last);
                assert forall|i: int, j: int| 0 <= i < j < after.len() implies after[i]
                    != after[j] by {
                    if j == before.len() {
                        assert(before.contains(after[i]));
                    }
                }
            }
        }
    }
}

/// Every pair between two lists of nodes is a sender of the first and a
/// receiver of the second, between the two stages; and each is there once
/// when each list names each node once.
proof fn lemma_pairs_once(senders: Seq<Seq<char>>, from: Stage, receivers: Seq<Seq<char>>, to: Stage)
    ensures
        forall|p: PairView|
            pairs_between(senders, from, receivers, to).contains(p) ==> senders.contains(p.0)
                && p.1 == from && receivers.contains(p.2) && p.3 == to,
        senders.no_duplicates() && receivers.no_duplicates() ==> pairs_between(
            senders,
            from,
            receivers,
            to,
        ).no_duplicates(),
    decreases senders.len(),
{
    if senders.len() > 0 {
        let rest = senders.drop_last();
        let sender = senders.last();
        lemma_pairs_once(rest, from, receivers, to);
        let before = pairs_between(rest, from, receivers, to);
        let block = receivers.map_values(|receiver: Seq<char>| (sender, from, receiver, to));
        let all = pairs_between(senders, from, receivers, to);
        assert(all == before + block);
        assert forall|p: PairView| all.contains(p) implies senders.contains(p.0) && p.1 == from
            && receivers.contains(p.2) && p.3 == to by {
            let k = choose|k: int| 0 <= k < all.len() && all[k] == p;
            if k < before.len() {
                assert(before[k] == p);
                assert(before.contains(p));
                let m = choose|m: int| 0 <= m < rest.len() && rest[m] == p.0;
                assert(senders[m] == p.0);
            } else {
                assert(block[k - before.len()] == p);
                assert(receivers[k - before.len()] == p.2);
                assert(senders[senders.len() - 1] == p.0);
            }
        }
        if senders.no_duplicates() && receivers.no_duplicates() {
            assert(rest.no_duplicates()) by {
                assert forall|i: int, j: int| 0 <= i < j < rest.len() implies rest[i] != rest[j] by {
                    assert(rest[i] == senders[i] && rest[j] == senders[j]);
                }
            }
            assert forall|i: int, j: int| 0 <= i < j < all.len() implies all[i] != all[j] by {
                if j < before.len() {
                    assert(all[i] == before[i] && all[j] == before[j]);
                } else if i >= before.len() {
                    assert(all[i] == block[i - before.len()] && all[j] == block[j - before.len()]);
                    assert(receivers[i - before.len()] != receivers[j - before.len()]);
                } else {
                    assert(all[i] == before[i]);
                    assert(before.contains(before[i]));
                    assert(rest.contains(before[i].0));
                    assert(all[j].0 == sender);
                    if rest.contains(sender) {
                        let m = choose|m: int| 0 <= m < rest.len() && rest[m] == sender;
                        assert(senders[m] == senders[senders.len() - 1]);
                    }
                }
            }
        }
    }
}

/// The pairs a roster configures are each there once when the roster names
/// each node once.
proof fn lemma_configured_once(entries: Seq<Entry>)
    requires
        crate::roster::entry_names(entries).no_duplicates(),
    ensures
        configured(entries).no_duplicates(),
{
    let r = serving(entries, Stage::Receive);
    let p = serving(entries, Stage::Process);
    let sd = serving(entries, Stage::Send);
    lemma_serving_once(entries, Stage::Receive);
    lemma_serving_once(entries, Stage::Process);
    lemma_serving_once(entries, Stage::Send);
    lemma_pairs_once(r, Stage::Receive, p, Stage::Process);
    lemma_pairs_once(p, Stage::Process, sd, Stage::Send);
    let first = pairs_between(r, Stage::Receive, p, Stage::Process);
    let second = pairs_between(p, Stage::Process, sd, Stage::Send);
    let all = configured(entries);
    assert(all == first + second);
    assert forall|i: int, j: int| 0 <= i < j < all.len() implies all[i] != all[j] by {
        if j < first.len() {
            assert(all[i] == first[i] && all[j] == first[j]);
        } else if i >= first.len() {
            assert(all[i] == second[i - first.len()] && all[j] == second[j - first.len()]);
        } else {
            assert(first.contains(all[i]));
            assert(second.contains(all[j]));
        }
    }
}

/// Every pair of stages is drawn once: the links a roster configures and the
/// hops counted onto them never run twice over one pair, whatever the hops,
/// when the roster names each node once (and with no roster at all).
pub proof fn lemma_each_pair_drawn_once(configured_by: Option<Seq<Entry>>, hops: Seq<HopView>)
    requires
        match configured_by {
            Some(entries) => crate::roster::entry_names(entries).no_duplicates(),
            None => true,
        },
    ensures
        once_each(linked(configured_by, hops)),
{
    let start = match configured_by {
        Some(entries) => configured(entries).map_values(|pair: PairView| (pair, true, 0nat)),
        None => Seq::empty(),
    };
    match configured_by {
        Some(entries) => {
            lemma_configured_once(entries);
            let pairs = configured(entries);
            assert forall|i: int, j: int| 0 <= i < j < start.len() implies (#[trigger] start[i]).0
                != (#[trigger] start[j]).0 by {
                assert(start[i].0 == pairs[i] && start[j].0 == pairs[j]);
            }
        },
        None => {},
    }
    lemma_hops_keep_once(start, hops);
}

/// The plain value of the roster a run configures links by, if any.
pub open spec fn roster_view(roster: Option<&Roster>) -> Option<Seq<Entry>> {
    match roster {
        Some(roster) => Some(roster@),
        None => None,
    }
}

/// Whether every link's count fits in a `u64`.
pub open spec fn counts_fit(links: Seq<LinkView>) -> bool {
    forall|i: int| 0 <= i < links.len() ==> (#[trigger] links[i]).2 <= u64::MAX
}

/// The handoff links to draw: the pairs the roster configures, when the
/// run hands `RoundTrip` along its stages, each counted by the hops
/// delivered over it; then every pair a hop went over that nobody
/// configured, as it was first seen. A hop whose stages are not named is
/// passed over.
pub fn handoff_links(configured_by: Option<&Roster>, hops: &[Hop]) -> (links: Vec<Link>)
    requires
        counts_fit(linked(roster_view(configured_by), crate::handoff::hop_views(hops@))),
    ensures
        links@.map_values(|link: Link| link_view(link)) == linked(
            roster_view(configured_by),
            crate::handoff::hop_views(hops@),
        ),
{
    let ghost said = roster_view(configured_by);
    let ghost all = crate::handoff::hop_views(hops@);
    let ghost start = match said {
        Some(entries) => configured(entries).map_values(|pair: PairView| (pair, true, 0nat)),
        None => Seq::<LinkView>::empty(),
    };
    let mut links: Vec<Link> = Vec::new();
    if let Some(roster) = configured_by {
        let pairs = configured_pairs(roster);
        let ghost views = pairs@.map_values(|pair: Pair| pair_view(pair));
        let mut i: usize = 0;
        while i < pairs.len()
            invariant
                i <= pairs@.len(),
                views == pairs@.map_values(|pair: Pair| pair_view(pair)),
                links@.map_values(|link: Link| link_view(link)) == views.take(i as int).map_values(
                    |pair: PairView| (pair, true, 0nat),
                ),
            decreases pairs@.len() - i,
        {
            let pair: Pair = (
                pairs[i].0.clone(),
                pairs[i].1,
                pairs[i].2.clone(),
                pairs[i].3,
            );
            let ghost before = links@;
            links.push(Link { pair, configured: true, count: 0 });
            proof {
                assert(pair_view(pair) == views[i as int]);
                assert(links@.map_values(|link: Link| link_view(link)) =~= before.map_values(
                    |link: Link| link_view(link),
                ).push((views[i as int], true, 0nat)));
                assert(views.take(i as int + 1).map_values(|pair: PairView| (pair, true, 0nat))
                    =~= views.take(i as int).map_values(|pair: PairView| (pair, true, 0nat)).push(
                    (views[i as int], true, 0nat),
                ));
            }
            i = i + 1;
        }
        assert(views.take(pairs@.len() as int) == views);
    } else {
        assert(links@.map_values(|link: Link| link_view(link)) =~= start);
    }
    assert(all.take(0) =~= Seq::<HopView>::empty());
    let mut k: usize = 0;
    while k < hops.len()
        invariant
            k <= hops@.len(),
            all == crate::handoff::hop_views(hops@),
            counts_fit(with_hops(start, all)),
            links@.map_values(|link: Link| link_view(link)) == with_hops(start, all.take(k as int)),
        decreases hops@.len() - k,
    {
        let ghost current = links@.map_values(|link: Link| link_view(link));
        let hop = &hops[k];
        proof {
            assert(all.take(k as int + 1).drop_last() == all.take(k as int));
            assert(all.take(k as int + 1).last() == hop@);
            lemma_hops_grow(start, all, k as int + 1);
        }
        let from = stage_named(chars_of(hop.from_stage.as_str()).as_slice());
        let to = stage_named(chars_of(hop.to_stage.as_str()).as_slice());
        if let (Some(from), Some(to)) = (from, to) {
            let pair: Pair = (hop.from.clone(), from, hop.to.clone(), to);
            assert(hop_pair(hop@) == Some(pair_view(pair)));
            let mut at: usize = 0;
            while at < links.len()
                invariant
                    at <= links@.len(),
                    current == links@.map_values(|link: Link| link_view(link)),
                    forall|j: int| 0 <= j < at ==> (#[trigger] current[j]).0 != pair_view(pair),
                ensures
                    at <= links@.len(),
                    forall|j: int| 0 <= j < at ==> (#[trigger] current[j]).0 != pair_view(pair),
                    at < links@.len() ==> current[at as int].0 == pair_view(pair),
                decreases links@.len() - at,
            {
                if same_pair(&links[at].pair, &pair) {
                    break;
                }
                at = at + 1;
            }
            if at < links.len() {
                proof {
                    assert(first_with(current, pair_view(pair), at as int));
                    assert forall|other: int| first_with(current, pair_view(pair), other) implies other
                        == at by {
                        if other < at {
                            assert(current[other].0 != pair_view(pair));
                        } else if other > at {
                            assert(current[at as int].0 == pair_view(pair));
                        }
                    }
                    let next = with_hops(start, all.take(k as int + 1));
                    assert(next == current.update(
                        at as int,
                        (pair_view(pair), current[at as int].1, (current[at as int].2 + hop.count) as nat),
                    ));
                    assert(next[at as int].2 <= with_hops(start, all)[at as int].2);
                }
                let updated = Link {
                    pair,
                    configured: links[at].configured,
                    count: links[at].count + hop.count,
                };
                let ghost before = links@;
                links.set(at, updated);
                proof {
                    assert(links@.map_values(|link: Link| link_view(link)) =~= current.update(
                        at as int,
                        link_view(updated),
                    ));
                }
            } else {
                proof {
                    assert(!exists|other: int| first_with(current, pair_view(pair), other)) by {
                        if exists|other: int| first_with(current, pair_view(pair), other) {
                            let other = choose|other: int| first_with(current, pair_view(pair), other);
                            assert(current[other].0 != pair_view(pair));
                        }
                    }
                }
                let ghost before = links@;
                links.push(Link { pair, configured: false, count: hop.count });
                proof {
                    assert(links@.map_values(|link: Link| link_view(link)) =~= before.map_values(
                        |link: Link| link_view(link),
                    ).push((pair_view(pair), false, hop.count as nat)));
                }
            }
        }
        k = k + 1;
    }
    assert(all.take(hops@.len() as int) == all);
    links
}

/// Whether two pairs are the same nodes at the same stages.
fn same_pair(a: &Pair, b: &Pair) -> (same: bool)
    ensures
        same == (pair_view(*a) == pair_view(*b)),
{
    crate::text::spelled(a.0.as_str(), b.0.as_str()) && a.1 == b.1 && crate::text::spelled(
        a.2.as_str(),
        b.2.as_str(),
    ) && a.3 == b.3
}

/// Where a link comes from: the roster, a delivered hop, or both.
#[derive(Clone, Copy, Debug, PartialEq, Eq, Structural)]
pub enum Origin {
    /// The roster declares it; nothing went over it yet.
    Configured,
    /// Handoffs went over it, and no configuration declares it.
    Observed,
    /// The roster declares it and handoffs went over it.
    Both,
}

/// What a link from `sender` to `receiver` says of where it comes from.
pub open spec fn origin_said(sender: Seq<char>, receiver: Seq<char>, configured_by: bool, count: nat) -> (
    Origin,
    Seq<char>,
) {
    if configured_by && count == 0 {
        (
            Origin::Configured,
            "configured "@ + sender + " to "@ + receiver + "; no handoff observed yet"@,
        )
    } else if configured_by {
        (Origin::Both, decimal(count) + " handoffs "@ + sender + " to "@ + receiver)
    } else {
        (
            Origin::Observed,
            decimal(count) + " handoffs "@ + sender + " to "@ + receiver
                + ", which no configuration declares"@,
        )
    }
}

/// Where a link comes from, and how the link says so.
pub fn origin(link: &Link) -> (said: (Origin, String))
    ensures
        said.0 == origin_said(link.pair.0@, link.pair.2@, link.configured, link.count as nat).0,
        said.1@ == origin_said(link.pair.0@, link.pair.2@, link.configured, link.count as nat).1,
{
    let sender = link.pair.0.as_str();
    let receiver = link.pair.2.as_str();
    if link.configured && link.count == 0 {
        let mut text = followed("configured ", sender);
        text.append(" to ");
        text.append(receiver);
        text.append("; no handoff observed yet");
        (Origin::Configured, text)
    } else {
        let mut text = String::new();
        append_decimal(&mut text, link.count);
        text.append(" handoffs ");
        text.append(sender);
        text.append(" to ");
        text.append(receiver);
        if link.configured {
            (Origin::Both, text)
        } else {
            text.append(", which no configuration declares");
            (Origin::Observed, text)
        }
    }
}

/// The mood and the evidence of a record, or what an empty scope says: what
/// a link between two things shows, which is no parent of anything.
pub open spec fn mood_of(record: Option<HealthRecordView>) -> (Health, Seq<char>) {
    match record {
        Some(record) => (record.health, record.evidence),
        None => (Health::Working, "nothing published yet"@),
    }
}

/// The mood and the evidence of `record`, or of nothing published yet.
pub fn mood(record: Option<&HealthRecord>) -> (said: (Health, String))
    ensures
        (said.0, said.1@) == mood_of(
            match record {
                Some(record) => Some(record@),
                None => None,
            },
        ),
{
    match record {
        Some(record) => (record.health, record.evidence.clone()),
        None => (Health::Working, "nothing published yet".to_owned()),
    }
}

/// What a handoff link says and shows: where it comes from, and the mood of
/// `worse`, the worst leaf at either end, with its evidence.
pub open spec fn link_said(
    sender: Seq<char>,
    receiver: Seq<char>,
    configured_by: bool,
    count: nat,
    worse: Option<HealthRecordView>,
) -> (Origin, Health, Seq<char>) {
    let (origin, said) = origin_said(sender, receiver, configured_by, count);
    let (state, worst_said) = mood_of(worse);
    (origin, state, said + "; worst leaf at either end: "@ + worst_said)
}

/// What the link `link` says and shows, with `worse` the worst leaf at
/// either of its ends: where it comes from, its mood, and its evidence.
pub fn link_evidence(link: &Link, worse: Option<&HealthRecord>) -> (said: (Origin, Health, String))
    ensures
        (said.0, said.1, said.2@) == link_said(
            link.pair.0@,
            link.pair.2@,
            link.configured,
            link.count as nat,
            match worse {
                Some(record) => Some(record@),
                None => None,
            },
        ),
{
    let (from, mut text) = origin(link);
    let (state, worst_said) = mood(worse);
    text.append("; worst leaf at either end: ");
    text.append(worst_said.as_str());
    (from, state, text)
}

/// The ids a link is drawn by: its own, `handoff/<sender>/<stage>/<receiver>/<stage>`,
/// then the stage it leaves and the stage it reaches, `node/<name>/<stage>`.
pub open spec fn link_ids(pair: PairView) -> (Seq<char>, Seq<char>, Seq<char>) {
    (
        "handoff/"@ + pair.0 + seq!['/'] + stage_name(pair.1) + seq!['/'] + pair.2 + seq!['/']
            + stage_name(pair.3),
        node_id_of(pair.0) + seq!['/'] + stage_name(pair.1),
        node_id_of(pair.2) + seq!['/'] + stage_name(pair.3),
    )
}

/// The ids a link is drawn by: its own, then its two ends.
pub fn ids(pair: &Pair) -> (ids: (String, String, String))
    ensures
        ids.0@ == link_ids(pair_view(*pair)).0,
        ids.1@ == link_ids(pair_view(*pair)).1,
        ids.2@ == link_ids(pair_view(*pair)).2,
{
    let mut id = followed("handoff/", pair.0.as_str());
    push_char(&mut id, '/');
    id.append(pair.1.name());
    push_char(&mut id, '/');
    id.append(pair.2.as_str());
    push_char(&mut id, '/');
    id.append(pair.3.name());
    let mut from = node_id(pair.0.as_str());
    push_char(&mut from, '/');
    from.append(pair.1.name());
    let mut to = node_id(pair.2.as_str());
    push_char(&mut to, '/');
    to.append(pair.3.name());
    (id, from, to)
}


/// Whether a stage is drawn for a node: it declared it, or it reported on
/// it.
pub open spec fn stage_drawn(declared: Capability, reported: Seq<Stage>, stage: Stage) -> bool {
    crate::capability::serves(declared, stage) || reported.contains(stage)
}

/// The stages drawn for a node, in the order of the message path: every
/// stage it declared, drawn before it has reported, and any stage it has
/// reported on. Its name says nothing here.
pub fn drawn_stages(declared: Capability, reported: &[Stage]) -> (stages: Vec<Stage>)
    ensures
        stages@ == seq![Stage::Receive, Stage::Process, Stage::Send].filter(
            |stage: Stage| stage_drawn(declared, reported@, stage),
        ),
{
    let mut stages: Vec<Stage> = Vec::new();
    let all = [Stage::Receive, Stage::Process, Stage::Send];
    let ghost path = seq![Stage::Receive, Stage::Process, Stage::Send];
    let ghost pick = |stage: Stage| stage_drawn(declared, reported@, stage);
    assert(path.take(0).filter(pick) =~= Seq::<Stage>::empty());
    let mut i: usize = 0;
    while i < 3
        invariant
            i <= 3,
            all@ == path,
            path == seq![Stage::Receive, Stage::Process, Stage::Send],
            pick == (|stage: Stage| stage_drawn(declared, reported@, stage)),
            stages@ == path.take(i as int).filter(pick),
        decreases 3 - i,
    {
        let stage = all[i];
        proof {
            assert(path.take(i as int + 1).drop_last() == path.take(i as int));
            assert(path.take(i as int + 1).last() == stage);
            reveal(Seq::filter);
        }
        if declared.can(stage) || reported_on(reported, stage) {
            stages.push(stage);
        }
        i = i + 1;
    }
    assert(path.take(3) == path);
    stages
}

/// Whether `stage` is among those reported on.
fn reported_on(reported: &[Stage], stage: Stage) -> (yes: bool)
    ensures
        yes == reported@.contains(stage),
{
    let mut i: usize = 0;
    while i < reported.len()
        invariant
            i <= reported@.len(),
            forall|j: int| 0 <= j < i ==> reported@[j] != stage,
        decreases reported@.len() - i,
    {
        if reported[i] == stage {
            return true;
        }
        i = i + 1;
    }
    false
}

/// The transport a record beneath a stage's scope reports on: the segment
/// after the stage, up to the next `/`; none for a record not beneath it.
pub open spec fn segment_under(scope: Seq<char>, stage_scope: Seq<char>) -> Option<Seq<char>> {
    let beneath = stage_scope + seq!['/'];
    if beneath.len() <= scope.len() && scope.take(beneath.len() as int) == beneath {
        Some(crate::text::split_once(scope.skip(beneath.len() as int), '/').0)
    } else {
        None
    }
}

/// Whether some record reports on `transport` beneath the stage's scope.
pub open spec fn reports_on(scopes: Seq<Seq<char>>, stage_scope: Seq<char>, transport: Seq<char>) -> bool {
    transport.len() > 0 && exists|i: int|
        0 <= i < scopes.len() && segment_under(#[trigger] scopes[i], stage_scope) == Some(transport)
}

/// The transports a stage has reported on: the segment after the stage in
/// every scope beneath it, once each, in order.
pub fn transports(stage_scope: &str, scopes: &[String]) -> (found: Vec<String>)
    ensures
        forall|i: int, j: int|
            0 <= i < j < found@.len() ==> precedes(#[trigger] found@[i]@, #[trigger] found@[j]@),
        forall|transport: Seq<char>|
            #![trigger reports_on(crate::text::string_views(scopes@), stage_scope@, transport)]
            crate::text::string_views(found@).contains(transport) <==> reports_on(
                crate::text::string_views(scopes@),
                stage_scope@,
                transport,
            ),
{
    let ghost all = crate::text::string_views(scopes@);
    let mut beneath = chars_of(stage_scope);
    beneath.push('/');
    let mut found: Vec<String> = Vec::new();
    let mut k: usize = 0;
    while k < scopes.len()
        invariant
            k <= scopes@.len(),
            all == crate::text::string_views(scopes@),
            beneath@ == stage_scope@ + seq!['/'],
            forall|i: int, j: int|
                0 <= i < j < found@.len() ==> precedes(#[trigger] found@[i]@, #[trigger] found@[j]@),
            forall|transport: Seq<char>|
                #![trigger reports_on(all.take(k as int), stage_scope@, transport)]
                crate::text::string_views(found@).contains(transport) <==> reports_on(
                    all.take(k as int),
                    stage_scope@,
                    transport,
                ),
        decreases scopes@.len() - k,
    {
        let scope = chars_of(scopes[k].as_str());
        let ghost before = all.take(k as int);
        let ghost after = all.take(k as int + 1);
        proof {
            assert(after == before.push(all[k as int]));
            assert(all[k as int] == scope@);
        }
        let segment = segment_of(scope.as_slice(), beneath.as_slice());
        match segment {
            Some(piece) => {
                if piece.len() > 0 {
                    let text = string_of(piece.as_slice());
                    insert_once(&mut found, text);
                }
            },
            None => {},
        }
        proof {
            assert forall|transport: Seq<char>|
                #![trigger reports_on(after, stage_scope@, transport)]
                reports_on(after, stage_scope@, transport) <==> (reports_on(
                    before,
                    stage_scope@,
                    transport,
                ) || (transport.len() > 0 && segment_under(scope@, stage_scope@) == Some(
                    transport,
                ))) by {
                if reports_on(after, stage_scope@, transport) {
                    let i = choose|i: int|
                        0 <= i < after.len() && segment_under(#[trigger] after[i], stage_scope@)
                            == Some(transport);
                    if i < k {
                        assert(before[i] == after[i]);
                    }
                }
                if reports_on(before, stage_scope@, transport) {
                    let i = choose|i: int|
                        0 <= i < before.len() && segment_under(#[trigger] before[i], stage_scope@)
                            == Some(transport);
                    assert(after[i] == before[i]);
                }
                if transport.len() > 0 && segment_under(scope@, stage_scope@) == Some(transport) {
                    assert(after[k as int] == scope@);
                }
            }
        }
        k = k + 1;
    }
    assert(all.take(scopes@.len() as int) == all);
    found
}

/// The segment of `scope` after `beneath`, up to the next `/`, when `scope`
/// begins with `beneath`.
fn segment_of(scope: &[char], beneath: &[char]) -> (segment: Option<Vec<char>>)
    requires
        beneath@.len() > 0,
    ensures
        match segment {
            Some(piece) => beneath@.len() <= scope@.len() && scope@.take(beneath@.len() as int)
                == beneath@ && piece@ == crate::text::split_once(
                scope@.skip(beneath@.len() as int),
                '/',
            ).0,
            None => !(beneath@.len() <= scope@.len() && scope@.take(beneath@.len() as int)
                == beneath@),
        },
{
    if beneath.len() > scope.len() {
        return None;
    }
    let mut i: usize = 0;
    while i < beneath.len()
        invariant
            i <= beneath@.len() <= scope@.len(),
            forall|j: int| 0 <= j < i ==> scope@[j] == beneath@[j],
        decreases beneath@.len() - i,
    {
        if scope[i] != beneath[i] {
            assert(scope@.take(beneath@.len() as int)[i as int] != beneath@[i as int]);
            return None;
        }
        i = i + 1;
    }
    assert(scope@.take(beneath@.len() as int) =~= beneath@);
    let (_, rest) = scope.split_at(beneath.len());
    let (piece, _) = crate::text::split_once_on(rest, '/');
    Some(piece)
}

/// `text` put into `found`, which stays in strict order, unless it is there.
fn insert_once(found: &mut Vec<String>, text: String)
    requires
        forall|i: int, j: int|
            0 <= i < j < old(found)@.len() ==> precedes(
                #[trigger] old(found)@[i]@,
                #[trigger] old(found)@[j]@,
            ),
    ensures
        forall|i: int, j: int|
            0 <= i < j < final(found)@.len() ==> precedes(
                #[trigger] final(found)@[i]@,
                #[trigger] final(found)@[j]@,
            ),
        forall|x: Seq<char>|
            crate::text::string_views(final(found)@).contains(x) <==> (crate::text::string_views(
                old(found)@,
            ).contains(x) || x == text@),
{
    let ghost views = crate::text::string_views(found@);
    let chars = chars_of(text.as_str());
    let mut at: usize = 0;
    while at < found.len()
        invariant
            at <= found@.len(),
            views == crate::text::string_views(found@),
            chars@ == text@,
            forall|j: int| 0 <= j < at ==> precedes(#[trigger] views[j], text@),
        ensures
            at <= found@.len(),
            views == crate::text::string_views(found@),
            forall|j: int| 0 <= j < at ==> precedes(#[trigger] views[j], text@),
            at < found@.len() ==> !precedes(views[at as int], text@),
        decreases found@.len() - at,
    {
        let one = chars_of(found[at].as_str());
        if !comes_before(one.as_slice(), chars.as_slice()) {
            break;
        }
        at = at + 1;
    }
    if at < found.len() {
        let one = chars_of(found[at].as_str());
        if crate::text::same_chars(one.as_slice(), chars.as_slice()) {
            proof {
                assert(views[at as int] == text@);
                assert forall|x: Seq<char>| views.contains(x) <==> (views.contains(x) || x == text@) by {
                    if x == text@ {
                        assert(views[at as int] == x);
                    }
                }
            }
            return;
        }
        proof {
            crate::text::lemma_precedes_total(views[at as int], text@);
        }
    }
    found.insert(at, text);
    let ghost grown = crate::text::string_views(found@);
    proof {
        assert(grown =~= views.insert(at as int, text@));
        assert forall|i: int, j: int| 0 <= i < j < found@.len() implies precedes(
            #[trigger] found@[i]@,
            #[trigger] found@[j]@,
        ) by {
            assert(found@[i]@ == grown[i] && found@[j]@ == grown[j]);
            if j == at {
                assert(grown[i] == views[i]);
            } else if i == at {
                assert(grown[j] == views[j - 1]);
                if j - 1 > at {
                    assert(precedes(views[at as int], views[j - 1]));
                    crate::text::lemma_precedes_transitive(text@, views[at as int], views[j - 1]);
                }
            } else {
                let vi = if i < at { i } else { i - 1 };
                let vj = if j < at { j } else { j - 1 };
                assert(grown[i] == views[vi] && grown[j] == views[vj]);
                assert(vi < vj);
                assert(precedes(views[vi], views[vj]));
            }
        }
        assert forall|x: Seq<char>| grown.contains(x) <==> (views.contains(x) || x == text@) by {
            if grown.contains(x) {
                let m = choose|m: int| 0 <= m < grown.len() && grown[m] == x;
                if m < at {
                    assert(views[m] == x);
                } else if m > at {
                    assert(views[m - 1] == x);
                }
            }
            if views.contains(x) {
                let m = choose|m: int| 0 <= m < views.len() && views[m] == x;
                if m < at {
                    assert(grown[m] == x);
                } else {
                    assert(grown[m + 1] == x);
                }
            }
            if x == text@ {
                assert(grown[at as int] == x);
            }
        }
    }
}

} // verus!
