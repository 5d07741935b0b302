//! What the cluster says of its nodes that no node can say of itself: the
//! record of each node's process — alive, exited with its code, starting,
//! or restarted after hanging — at `<node>/system-process`, and the rollup
//! at `<cluster>/node`: the worst leaf across every node, and which node
//! carries it, one point of severity below the leaf it names so the way to
//! the problem ends at the leaf.

use vstd::prelude::*;

use crate::health::Health;
use crate::number::{append_decimal, decimal};
use crate::text::{chars_of, followed};

verus! {

/// Rounds a node may stay silent before it is hung.
pub const SILENT_ROUNDS: u32 = 3;

/// How a node's process ended, as the cluster saw it.
#[derive(Clone, Debug)]
pub struct Exit {
    /// Whether it exited successfully.
    pub success: bool,
    /// The exit status as the platform words it.
    pub status: String,
}

/// A record the cluster publishes of a node's process.
#[derive(Clone, Debug)]
pub struct ProcessRecord {
    pub scope: String,
    pub health: Health,
    pub severity: u8,
    pub evidence: String,
}

/// The scope of a node's process record: `<root>/node/<name>/system-process`.
pub open spec fn process_scope(root: Seq<char>, name: Seq<char>) -> Seq<char> {
    root + "/node/"@ + name + "/system-process"@
}

/// What a node restarted `restarts` times says of it.
pub open spec fn restarted(restarts: u32) -> Seq<char> {
    "restarted "@ + decimal(restarts as nat) + " time(s) after 3 silent rounds (hung)"@
}

/// The mood, severity and evidence of a node's process: exited badly, with
/// its status; exited well, after its rounds or after restarts; starting
/// until it has published; alive; or alive after restarts.
pub open spec fn judged(exit: Option<(bool, Seq<char>)>, restarts: u32, published: bool) -> (
    Health,
    u8,
    Seq<char>,
) {
    match exit {
        Some((success, status)) => if !success {
            (Health::Done, 90, "exited with "@ + status)
        } else if restarts == 0 {
            (Health::Fine, 0, "exited 0 after its rounds"@)
        } else {
            (Health::Stressed, 60, "exited 0; "@ + restarted(restarts))
        },
        None => if restarts == 0 && !published {
            (Health::Working, 20, "starting, no snapshot yet"@)
        } else if restarts == 0 {
            (Health::Fine, 0, "alive"@)
        } else {
            (Health::Stressed, 60, "alive; "@ + restarted(restarts))
        },
    }
}

/// The plain values of how a process ended.
pub open spec fn exit_view(exit: Option<&Exit>) -> Option<(bool, Seq<char>)> {
    match exit {
        Some(exit) => Some((exit.success, exit.status@)),
        None => None,
    }
}

/// `text` followed by what a node restarted `restarts` times says.
fn append_restarted(text: &mut String, restarts: u32)
    ensures
        final(text)@ == old(text)@ + restarted(restarts),
{
    text.append("restarted ");
    append_decimal(text, restarts as u64);
    text.append(" time(s) after 3 silent rounds (hung)");
}

/// What the cluster knows about the process of the node called `name`,
/// which the node cannot say: how it ended, if it did (`exit`), how often
/// it was restarted after hanging, and whether it has published yet.
pub fn process_record(
    root: &str,
    name: &str,
    exit: Option<&Exit>,
    restarts: u32,
    published: bool,
) -> (record: ProcessRecord)
    ensures
        record.scope@ == process_scope(root@, name@),
        (record.health, record.severity, record.evidence@) == judged(
            exit_view(exit),
            restarts,
            published,
        ),
{
    let mut scope = followed(root, "/node/");
    scope.append(name);
    scope.append("/system-process");
    let (health, severity, evidence): (Health, u8, String) = match exit {
        Some(exit) => if !exit.success {
            (Health::Done, 90, followed("exited with ", exit.status.as_str()))
        } else if restarts == 0 {
            (Health::Fine, 0, "exited 0 after its rounds".to_owned())
        } else {
            let mut said = "exited 0; ".to_owned();
            append_restarted(&mut said, restarts);
            (Health::Stressed, 60, said)
        },
        None => if restarts == 0 && !published {
            (Health::Working, 20, "starting, no snapshot yet".to_owned())
        } else if restarts == 0 {
            (Health::Fine, 0, "alive".to_owned())
        } else {
            let mut said = "alive; ".to_owned();
            append_restarted(&mut said, restarts);
            (Health::Stressed, 60, said)
        },
    };
    ProcessRecord { scope, health, severity, evidence }
}

/// One leaf beneath the cluster's nodes, as the rollup reads it.
#[derive(Clone, Debug)]
pub struct Leaf {
    pub scope: String,
    /// Whether the leaf is Fine.
    pub fine: bool,
    pub severity: u8,
    pub evidence: String,
}

/// A leaf as plain values: its scope, whether it is fine, its severity,
/// its evidence.
pub type LeafView = (Seq<char>, bool, u8, Seq<char>);

/// The plain values of the leaves.
pub open spec fn leaf_views(leaves: Seq<Leaf>) -> Seq<LeafView> {
    leaves.map_values(|leaf: Leaf| (leaf.scope@, leaf.fine, leaf.severity, leaf.evidence@))
}

/// How many of the leaves are fine.
pub open spec fn fine_count(leaves: Seq<LeafView>) -> nat
    decreases leaves.len(),
{
    if leaves.len() == 0 {
        0
    } else {
        fine_count(leaves.drop_last()) + if leaves.last().1 {
            1nat
        } else {
            0nat
        }
    }
}

/// `text` with every leading `prefix` taken off: `str::trim_start_matches`.
pub open spec fn stripped(text: Seq<char>, prefix: Seq<char>) -> Seq<char>
    decreases text.len(),
{
    if prefix.len() > 0 && prefix.len() <= text.len() && text.take(prefix.len() as int) == prefix {
        stripped(text.skip(prefix.len() as int), prefix)
    } else {
        text
    }
}

/// How the rollup rolls: as the worst leaf, all fine, or nothing yet.
#[derive(Clone, Copy, Debug, PartialEq, Eq, Structural)]
pub enum Rolled {
    /// The worst leaf's mood, which is not Fine.
    Worst,
    /// Every leaf is fine.
    Fine,
    /// Nothing was published yet.
    Working,
}

/// The rollup at `<cluster>/node`.
#[derive(Clone, Debug)]
pub struct Rollup {
    pub scope: String,
    pub rolled: Rolled,
    pub severity: u8,
    pub evidence: String,
}

/// What the rollup says of `count` nodes whose leaves are `leaves`, worst
/// first, under `nodes`.
pub open spec fn rolled_up(nodes: Seq<char>, leaves: Seq<LeafView>, count: nat) -> (Rolled, u8, Seq<char>) {
    if leaves.len() == 0 {
        (Rolled::Working, 20, decimal(count) + " nodes, nothing published yet"@)
    } else if !leaves[0].1 {
        (
            Rolled::Worst,
            if leaves[0].2 > 0 {
                (leaves[0].2 - 1) as u8
            } else {
                0
            },
            decimal(count) + " nodes, "@ + decimal(fine_count(leaves)) + " of "@ + decimal(
                leaves.len(),
            ) + " leaves fine; worst "@ + stripped(leaves[0].0, nodes + "/"@) + ": "@ + leaves[0].3,
        )
    } else {
        (Rolled::Fine, 0, decimal(count) + " nodes, all "@ + decimal(leaves.len()) + " leaves fine"@)
    }
}

/// `text` with every leading `prefix` taken off.
fn strip_all(text: &[char], prefix: &[char]) -> (out: Vec<char>)
    ensures
        out@ == stripped(text@, prefix@),
{
    let mut at: usize = 0;
    assert(text@.skip(0) == text@);
    while prefix.len() > 0 && prefix.len() <= text.len() - at && starts_at(text, at, prefix)
        invariant
            at <= text@.len(),
            stripped(text@, prefix@) == stripped(text@.skip(at as int), prefix@),
        decreases text@.len() - at,
    {
        proof {
            let rest = text@.skip(at as int);
            assert(rest.take(prefix@.len() as int) == prefix@);
            assert(rest.skip(prefix@.len() as int) == text@.skip(at + prefix@.len()));
        }
        at = at + prefix.len();
    }
    proof {
        let rest = text@.skip(at as int);
        if prefix@.len() > 0 && prefix@.len() <= rest.len() {
            assert(rest.take(prefix@.len() as int) != prefix@);
        }
    }
    let mut out: Vec<char> = Vec::new();
    let mut k = at;
    while k < text.len()
        invariant
            at <= k <= text@.len(),
            out@ == text@.subrange(at as int, k as int),
        decreases text@.len() - k,
    {
        out.push(text[k]);
        k = k + 1;
    }
    assert(out@ == text@.skip(at as int));
    out
}

/// Whether `prefix` stands in `text` at `at`.
fn starts_at(text: &[char], at: usize, prefix: &[char]) -> (yes: bool)
    requires
        at + prefix@.len() <= text@.len(),
    ensures
        yes == (text@.skip(at as int).take(prefix@.len() as int) == prefix@),
{
    let n = text.len();
    let mut i: usize = 0;
    while i < prefix.len()
        invariant
            i <= prefix@.len(),
            n == text@.len(),
            at + prefix@.len() <= n,
            forall|j: int| 0 <= j < i ==> text@[at + j] == prefix@[j],
        decreases prefix@.len() - i,
    {
        if text[at + i] != prefix[i] {
            assert(text@.skip(at as int).take(prefix@.len() as int)[i as int] != prefix@[i as int]);
            return false;
        }
        i = i + 1;
    }
    assert(text@.skip(at as int).take(prefix@.len() as int) =~= prefix@);
    true
}

/// The rollup the surface owes at `<root>/node`: the worst leaf across
/// every node and which node carries it, one point of severity below it;
/// all fine; or nothing published yet. `leaves` are the records beneath
/// the nodes, worst first, as the snapshot orders them.
pub fn rollup(root: &str, leaves: &[Leaf], count: usize) -> (rollup: Rollup)
    ensures
        rollup.scope@ == root@ + "/node"@,
        (rollup.rolled, rollup.severity, rollup.evidence@) == rolled_up(
            root@ + "/node"@,
            leaf_views(leaves@),
            count as nat,
        ),
{
    let nodes = followed(root, "/node");
    let ghost views = leaf_views(leaves@);
    let mut said = String::new();
    append_decimal(&mut said, count as u64);
    if leaves.len() == 0 {
        said.append(" nodes, nothing published yet");
        return Rollup { scope: nodes, rolled: Rolled::Working, severity: 20, evidence: said };
    }
    let mut fine: usize = 0;
    let mut i: usize = 0;
    while i < leaves.len()
        invariant
            i <= leaves@.len(),
            fine <= i,
            views == leaf_views(leaves@),
            fine as nat == fine_count(views.take(i as int)),
        decreases leaves@.len() - i,
    {
        proof {
            assert(views.take(i as int + 1).drop_last() == views.take(i as int));
            assert(views.take(i as int + 1).last() == views[i as int]);
        }
        if leaves[i].fine {
            fine = fine + 1;
        }
        i = i + 1;
    }
    assert(views.take(leaves@.len() as int) == views);
    let worst = &leaves[0];
    if !worst.fine {
        said.append(" nodes, ");
        append_decimal(&mut said, fine as u64);
        said.append(" of ");
        append_decimal(&mut said, leaves.len() as u64);
        said.append(" leaves fine; worst ");
        let prefix = followed(nodes.as_str(), "/");
        let scope = chars_of(worst.scope.as_str());
        let bare = strip_all(scope.as_slice(), chars_of(prefix.as_str()).as_slice());
        crate::text::append_chars(&mut said, bare.as_slice());
        said.append(": ");
        said.append(worst.evidence.as_str());
        let severity: u8 = if worst.severity > 0 { worst.severity - 1 } else { 0 };
        Rollup { scope: nodes, rolled: Rolled::Worst, severity, evidence: said }
    } else {
        said.append(" nodes, all ");
        append_decimal(&mut said, leaves.len() as u64);
        said.append(" leaves fine");
        Rollup { scope: nodes, rolled: Rolled::Fine, severity: 0, evidence: said }
    }
}


/// The leaves whose fine flag is set.
pub open spec fn fine_leaves(leaves: Seq<LeafView>) -> Seq<LeafView> {
    leaves.filter(|leaf: LeafView| leaf.1)
}

/// The rollup's count of fine leaves is the number of leaves flagged fine.
proof fn lemma_fine_count_is_fine_leaves(leaves: Seq<LeafView>)
    ensures
        fine_count(leaves) == fine_leaves(leaves).len(),
    decreases leaves.len(),
{
    reveal(Seq::filter);
    if leaves.len() > 0 {
        lemma_fine_count_is_fine_leaves(leaves.drop_last());
    }
}

/// A rollup over a worst leaf that is not fine says how many of the leaves
/// are fine: exactly those flagged fine, out of every leaf. So it says
/// every leaf when all are fine, one more for each fine leaf added, and
/// none is counted that is not fine.
pub proof fn lemma_rollup_counts_the_fine_leaves(nodes: Seq<char>, leaves: Seq<LeafView>, count: nat)
    requires
        leaves.len() > 0,
        !leaves[0].1,
    ensures
        rolled_up(nodes, leaves, count).2 == decimal(count) + " nodes, "@ + decimal(
            fine_leaves(leaves).len(),
        ) + " of "@ + decimal(leaves.len()) + " leaves fine; worst "@ + stripped(
            leaves[0].0,
            nodes + "/"@,
        ) + ": "@ + leaves[0].3,
        fine_leaves(leaves).len() < leaves.len(),
        forall|leaf: LeafView|
            #![trigger fine_leaves(leaves.push(leaf))]
            fine_leaves(leaves.push(leaf)).len() == fine_leaves(leaves).len() + if leaf.1 {
                1int
            } else {
                0int
            },
{
    lemma_fine_count_is_fine_leaves(leaves);
    reveal(Seq::filter);
    assert forall|leaf: LeafView| #![trigger fine_leaves(leaves.push(leaf))]
        fine_leaves(leaves.push(leaf)).len() == fine_leaves(leaves).len() + if leaf.1 {
            1int
        } else {
            0int
        } by {
        assert(leaves.push(leaf).drop_last() == leaves);
    }
    lemma_fine_below(leaves);
}

/// Fewer leaves are fine than there are, when the first is not.
proof fn lemma_fine_below(leaves: Seq<LeafView>)
    requires
        leaves.len() > 0,
        !leaves[0].1,
    ensures
        fine_count(leaves) < leaves.len(),
    decreases leaves.len(),
{
    if leaves.len() > 1 {
        assert(leaves.drop_last()[0] == leaves[0]);
        lemma_fine_below(leaves.drop_last());
    } else {
        assert(leaves.drop_last().len() == 0);
        assert(fine_count(leaves.drop_last()) == 0);
        assert(leaves.last() == leaves[0]);
    }
}

} // verus!
