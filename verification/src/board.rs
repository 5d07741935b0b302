//! The board a roll draws: every leaf of its snapshot, as a person reads it,
//! and the one line a round leaves in a log. A node's leaves are left off
//! while they are fine: the rollup row is what an operator watches, and a
//! node that is not fine appears in full. Every mood is said in a word,
//! never in colour alone.

use vstd::prelude::*;

use crate::handoff::{ascending, lemma_in_order};
use crate::health::{copied_record, record_views, Health, HealthRecord, HealthRecordView};
use crate::number::{append_decimal, decimal};
use crate::text::{chars_of, comes_before, precedes, push_char};

verus! {

/// The word a mood carries on the board.
pub open spec fn health_word(health: Health) -> Seq<char> {
    match health {
        Health::Fine => "FINE"@,
        Health::Paused => "PAUSED"@,
        Health::Working => "WORKING"@,
        Health::Stressed => "STRESSED"@,
        Health::Exhausted => "EXHAUSTED"@,
        Health::Holding => "HOLDING"@,
        Health::Done => "DONE"@,
    }
}

/// The word a mood carries on the board: `FINE`, `STRESSED` and the rest.
pub fn word(health: Health) -> (word: &'static str)
    ensures
        word@ == health_word(health),
{
    match health {
        Health::Fine => "FINE",
        Health::Paused => "PAUSED",
        Health::Working => "WORKING",
        Health::Stressed => "STRESSED",
        Health::Exhausted => "EXHAUSTED",
        Health::Holding => "HOLDING",
        Health::Done => "DONE",
    }
}

/// Whether `text` begins with `prefix`.
fn begins_with(text: &[char], prefix: &[char]) -> (yes: bool)
    ensures
        yes == prefix@.is_prefix_of(text@),
{
    if text.len() < prefix.len() {
        return false;
    }
    let mut i: usize = 0;
    while i < prefix.len()
        invariant
            i <= prefix@.len() <= text@.len(),
            forall|j: int| 0 <= j < i ==> text@[j] == prefix@[j],
        decreases prefix@.len() - i,
    {
        if text[i] != prefix[i] {
            return false;
        }
        i = i + 1;
    }
    assert(text@.subrange(0, prefix@.len() as int) =~= prefix@);
    true
}

/// Whether the board shows a record of those at or beneath `node`: every
/// one but the leaves of a node (`<node>/node/...`) that are fine.
pub open spec fn shown(node: Seq<char>, record: HealthRecordView) -> bool {
    !(node + "/node/"@).is_prefix_of(record.scope) || record.health != Health::Fine
}

/// The scopes of a list of records, in order.
pub open spec fn scopes_of(records: Seq<HealthRecordView>) -> Seq<Seq<char>> {
    records.map_values(|record: HealthRecordView| record.scope)
}

/// The records of `records` at `scope`, in their order.
pub open spec fn scoped(records: Seq<HealthRecordView>, scope: Seq<char>) -> Seq<HealthRecordView> {
    records.filter(|record: HealthRecordView| record.scope == scope)
}

/// Nothing of a list is at a scope that sorts before all of its own.
proof fn lemma_none_scoped(records: Seq<HealthRecordView>, scope: Seq<char>)
    requires
        forall|k: int| 0 <= k < records.len() ==> precedes(scope, #[trigger] records[k].scope),
    ensures
        scoped(records, scope) == Seq::<HealthRecordView>::empty(),
{
    let pick = |record: HealthRecordView| record.scope == scope;
    let kept = records.filter(pick);
    if kept.len() > 0 {
        records.lemma_filter_pred(pick, 0);
        assert(kept.contains(kept[0]));
        records.lemma_filter_contains_rev(pick, kept[0]);
        let k = choose|k: int| 0 <= k < records.len() && records[k] == kept[0];
        assert(precedes(scope, records[k].scope));
        crate::text::lemma_precedes_irreflexive(scope);
    }
    assert(kept =~= Seq::<HealthRecordView>::empty());
}

/// `record` put into `rows` after every row whose scope does not sort after
/// its own.
fn insert_by_scope(rows: &mut Vec<HealthRecord>, record: HealthRecord)
    requires
        ascending(scopes_of(record_views(old(rows)@))),
    ensures
        ascending(scopes_of(record_views(final(rows)@))),
        record_views(final(rows)@).to_multiset() == record_views(old(rows)@).to_multiset().insert(
            record@,
        ),
        forall|scope: Seq<char>|
            #[trigger] scoped(record_views(final(rows)@), scope) == if scope == record@.scope {
                scoped(record_views(old(rows)@), scope).push(record@)
            } else {
                scoped(record_views(old(rows)@), scope)
            },
{
    let scope = chars_of(record.scope.as_str());
    let ghost views = record_views(rows@);
    let ghost scopes = scopes_of(views);
    let mut at: usize = 0;
    while at < rows.len()
        invariant
            at <= rows@.len(),
            views == record_views(rows@),
            scopes == scopes_of(views),
            scope@ == record.scope@,
            forall|k: int| 0 <= k < at ==> !precedes(record.scope@, #[trigger] scopes[k]),
        ensures
            at <= rows@.len(),
            views == record_views(rows@),
            forall|k: int| 0 <= k < at ==> !precedes(record.scope@, #[trigger] scopes[k]),
            at < scopes.len() ==> precedes(record.scope@, scopes[at as int]),
        decreases rows@.len() - at,
    {
        let other = chars_of(rows[at].scope.as_str());
        assert(scopes[at as int] == rows@[at as int].scope@);
        if comes_before(scope.as_slice(), other.as_slice()) {
            break;
        }
        at = at + 1;
    }
    let ghost x = record@;
    rows.insert(at, record);
    let ghost after = record_views(rows@);
    proof {
        assert(after =~= views.insert(at as int, x));
        assert(scopes_of(after) =~= scopes.insert(at as int, x.scope));
        vstd::seq_lib::to_multiset_insert(views, at as int, x);
        assert forall|i: int, j: int| 0 <= i < j < scopes_of(after).len() implies !precedes(
            #[trigger] scopes_of(after)[j],
            #[trigger] scopes_of(after)[i],
        ) by {
            lemma_in_order(scopes, x.scope, at as int, i, j);
        }
        let front = views.take(at as int);
        let back = views.skip(at as int);
        assert(views == front + back);
        assert(after == front + seq![x] + back);
        assert forall|k: int| 0 <= k < back.len() implies precedes(x.scope, #[trigger] back[k].scope) by {
            assert(back[k] == views[at + k]);
            assert(scopes[at + k] == views[at + k].scope);
            assert(scopes[at as int] == views[at as int].scope);
            if k > 0 {
                assert(!precedes(scopes[at + k], scopes[at as int]));
                crate::text::lemma_precedes_total(scopes[at + k], scopes[at as int]);
                if scopes[at + k] != scopes[at as int] {
                    crate::text::lemma_precedes_transitive(x.scope, scopes[at as int], scopes[at + k]);
                }
            }
        }
        assert forall|scope: Seq<char>| #[trigger] scoped(after, scope) == if scope == x.scope {
            scoped(views, scope).push(x)
        } else {
            scoped(views, scope)
        } by {
            let pick = |record: HealthRecordView| record.scope == scope;
            Seq::filter_distributes_over_add(front + seq![x], back, pick);
            Seq::filter_distributes_over_add(front, seq![x], pick);
            Seq::filter_distributes_over_add(front, back, pick);
            reveal(Seq::filter);
            assert(seq![x].drop_last() =~= Seq::<HealthRecordView>::empty());
            assert(seq![x].last() == x);
            if scope == x.scope {
                lemma_none_scoped(back, scope);
                assert(seq![x].filter(pick) =~= seq![x]);
                assert(scoped(after, scope) =~= scoped(views, scope).push(x));
            } else {
                assert(!pick(x));
                assert(Seq::<HealthRecordView>::empty().filter(pick) =~= Seq::<HealthRecordView>::empty());
                assert(seq![x].filter(pick) =~= Seq::<HealthRecordView>::empty());
                assert(scoped(after, scope) =~= scoped(views, scope));
            }
        }
    }
}

/// The rows the board shows of the records at or beneath `node`: every
/// leaf, but a node's leaves only when they are not fine (the nodes' rollup
/// row always shows, and an operator drills into a node from there), in the
/// order of their scopes; records of one scope keep the order they came in.
pub fn pairs(node: &str, records: &[HealthRecord]) -> (rows: Vec<HealthRecord>)
    ensures
        ascending(scopes_of(record_views(rows@))),
        record_views(rows@).to_multiset() == record_views(records@).filter(
            |record: HealthRecordView| shown(node@, record),
        ).to_multiset(),
        forall|scope: Seq<char>|
            #[trigger] scoped(record_views(rows@), scope) == scoped(
                record_views(records@).filter(|record: HealthRecordView| shown(node@, record)),
                scope,
            ),
{
    let mut nodes = chars_of(node);
    nodes.push('/');
    nodes.push('n');
    nodes.push('o');
    nodes.push('d');
    nodes.push('e');
    nodes.push('/');
    proof {
        reveal_strlit("/node/");
        assert(nodes@ =~= node@ + "/node/"@);
    }
    let ghost all = record_views(records@);
    let ghost pick = |record: HealthRecordView| shown(node@, record);
    let mut rows: Vec<HealthRecord> = Vec::new();
    proof {
        assert(all.take(0).filter(pick) =~= Seq::<HealthRecordView>::empty());
        assert(scopes_of(record_views(rows@)) =~= Seq::<Seq<char>>::empty());
        assert(record_views(rows@) =~= Seq::<HealthRecordView>::empty());
        reveal(Seq::filter);
    }
    let mut i: usize = 0;
    while i < records.len()
        invariant
            i <= records@.len(),
            all == record_views(records@),
            nodes@ == node@ + "/node/"@,
            pick == (|record: HealthRecordView| shown(node@, record)),
            ascending(scopes_of(record_views(rows@))),
            record_views(rows@).to_multiset() == all.take(i as int).filter(pick).to_multiset(),
            forall|scope: Seq<char>|
                #[trigger] scoped(record_views(rows@), scope) == scoped(
                    all.take(i as int).filter(pick),
                    scope,
                ),
        decreases records@.len() - i,
    {
        let scope = chars_of(records[i].scope.as_str());
        let keep = !begins_with(scope.as_slice(), nodes.as_slice()) || match records[i].health {
            Health::Fine => false,
            _ => true,
        };
        proof {
            assert(all.take(i as int + 1).drop_last() == all.take(i as int));
            assert(all.take(i as int + 1).last() == all[i as int]);
            assert(all[i as int] == records@[i as int]@);
            assert(keep == pick(all[i as int]));
            reveal(Seq::filter);
        }
        if keep {
            insert_by_scope(&mut rows, copied_record(&records[i]));
            proof {
                let prev = all.take(i as int).filter(pick);
                vstd::seq_lib::to_multiset_build(prev, all[i as int]);
                assert(all.take(i as int + 1).filter(pick) == prev.push(all[i as int]));
                assert forall|scope: Seq<char>| #[trigger] scoped(record_views(rows@), scope)
                    == scoped(all.take(i as int + 1).filter(pick), scope) by {
                    assert(prev.push(all[i as int]).drop_last() == prev);
                    assert(prev.push(all[i as int]).last() == all[i as int]);
                }
            }
        }
        i = i + 1;
    }
    assert(all.take(records@.len() as int) == all);
    rows
}

/// `n` spaces.
pub open spec fn spaces(n: nat) -> Seq<char> {
    Seq::new(n, |i: int| ' ')
}

/// `text` padded with spaces on the right to `width` characters, as
/// `{:<width}` writes it; longer text is left whole.
pub open spec fn left_aligned(text: Seq<char>, width: nat) -> Seq<char> {
    if text.len() < width {
        text + spaces((width - text.len()) as nat)
    } else {
        text
    }
}

/// `text` padded with spaces on the left to `width` characters, as
/// `{:>width}` writes it; longer text is left whole.
pub open spec fn right_aligned(text: Seq<char>, width: nat) -> Seq<char> {
    if text.len() < width {
        spaces((width - text.len()) as nat) + text
    } else {
        text
    }
}

/// `n` spaces onto the end of `out`.
fn append_spaces(out: &mut String, n: usize)
    ensures
        final(out)@ == old(out)@ + spaces(n as nat),
{
    let mut k: usize = 0;
    while k < n
        invariant
            k <= n,
            out@ == old(out)@ + spaces(k as nat),
        decreases n - k,
    {
        push_char(out, ' ');
        k = k + 1;
        assert(out@ =~= old(out)@ + spaces(k as nat));
    }
}

/// `text` onto the end of `out`, padded on the right to `width`.
fn append_left(out: &mut String, text: &str, width: usize)
    ensures
        final(out)@ == old(out)@ + left_aligned(text@, width as nat),
{
    let count = text.unicode_len();
    out.append(text);
    if count < width {
        append_spaces(out, width - count);
    }
    assert(final(out)@ =~= old(out)@ + left_aligned(text@, width as nat));
}

/// `n` in decimal onto the end of `out`, padded on the left to `width`.
fn append_right_decimal(out: &mut String, n: u64, width: usize)
    ensures
        final(out)@ == old(out)@ + right_aligned(decimal(n as nat), width as nat),
{
    let mut digits = String::new();
    append_decimal(&mut digits, n);
    assert(digits@ =~= decimal(n as nat));
    let count = digits.as_str().unicode_len();
    if count < width {
        append_spaces(out, width - count);
    }
    out.append(digits.as_str());
    assert(final(out)@ =~= old(out)@ + right_aligned(decimal(n as nat), width as nat));
}

/// The first row that is not fine, if any.
pub open spec fn first_trouble(rows: Seq<HealthRecordView>) -> Option<HealthRecordView>
    decreases rows.len(),
{
    if rows.len() == 0 {
        None
    } else if rows[0].health != Health::Fine {
        Some(rows[0])
    } else {
        first_trouble(rows.drop_first())
    }
}

/// The line a round leaves in a log: the round, the rollup's word (`NONE`
/// when nothing was published), how many rows the board has, and the first
/// of them that is not fine.
pub open spec fn summary(round: u64, worst: Option<Health>, rows: Seq<HealthRecordView>) -> Seq<char> {
    "round "@ + right_aligned(decimal(round as nat), 4) + ": "@ + match worst {
        Some(health) => health_word(health),
        None => "NONE"@,
    } + "  ("@ + decimal(rows.len()) + " leaves)"@ + match first_trouble(rows) {
        Some(row) => "  \u{2014} worst "@ + row.scope + ": "@ + row.evidence,
        None => Seq::empty(),
    }
}

/// One line per round, for a run whose output is a log: the rollup `worst`
/// at the node, and of the board's `rows`, how many and the first that is
/// not fine.
pub fn summary_line(round: u64, worst: Option<Health>, rows: &[HealthRecord]) -> (line: String)
    ensures
        line@ == summary(round, worst, record_views(rows@)),
{
    let ghost views = record_views(rows@);
    let mut line = String::new();
    line.append("round ");
    append_right_decimal(&mut line, round, 4);
    line.append(": ");
    match worst {
        Some(health) => line.append(word(health)),
        None => line.append("NONE"),
    }
    line.append("  (");
    append_decimal(&mut line, rows.len() as u64);
    line.append(" leaves)");
    let ghost head = line@;
    assert(head == "round "@ + right_aligned(decimal(round as nat), 4) + ": "@ + match worst {
        Some(health) => health_word(health),
        None => "NONE"@,
    } + "  ("@ + decimal(views.len()) + " leaves)"@);
    assert(views.skip(0) =~= views);
    let mut i: usize = 0;
    while i < rows.len()
        invariant
            i <= rows@.len(),
            views == record_views(rows@),
            first_trouble(views) == first_trouble(views.skip(i as int)),
            line@ == head,
            head == "round "@ + right_aligned(decimal(round as nat), 4) + ": "@ + match worst {
                Some(health) => health_word(health),
                None => "NONE"@,
            } + "  ("@ + decimal(views.len()) + " leaves)"@,
        decreases rows@.len() - i,
    {
        proof {
            assert(views.skip(i as int)[0] == views[i as int]);
            assert(views.skip(i as int).drop_first() =~= views.skip(i as int + 1));
        }
        match rows[i].health {
            Health::Fine => {},
            _ => {
                line.append("  \u{2014} worst ");
                line.append(rows[i].scope.as_str());
                line.append(": ");
                line.append(rows[i].evidence.as_str());
                proof {
                    assert(views[i as int] == rows@[i as int]@);
                    assert(first_trouble(views) == Some(views[i as int]));
                }
                return line;
            },
        }
        i = i + 1;
    }
    assert(views.skip(i as int) =~= Seq::<HealthRecordView>::empty());
    line
}

/// A row's leaf: its scope beneath `<node>/`, or the whole scope when it is
/// not beneath it.
pub open spec fn leaf_of(node: Seq<char>, scope: Seq<char>) -> Seq<char> {
    let under = node + "/"@;
    if under.is_prefix_of(scope) {
        scope.skip(under.len() as int)
    } else {
        scope
    }
}

/// One row of the board: the leaf, the mood's word, the severity and the
/// evidence, in columns.
pub open spec fn row(node: Seq<char>, record: HealthRecordView) -> Seq<char> {
    "  "@ + left_aligned(leaf_of(node, record.scope), 44) + " "@ + left_aligned(
        health_word(record.health),
        7,
    ) + " sev "@ + right_aligned(decimal(record.severity as nat), 3) + "   "@ + record.evidence
}

/// One row of the board for a record at or beneath `node`.
pub fn board_row(node: &str, record: &HealthRecord) -> (line: String)
    ensures
        line@ == row(node@, record@),
{
    let mut under = chars_of(node);
    under.push('/');
    proof {
        reveal_strlit("/");
        assert(under@ =~= node@ + "/"@);
    }
    let scope = chars_of(record.scope.as_str());
    let mut leaf = String::new();
    if begins_with(scope.as_slice(), under.as_slice()) {
        let mut k: usize = under.len();
        while k < scope.len()
            invariant
                under@.len() <= k <= scope@.len(),
                leaf@ == scope@.subrange(under@.len() as int, k as int),
            decreases scope@.len() - k,
        {
            push_char(&mut leaf, scope[k]);
            k = k + 1;
            assert(leaf@ =~= scope@.subrange(under@.len() as int, k as int));
        }
        assert(leaf@ =~= scope@.skip(under@.len() as int));
    } else {
        leaf.append(record.scope.as_str());
    }
    assert(leaf@ == leaf_of(node@, record.scope@));
    let mut line = String::new();
    line.append("  ");
    append_left(&mut line, leaf.as_str(), 44);
    line.append(" ");
    append_left(&mut line, word(record.health), 7);
    line.append(" sev ");
    append_right_decimal(&mut line, record.severity as u64, 3);
    line.append("   ");
    line.append(record.evidence.as_str());
    line
}

/// The rule above and below the rows: 86 dashes.
pub open spec fn rule() -> Seq<char> {
    Seq::new(86, |i: int| '-')
}

/// The full board, line by line: the title with the round, the rule, a row
/// for each of `rows`, the rule, the rollup's word (fine when nothing was
/// published), a blank line and how to stop.
pub open spec fn board_lines(
    node: Seq<char>,
    round: u64,
    worst: Option<Health>,
    rows: Seq<HealthRecordView>,
) -> Seq<Seq<char>> {
    seq!["Xmip Playground \u{2014} rolling every scenario   (round "@ + decimal(round as nat) + ")"@, rule()]
        + rows.map_values(|record: HealthRecordView| row(node, record)) + seq![
        rule(),
        "  rollup at "@ + node + ": "@ + health_word(
            match worst {
                Some(health) => health,
                None => Health::Fine,
            },
        ),
        Seq::empty(),
        "  ctrl-c to stop"@,
    ]
}

/// The views of a list of strings.
pub open spec fn line_views(lines: Seq<String>) -> Seq<Seq<char>> {
    lines.map_values(|line: String| line@)
}

/// The full board for a live terminal, redrawn in place each round: the
/// board's `rows` at or beneath `node`, and the rollup `worst` at it.
pub fn board(node: &str, round: u64, worst: Option<Health>, rows: &[HealthRecord]) -> (lines: Vec<
    String,
>)
    ensures
        line_views(lines@) == board_lines(node@, round, worst, record_views(rows@)),
{
    let ghost views = record_views(rows@);
    let mut lines: Vec<String> = Vec::new();
    let mut title = String::new();
    title.append("Xmip Playground \u{2014} rolling every scenario   (round ");
    append_decimal(&mut title, round);
    title.append(")");
    lines.push(title);
    let mut dashes = String::new();
    let mut k: usize = 0;
    while k < 86
        invariant
            k <= 86,
            dashes@ == Seq::new(k as nat, |i: int| '-'),
        decreases 86 - k,
    {
        push_char(&mut dashes, '-');
        k = k + 1;
        assert(dashes@ =~= Seq::new(k as nat, |i: int| '-'));
    }
    lines.push(dashes.clone());
    let ghost head = line_views(lines@);
    let mut i: usize = 0;
    while i < rows.len()
        invariant
            i <= rows@.len(),
            views == record_views(rows@),
            dashes@ == rule(),
            line_views(lines@) == head + views.take(i as int).map_values(
                |record: HealthRecordView| row(node@, record),
            ),
        decreases rows@.len() - i,
    {
        let one = board_row(node, &rows[i]);
        proof {
            assert(views[i as int] == rows@[i as int]@);
            assert(views.take(i as int + 1) == views.take(i as int).push(views[i as int]));
            assert(line_views(lines@.push(one)) == line_views(lines@).push(one@));
        }
        lines.push(one);
        i = i + 1;
    }
    assert(views.take(rows@.len() as int) == views);
    let ghost body = line_views(lines@);
    assert(body == head + views.map_values(|record: HealthRecordView| row(node@, record)));
    lines.push(dashes);
    let mut rollup = String::new();
    rollup.append("  rollup at ");
    rollup.append(node);
    rollup.append(": ");
    match worst {
        Some(health) => rollup.append(word(health)),
        None => rollup.append(word(Health::Fine)),
    }
    let ghost rollup_said = rollup@;
    lines.push(rollup);
    lines.push(String::new());
    lines.push("  ctrl-c to stop".to_owned());
    assert(line_views(lines@) =~= body + seq![rule(), rollup_said, Seq::empty(), "  ctrl-c to stop"@]);
    assert(head =~= seq![
        "Xmip Playground \u{2014} rolling every scenario   (round "@ + decimal(round as nat) + ")"@,
        rule(),
    ]);
    assert(line_views(lines@) =~= board_lines(node@, round, worst, views));
    lines
}


/// Each mood has a word of its own.
proof fn lemma_words_differ(a: Health, b: Health)
    ensures
        health_word(a) == health_word(b) ==> a == b,
{
    reveal_strlit("FINE");
    reveal_strlit("PAUSED");
    reveal_strlit("WORKING");
    reveal_strlit("STRESSED");
    reveal_strlit("EXHAUSTED");
    reveal_strlit("HOLDING");
    reveal_strlit("DONE");
    if health_word(a) == health_word(b) && a != b {
        assert(health_word(a)[0] != health_word(b)[0] || health_word(a).len() != health_word(b).len()
            || health_word(a)[1] != health_word(b)[1]);
    }
}

/// The board's rollup line, after the title, the rule, a row for each of
/// `rows` and the rule again, names the node and says the rollup's mood in
/// its word: the word of `worst` when one was given, and `FINE` only when
/// that mood is fine or nothing was published. The board has that many
/// lines and two more.
pub proof fn lemma_board_says_the_rollup(
    node: Seq<char>,
    round: u64,
    worst: Option<Health>,
    rows: Seq<HealthRecordView>,
)
    ensures
        board_lines(node, round, worst, rows).len() == rows.len() + 6,
        forall|health: Health|
            worst == Some(health) ==> board_lines(node, round, worst, rows)[rows.len() + 3int]
                == "  rollup at "@ + node + ": "@ + #[trigger] health_word(health),
        board_lines(node, round, worst, rows)[rows.len() + 3int] == "  rollup at "@ + node + ": "@
            + "FINE"@ ==> worst is None || worst == Some(Health::Fine),
{
    let lines = board_lines(node, round, worst, rows);
    let shown = match worst {
        Some(health) => health,
        None => Health::Fine,
    };
    assert(lines[rows.len() + 3int] == "  rollup at "@ + node + ": "@ + health_word(shown));
    if lines[rows.len() + 3int] == "  rollup at "@ + node + ": "@ + "FINE"@ {
        let prefix = "  rollup at "@ + node + ": "@;
        assert(health_word(shown) =~= (prefix + health_word(shown)).skip(prefix.len() as int));
        assert("FINE"@ =~= (prefix + "FINE"@).skip(prefix.len() as int));
        assert(health_word(Health::Fine) == "FINE"@);
        lemma_words_differ(shown, Health::Fine);
    }
}

} // verus!
