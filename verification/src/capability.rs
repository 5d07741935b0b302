//! What a node declares it can do: the stages of the message path it serves,
//! and whether it may assume the internet — and how the cluster tells a node
//! process both, `--can` and `--online`.

use vstd::prelude::*;

use crate::stage::{stage_name, Stage};
use crate::text::{
    append_chars, chars_of, char_views, join, push_char, same_chars, split_once,
    split_once_on, string_of, trim, trimmed, words, words_of,
};

verus! {

/// A node's declaration: which stages it serves, and whether it is online.
#[derive(Clone, Copy, Debug, PartialEq, Eq, Structural)]
pub struct Capability {
    /// It takes the Stream in through the transport.
    pub receive: bool,
    /// It holds the content contract over what arrived.
    pub process: bool,
    /// It sends the Stream out and closes the verdict.
    pub send: bool,
    /// It may assume a route to the internet.
    pub online: bool,
}

/// Whether `capability` serves `stage`.
pub open spec fn serves(capability: Capability, stage: Stage) -> bool {
    match stage {
        Stage::Receive => capability.receive,
        Stage::Process => capability.process,
        Stage::Send => capability.send,
    }
}

/// The same declaration serving `stage` too.
pub open spec fn adding(capability: Capability, stage: Stage) -> Capability {
    match stage {
        Stage::Receive => Capability { receive: true, ..capability },
        Stage::Process => Capability { process: true, ..capability },
        Stage::Send => Capability { send: true, ..capability },
    }
}

/// The stages declared, in the order of the message path.
pub open spec fn declared_stages(capability: Capability) -> Seq<Stage> {
    (if capability.receive { seq![Stage::Receive] } else { Seq::empty() })
        + (if capability.process { seq![Stage::Process] } else { Seq::empty() })
        + (if capability.send { seq![Stage::Send] } else { Seq::empty() })
}

/// The stage a word names, in lowercase exactly: `Send` names none.
pub open spec fn stage_of_word(word: Seq<char>) -> Option<Stage> {
    if word == stage_name(Stage::Receive) {
        Some(Stage::Receive)
    } else if word == stage_name(Stage::Process) {
        Some(Stage::Process)
    } else if word == stage_name(Stage::Send) {
        Some(Stage::Send)
    } else {
        None
    }
}

/// The declaration the words say, added up in order: the first word that
/// names no stage is the error.
pub open spec fn declaration(said: Seq<Seq<char>>) -> Result<Capability, Seq<char>>
    decreases said.len(),
{
    if said.len() == 0 {
        Ok(Capability { receive: false, process: false, send: false, online: false })
    } else {
        match declaration(said.drop_last()) {
            Err(word) => Err(word),
            Ok(so_far) => match stage_of_word(said.last()) {
                Some(stage) => Ok(adding(so_far, stage)),
                None => Err(said.last()),
            },
        }
    }
}

/// `+` read as `,`: a declaration may join its stages with either.
pub open spec fn plus_as_comma(text: Seq<char>) -> Seq<char> {
    text.map_values(|c: char| if c == '+' { ',' } else { c })
}

/// The refusal for a word that names no capability.
pub open spec fn refusal_of(word: Seq<char>) -> Seq<char> {
    "REFUSED: no capability is called "@ + word + "; the capabilities are receive, process, send"@
}

/// What `Capability::parse` answers for `text`.
pub open spec fn parsed(text: Seq<char>) -> Result<Capability, Seq<char>> {
    match declaration(words(plus_as_comma(text), ',')) {
        Ok(capability) => Ok(capability),
        Err(word) => Err(refusal_of(word)),
    }
}

/// The words a declaration writes its stages with, joined by `sep`.
pub open spec fn stage_words(stages: Seq<Stage>, sep: Seq<char>) -> Seq<char>
    decreases stages.len(),
{
    if stages.len() == 0 {
        Seq::empty()
    } else if stages.len() == 1 {
        stage_name(stages[0])
    } else {
        stage_words(stages.drop_last(), sep) + sep + stage_name(stages.last())
    }
}

/// The entry a roster lists a node by: its name, then `=` and its stages
/// joined by `+` when it declared any.
pub open spec fn entry_of(capability: Capability, name: Seq<char>) -> Seq<char> {
    if declared_stages(capability).len() == 0 {
        name
    } else {
        name + seq!['='] + stage_words(declared_stages(capability), seq!['+'])
    }
}

/// The name a roster entry gives: what stands before its first `=`,
/// trimmed.
pub open spec fn entry_name(entry: Seq<char>) -> Seq<char> {
    trim(split_once(entry, '=').0)
}

/// The declaration a roster entry gives: nothing where no `=` stands, else
/// what `parsed` reads after it.
pub open spec fn entry_declaration(entry: Seq<char>) -> Result<Capability, Seq<char>> {
    match split_once(entry, '=').1 {
        None => Ok(Capability { receive: false, process: false, send: false, online: false }),
        Some(after) => parsed(after),
    }
}

impl Capability {
    /// A node that declares no stage and is offline.
    pub fn none() -> (capability: Self)
        ensures
            capability == (Capability { receive: false, process: false, send: false, online: false }),
    {
        Capability { receive: false, process: false, send: false, online: false }
    }

    /// A node serving the stages given, offline.
    pub fn of(stages: &[Stage]) -> (capability: Self)
        ensures
            !capability.online,
            forall|stage: Stage| serves(capability, stage) <==> stages@.contains(stage),
    {
        let mut capability = Capability::none();
        let mut i: usize = 0;
        while i < stages.len()
            invariant
                i <= stages@.len(),
                !capability.online,
                forall|stage: Stage|
                    serves(capability, stage) <==> stages@.take(i as int).contains(stage),
            decreases stages@.len() - i,
        {
            let stage = stages[i];
            let ghost prior = capability;
            capability = capability.serving(stage);
            proof {
                assert forall|one: Stage|
                    serves(capability, one) <==> stages@.take(i as int + 1).contains(one) by {
                    let before = stages@.take(i as int);
                    let after = stages@.take(i as int + 1);
                    assert(after == before.push(stage));
                    assert(serves(capability, one) == (serves(prior, one) || one == stage));
                    if one == stage {
                        assert(after[i as int] == stage);
                    }
                    if before.contains(one) {
                        let k = choose|k: int| 0 <= k < before.len() && before[k] == one;
                        assert(after[k] == one);
                    }
                    if after.contains(one) && one != stage {
                        let k = choose|k: int| 0 <= k < after.len() && after[k] == one;
                        assert(k < i);
                        assert(before[k] == one);
                    }
                }
            }
            i = i + 1;
        }
        assert(stages@.take(stages@.len() as int) == stages@);
        capability
    }

    /// The same declaration serving `stage` too.
    pub fn serving(self, stage: Stage) -> (capability: Self)
        ensures
            capability == adding(self, stage),
    {
        match stage {
            Stage::Receive => Capability { receive: true, ..self },
            Stage::Process => Capability { process: true, ..self },
            Stage::Send => Capability { send: true, ..self },
        }
    }

    /// The same declaration, online or not as `online` says.
    pub fn with_online(self, online: bool) -> (capability: Self)
        ensures
            capability == (Capability { online, ..self }),
    {
        Capability { online, ..self }
    }

    /// Whether this node may assume the internet.
    pub fn is_online(&self) -> (online: bool)
        ensures
            online == self.online,
    {
        self.online
    }

    /// Whether this node serves `stage`.
    pub fn can(&self, stage: Stage) -> (yes: bool)
        ensures
            yes == serves(*self, stage),
    {
        match stage {
            Stage::Receive => self.receive,
            Stage::Process => self.process,
            Stage::Send => self.send,
        }
    }

    /// Whether this node serves no stage: it runs whole tests itself.
    pub fn declares_no_stage(&self) -> (none: bool)
        ensures
            none == (!self.receive && !self.process && !self.send),
    {
        !self.receive && !self.process && !self.send
    }

    /// The stages this node serves, in the order of the message path.
    pub fn features(&self) -> (stages: Vec<Stage>)
        ensures
            stages@ == declared_stages(*self),
    {
        let mut stages: Vec<Stage> = Vec::new();
        if self.receive {
            stages.push(Stage::Receive);
        }
        if self.process {
            stages.push(Stage::Process);
        }
        if self.send {
            stages.push(Stage::Send);
        }
        assert(stages@ =~= declared_stages(*self));
        stages
    }

    /// The word for the online capability: `online` or `offline`.
    pub fn word(&self) -> (word: &'static str)
        ensures
            word@ == (if self.online { "online"@ } else { "offline"@ }),
    {
        if self.online {
            "online"
        } else {
            "offline"
        }
    }

    /// The stages as `--can` takes them: their names joined by commas.
    pub fn words(&self) -> (text: String)
        ensures
            text@ == stage_words(declared_stages(*self), seq![',']),
    {
        let mut text = String::new();
        append_stage_words(&mut text, &self.features(), ',');
        text
    }

    /// The entry a roster lists the node called `name` by:
    /// `name[=stage[+stage]]`.
    pub fn entry(&self, name: &str) -> (text: String)
        ensures
            text@ == entry_of(*self, name@),
    {
        let mut text = String::new();
        text.append(name);
        let stages = self.features();
        if stages.len() > 0 {
            push_char(&mut text, '=');
            append_stage_words(&mut text, &stages, '+');
        }
        text
    }

    /// The declaration `text` says: stage names in lowercase, joined by `,`
    /// or `+`; nothing said is nothing declared. Offline.
    pub fn parse(text: &str) -> (result: Result<Self, String>)
        ensures
            match (result, parsed(text@)) {
                (Ok(capability), Ok(expected)) => capability == expected,
                (Err(said), Err(expected)) => said@ == expected,
                _ => false,
            },
    {
        let chars = chars_of(text);
        Self::parse_chars(chars.as_slice())
    }

    /// `parse` over characters.
    pub fn parse_chars(chars: &[char]) -> (result: Result<Self, String>)
        ensures
            match (result, parsed(chars@)) {
                (Ok(capability), Ok(expected)) => capability == expected,
                (Err(said), Err(expected)) => said@ == expected,
                _ => false,
            },
    {
        let mut commas: Vec<char> = Vec::new();
        let mut i: usize = 0;
        while i < chars.len()
            invariant
                i <= chars@.len(),
                commas@ == plus_as_comma(chars@.take(i as int)),
            decreases chars@.len() - i,
        {
            let c = chars[i];
            commas.push(if c == '+' { ',' } else { c });
            i = i + 1;
            assert(commas@ =~= plus_as_comma(chars@.take(i as int)));
        }
        assert(chars@.take(chars@.len() as int) == chars@);
        let said = words_of(commas.as_slice(), ',');
        let ghost all = char_views(said@);
        assert(commas@ == plus_as_comma(chars@));
        assert(all == words(plus_as_comma(chars@), ','));
        let mut capability = Capability::none();
        let mut j: usize = 0;
        while j < said.len()
            invariant
                j <= said@.len(),
                all == char_views(said@),
                all == words(plus_as_comma(chars@), ','),
                declaration(all.take(j as int)) == Ok::<Capability, Seq<char>>(capability),
            decreases said@.len() - j,
        {
            proof {
                assert(all.take(j as int + 1).drop_last() == all.take(j as int));
                assert(all.take(j as int + 1).last() == said@[j as int]@);
            }
            match stage_named(said[j].as_slice()) {
                Some(stage) => {
                    capability = capability.serving(stage);
                },
                None => {
                    let mut refusal = String::new();
                    refusal.append("REFUSED: no capability is called ");
                    append_chars(&mut refusal, said[j].as_slice());
                    refusal.append("; the capabilities are receive, process, send");
                    proof {
                        assert(declaration(all.take(j as int + 1)) == Err::<Capability, Seq<char>>(
                            said@[j as int]@,
                        ));
                        lemma_first_refusal_stays(all, j as int + 1);
                        assert(refusal@ == refusal_of(said@[j as int]@));
                        assert(words(plus_as_comma(chars@), ',') == all);
                        assert(declaration(all) == Err::<Capability, Seq<char>>(said@[j as int]@));
                    }
                    return Err(refusal);
                },
            }
            j = j + 1;
        }
        assert(all.take(said@.len() as int) == all);
        Ok(capability)
    }

    /// A roster entry read: the name before the first `=`, trimmed, and the
    /// declaration after it — nothing declared where no `=` stands.
    pub fn from_entry(entry: &str) -> (read: (String, Result<Self, String>))
        ensures
            read.0@ == entry_name(entry@),
            match (read.1, entry_declaration(entry@)) {
                (Ok(capability), Ok(expected)) => capability == expected,
                (Err(said), Err(expected)) => said@ == expected,
                _ => false,
            },
    {
        let chars = chars_of(entry);
        let (before, after) = split_once_on(chars.as_slice(), '=');
        let name = string_of(trimmed(before.as_slice()).as_slice());
        match after {
            None => (name, Ok(Capability::none())),
            Some(after) => (name, Self::parse_chars(after.as_slice())),
        }
    }
}

/// Once a word is refused, every longer list of words is refused for it.
proof fn lemma_first_refusal_stays(said: Seq<Seq<char>>, at: int)
    requires
        0 < at <= said.len(),
        declaration(said.take(at)) is Err,
    ensures
        declaration(said) == declaration(said.take(at)),
    decreases said.len() - at,
{
    if at == said.len() {
        assert(said.take(at) == said);
    } else {
        assert(said.take(at + 1).drop_last() == said.take(at));
        lemma_first_refusal_stays(said, at + 1);
    }
}

/// The stage a word names, in lowercase exactly.
pub fn stage_named(word: &[char]) -> (stage: Option<Stage>)
    ensures
        stage == stage_of_word(word@),
{
    let low = word;
    let receive = chars_of(Stage::Receive.name());
    let process = chars_of(Stage::Process.name());
    let send = chars_of(Stage::Send.name());
    if same_chars(low, receive.as_slice()) {
        Some(Stage::Receive)
    } else if same_chars(low, process.as_slice()) {
        Some(Stage::Process)
    } else if same_chars(low, send.as_slice()) {
        Some(Stage::Send)
    } else {
        None
    }
}

/// `out` grows by the stages' names, joined by `sep`.
fn append_stage_words(out: &mut String, stages: &Vec<Stage>, sep: char)
    ensures
        final(out)@ == old(out)@ + stage_words(stages@, seq![sep]),
{
    let mut i: usize = 0;
    while i < stages.len()
        invariant
            i <= stages@.len(),
            out@ == old(out)@ + stage_words(stages@.take(i as int), seq![sep]),
        decreases stages@.len() - i,
    {
        proof {
            assert(stages@.take(i as int + 1).drop_last() == stages@.take(i as int));
        }
        if i > 0 {
            push_char(out, sep);
        }
        out.append(stages[i].name());
        i = i + 1;
        proof {
            if i == 1 {
                assert(stages@.take(0) =~= Seq::<Stage>::empty());
            }
        }
        assert(out@ =~= old(out)@ + stage_words(stages@.take(i as int), seq![sep]));
    }
    assert(stages@.take(stages@.len() as int) == stages@);
}

/// The capability as the node binary's flags: `--can` with its stages, and
/// `--online` with whether it may assume the internet.
pub fn flags(capability: &Capability) -> (flags: Vec<String>)
    ensures
        flags@.len() == 4,
        flags@[0]@ == "--can"@,
        flags@[1]@ == stage_words(declared_stages(*capability), seq![',']),
        flags@[2]@ == "--online"@,
        flags@[3]@ == (if capability.online { "true"@ } else { "false"@ }),
{
    let mut can = String::new();
    can.append("--can");
    let mut online = String::new();
    online.append("--online");
    let mut said = String::new();
    said.append(if capability.is_online() { "true" } else { "false" });
    let mut flags: Vec<String> = Vec::new();
    flags.push(can);
    flags.push(capability.words());
    flags.push(online);
    flags.push(said);
    flags
}


/// A stage's name is one plain word: not empty, holding no separator, no
/// space at either end, and naming that stage.
pub proof fn lemma_stage_name_plain(stage: Stage)
    ensures
        stage_name(stage).len() > 0,
        !stage_name(stage).contains(','),
        !stage_name(stage).contains('+'),
        !stage_name(stage).contains('='),
        trim(stage_name(stage)) == stage_name(stage),
        stage_of_word(stage_name(stage)) == Some(stage),
{
    let name = stage_name(stage);
    assert(!name.contains(',') && !name.contains('+') && !name.contains('=')) by {
        assert forall|i: int| 0 <= i < name.len() implies name[i] != ',' && name[i] != '+'
            && name[i] != '=' by {
            assert('a' <= name[i] <= 'z');
        }
    }
    crate::text::lemma_trim_unchanged(name);
}

/// The words a declaration writes its stages with are its stages' names
/// joined by `sep`.
pub proof fn lemma_stage_words_joined(stages: Seq<Stage>, sep: Seq<char>)
    ensures
        stage_words(stages, sep) == join(stages.map_values(|stage: Stage| stage_name(stage)), sep),
    decreases stages.len(),
{
    let names = stages.map_values(|stage: Stage| stage_name(stage));
    if stages.len() >= 2 {
        lemma_stage_words_joined(stages.drop_last(), sep);
        assert(stages.drop_last().map_values(|stage: Stage| stage_name(stage)) == names.drop_last());
    } else if stages.len() == 1 {
        assert(names[0] == stage_name(stages[0]));
    }
}

/// Words holding no `+`, joined by `,` or by `+`, read with `+` as `,` are
/// the words joined by `,`.
proof fn lemma_plus_joined(pieces: Seq<Seq<char>>, sep: char)
    requires
        sep == ',' || sep == '+',
        forall|i: int| 0 <= i < pieces.len() ==> !(#[trigger] pieces[i]).contains('+'),
    ensures
        plus_as_comma(join(pieces, seq![sep])) == join(pieces, seq![',']),
    decreases pieces.len(),
{
    if pieces.len() == 0 {
        assert(plus_as_comma(Seq::<char>::empty()) =~= Seq::<char>::empty());
    } else {
        let last = pieces.last();
        assert(!pieces[pieces.len() - 1].contains('+'));
        assert(plus_as_comma(last) =~= last) by {
            assert forall|i: int| 0 <= i < last.len() implies last[i] != '+' by {
                if last[i] == '+' {
                    assert(last.contains('+'));
                }
            }
        }
        if pieces.len() == 1 {
        } else {
            let before = pieces.drop_last();
            assert forall|i: int| 0 <= i < before.len() implies !(#[trigger] before[i]).contains('+') by {
                assert(before[i] == pieces[i]);
            }
            lemma_plus_joined(before, sep);
            let head = join(before, seq![sep]);
            assert(plus_as_comma(head + seq![sep] + last) =~= plus_as_comma(head) + seq![','] + plus_as_comma(last));
        }
    }
}

/// What the first `k` stages of a declaration, by name, add up to.
proof fn lemma_adds_up_to(capability: Capability, k: int)
    requires
        0 <= k <= declared_stages(capability).len(),
    ensures
        ({
            let stages = declared_stages(capability);
            declaration(stages.map_values(|stage: Stage| stage_name(stage)).take(k)) == Ok::<
                Capability,
                Seq<char>,
            >(
                Capability {
                    receive: stages.take(k).contains(Stage::Receive),
                    process: stages.take(k).contains(Stage::Process),
                    send: stages.take(k).contains(Stage::Send),
                    online: false,
                },
            )
        }),
    decreases k,
{
    let stages = declared_stages(capability);
    let names = stages.map_values(|stage: Stage| stage_name(stage));
    if k == 0 {
        assert(names.take(0) =~= Seq::<Seq<char>>::empty());
        assert(stages.take(0) =~= Seq::<Stage>::empty());
    } else {
        lemma_adds_up_to(capability, k - 1);
        lemma_stage_name_plain(stages[k - 1]);
        assert(names.take(k).drop_last() == names.take(k - 1));
        assert(names.take(k).last() == stage_name(stages[k - 1]));
        let before = stages.take(k - 1);
        assert(stages.take(k) == before.push(stages[k - 1]));
        assert forall|stage: Stage| stages.take(k).contains(stage) <==> (before.contains(stage)
            || stage == stages[k - 1]) by {
            if stages.take(k).contains(stage) && stage != stages[k - 1] {
                let j = choose|j: int| 0 <= j < k && stages.take(k)[j] == stage;
                assert(j < k - 1);
                assert(before[j] == stage);
            }
            if before.contains(stage) {
                let j = choose|j: int| 0 <= j < k - 1 && before[j] == stage;
                assert(stages.take(k)[j] == stage);
            }
            if stage == stages[k - 1] {
                assert(stages.take(k)[k - 1] == stage);
            }
        }
    }
}

/// The declaration a run of stages in path order adds up to.
proof fn lemma_declared_adds_up(capability: Capability)
    ensures
        declaration(declared_stages(capability).map_values(|stage: Stage| stage_name(stage))) == Ok::<
            Capability,
            Seq<char>,
        >(Capability { online: false, ..capability }),
{
    let stages = declared_stages(capability);
    let names = stages.map_values(|stage: Stage| stage_name(stage));
    lemma_adds_up_to(capability, stages.len() as int);
    assert(names.take(names.len() as int) == names);
    assert(stages.take(stages.len() as int) == stages);
    assert(stages.contains(Stage::Receive) == capability.receive) by {
        if capability.receive {
            assert(stages[0] == Stage::Receive);
        }
    }
    assert(stages.contains(Stage::Process) == capability.process) by {
        if capability.process {
            if capability.receive {
                assert(stages[1] == Stage::Process);
            } else {
                assert(stages[0] == Stage::Process);
            }
        }
    }
    assert(stages.contains(Stage::Send) == capability.send) by {
        if capability.send {
            assert(stages[stages.len() - 1] == Stage::Send);
        }
    }
}

/// A declaration written with its stages joined by `,` — as `--can` takes
/// it — or by `+` — as a roster entry writes it — reads back as the same
/// declaration, offline: the node reads its `--can` back by the one parse.
pub proof fn lemma_declaration_reads_back(capability: Capability, sep: char)
    requires
        sep == ',' || sep == '+',
    ensures
        parsed(stage_words(declared_stages(capability), seq![sep])) == Ok::<Capability, Seq<char>>(
            Capability { online: false, ..capability },
        ),
{
    let stages = declared_stages(capability);
    let names = stages.map_values(|stage: Stage| stage_name(stage));
    lemma_stage_words_joined(stages, seq![sep]);
    assert forall|i: int| 0 <= i < names.len() implies (#[trigger] names[i]).len() > 0
        && !names[i].contains(',') && !names[i].contains('+') && trim(names[i]) == names[i] by {
        lemma_stage_name_plain(stages[i]);
    }
    lemma_plus_joined(names, sep);
    crate::text::lemma_words_join(names, ',');
    lemma_declared_adds_up(capability);
}

} // verus!
