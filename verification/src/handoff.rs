//! The handoff between node processes: a pair's bytes passed from the node
//! that received it to one that can process it and on to one that can send
//! it. What goes between them is one header line, then the bytes as they
//! are; every delivered handoff is a hop, counted per link in [`Hops`].

use vstd::prelude::*;

use vstd::utf8::{decode_utf8, encode_utf8, valid_utf8};

use crate::number::{append_decimal, decimal, parse_whole, whole_number};
use crate::stage::{stage_name, Stage};
use crate::text::{
    chars_of, char_views, comes_before, precedes, push_char, same_chars, split, split_on, string_of,
    string_views,
};

verus! {

/// The first word of every handoff's header.
pub const MAGIC: &'static str = "xmip-handoff-1";

/// The content contracts a round trip carries, by name.
pub const CONTRACTS: [&'static str; 6] = ["json", "xml", "csv", "fixed-width", "text", "bytes"];

/// The content contracts' names.
pub open spec fn contract_names() -> Seq<Seq<char>> {
    seq!["json"@, "xml"@, "csv"@, "fixed-width"@, "text"@, "bytes"@]
}

/// One pair's bytes on their way to the next node.
#[derive(Clone, Debug, PartialEq, Eq)]
pub struct Handoff {
    /// The transport the pair goes over, by name.
    pub transport: String,
    /// The content contract the pair holds, by name.
    pub contract: String,
    /// The round the receiving node took it in: the pair's id with the two
    /// above, and what every later stage's faults are decided by.
    pub round: u64,
    /// The node that handed it on.
    pub from: String,
    /// What arrived, as it arrived.
    pub bytes: Vec<u8>,
}

/// A handoff as plain values.
pub struct HandoffView {
    pub transport: Seq<char>,
    pub contract: Seq<char>,
    pub round: u64,
    pub from: Seq<char>,
    pub bytes: Seq<u8>,
}

impl View for Handoff {
    type V = HandoffView;

    open spec fn view(&self) -> HandoffView {
        HandoffView {
            transport: self.transport@,
            contract: self.contract@,
            round: self.round,
            from: self.from@,
            bytes: self.bytes@,
        }
    }
}

/// The header line of a handoff, without its line end:
/// `xmip-handoff-1 <transport> <contract> <round> <from> <length>`.
pub open spec fn header(handoff: HandoffView) -> Seq<char> {
    "xmip-handoff-1"@ + seq![' '] + handoff.transport + seq![' '] + handoff.contract + seq![' ']
        + decimal(handoff.round as nat) + seq![' '] + handoff.from + seq![' '] + decimal(
        handoff.bytes.len(),
    )
}

/// A handoff as it is written: the header line, then the bytes as they are.
pub open spec fn encoded(handoff: HandoffView) -> Seq<u8> {
    encode_utf8(header(handoff) + seq!['\n']) + handoff.bytes
}

/// Whether the line end stands at `at` and nowhere before it.
pub open spec fn line_end_at(raw: Seq<u8>, at: int) -> bool {
    &&& 0 <= at < raw.len()
    &&& raw[at] == 10u8
    &&& forall|j: int| 0 <= j < at ==> raw[j] != 10u8
}

/// What the header's words say, once the header read as characters:
/// `None` when they are not a handoff's, or the length is not the bytes'.
pub open spec fn read_header(words: Seq<Seq<char>>, body: Seq<u8>) -> Option<HandoffView> {
    if words.len() >= 6 && words[0] == "xmip-handoff-1"@ && contract_names().contains(words[2])
        && whole_number(words[3], u64::MAX as nat) is Some && whole_number(
        words[5],
        usize::MAX as nat,
    ) == Some(body.len()) {
        Some(
            HandoffView {
                transport: words[1],
                contract: words[2],
                round: whole_number(words[3], u64::MAX as nat).unwrap() as u64,
                from: words[4],
                bytes: body,
            },
        )
    } else {
        None
    }
}

/// What `Handoff::decode` reads from `raw`: the header up to the first line
/// end, which must be UTF-8 and name a handoff, and the bytes after it,
/// which must be as many as it says.
pub open spec fn decoded(raw: Seq<u8>) -> Option<HandoffView> {
    if exists|at: int| line_end_at(raw, at) {
        let at = choose|at: int| line_end_at(raw, at);
        let head = raw.take(at);
        if valid_utf8(head) {
            read_header(split(decode_utf8(head), ' '), raw.skip(at + 1))
        } else {
            None
        }
    } else {
        None
    }
}

/// `std::str::from_utf8`: the text `bytes` are, when they are valid UTF-8.
#[verifier::external_body]
fn utf8_text(bytes: &[u8]) -> (text: Option<&str>)
    ensures
        match text {
            Some(text) => valid_utf8(bytes@) && text@ == decode_utf8(bytes@),
            None => !valid_utf8(bytes@),
        },
{
    std::str::from_utf8(bytes).ok()
}

impl Handoff {
    /// One header line, then the bytes as they are.
    pub fn encode(&self) -> (out: Vec<u8>)
        requires
            self.bytes@.len() <= u64::MAX,
        ensures
            out@ == encoded(self@),
    {
        let mut line = String::new();
        line.append(MAGIC);
        crate::text::push_char(&mut line, ' ');
        line.append(self.transport.as_str());
        crate::text::push_char(&mut line, ' ');
        line.append(self.contract.as_str());
        crate::text::push_char(&mut line, ' ');
        append_decimal(&mut line, self.round);
        crate::text::push_char(&mut line, ' ');
        line.append(self.from.as_str());
        crate::text::push_char(&mut line, ' ');
        append_decimal(&mut line, self.bytes.len() as u64);
        crate::text::push_char(&mut line, '\n');
        proof {
            reveal_strlit("xmip-handoff-1");
        }
        assert(line@ =~= header(self@) + seq!['\n']);
        let head = line.as_str().as_bytes();
        let mut out: Vec<u8> = Vec::new();
        let mut i: usize = 0;
        while i < head.len()
            invariant
                i <= head@.len(),
                out@ == head@.take(i as int),
            decreases head@.len() - i,
        {
            out.push(head[i]);
            i = i + 1;
        }
        let mut j: usize = 0;
        while j < self.bytes.len()
            invariant
                j <= self.bytes@.len(),
                out@ == head@ + self.bytes@.take(j as int),
            decreases self.bytes@.len() - j,
        {
            out.push(self.bytes[j]);
            j = j + 1;
            assert(out@ =~= head@ + self.bytes@.take(j as int));
        }
        assert(head@.take(head@.len() as int) == head@);
        assert(self.bytes@.take(self.bytes@.len() as int) == self.bytes@);
        out
    }

    /// The handoff `raw` holds: `None` when it has no line end, its header
    /// is not UTF-8 or not a handoff's, the contract is none there is, or the
    /// bytes after the header are not as many as it says.
    pub fn decode(raw: &[u8]) -> (handoff: Option<Handoff>)
        ensures
            match (handoff, decoded(raw@)) {
                (Some(read), Some(expected)) => read@ == expected,
                (None, None) => true,
                _ => false,
            },
    {
        let mut end: usize = 0;
        while end < raw.len() && raw[end] != 10u8
            invariant
                end <= raw@.len(),
                forall|j: int| 0 <= j < end ==> raw@[j] != 10u8,
            decreases raw@.len() - end,
        {
            end = end + 1;
        }
        if end >= raw.len() {
            assert forall|at: int| !line_end_at(raw@, at) by {
                if 0 <= at < raw@.len() {
                    assert(raw@[at] != 10u8);
                }
            }
            return None;
        }
        proof {
            assert(line_end_at(raw@, end as int));
            let other = choose|at: int| line_end_at(raw@, at);
            if other < end {
                assert(raw@[other] != 10u8);
            }
            if other > end {
                assert(raw@[end as int] != 10u8);
            }
        }
        let mut head: Vec<u8> = Vec::new();
        let mut i: usize = 0;
        while i < end
            invariant
                i <= end < raw@.len(),
                head@ == raw@.take(i as int),
            decreases end - i,
        {
            head.push(raw[i]);
            i = i + 1;
        }
        let mut body: Vec<u8> = Vec::new();
        let mut k: usize = end + 1;
        while k < raw.len()
            invariant
                end < k <= raw@.len(),
                body@ == raw@.subrange(end as int + 1, k as int),
            decreases raw@.len() - k,
        {
            body.push(raw[k]);
            k = k + 1;
        }
        assert(body@ == raw@.skip(end as int + 1));
        let text = match utf8_text(head.as_slice()) {
            Some(text) => text,
            None => return None,
        };
        let chars = chars_of(text);
        let words = split_on(chars.as_slice(), ' ');
        let ghost said = char_views(words@);
        assert(said == split(decode_utf8(raw@.take(end as int)), ' '));
        if words.len() < 6 {
            return None;
        }
        proof {
            reveal_strlit("xmip-handoff-1");
        }
        let magic = chars_of(MAGIC);
        if !same_chars(words[0].as_slice(), magic.as_slice()) {
            return None;
        }
        if !known_contract(words[2].as_slice()) {
            return None;
        }
        let round = match parse_whole(words[3].as_slice()) {
            Some(round) => round,
            None => return None,
        };
        let length = match parse_whole(words[5].as_slice()) {
            Some(length) => length,
            None => return None,
        };
        if length != body.len() as u64 {
            return None;
        }
        proof {
            assert(whole_number(said[5], usize::MAX as nat) == Some(body@.len()));
        }
        Some(
            Handoff {
                transport: string_of(words[1].as_slice()),
                contract: string_of(words[2].as_slice()),
                round,
                from: string_of(words[4].as_slice()),
                bytes: body,
            },
        )
    }
}

/// Whether `name` is a content contract's name.
pub fn known_contract(name: &[char]) -> (known: bool)
    ensures
        known == contract_names().contains(name@),
{
    let names: [&str; 6] = CONTRACTS;
    let mut i: usize = 0;
    while i < 6
        invariant
            i <= 6,
            names@ == seq!["json", "xml", "csv", "fixed-width", "text", "bytes"],
            forall|j: int| 0 <= j < i ==> contract_names()[j] != name@,
        decreases 6 - i,
    {
        let one = chars_of(names[i]);
        if same_chars(one.as_slice(), name) {
            assert(contract_names()[i as int] == name@);
            return true;
        }
        i = i + 1;
    }
    assert forall|j: int| 0 <= j < contract_names().len() implies contract_names()[j] != name@ by {}
    false
}

/// The encoding of two texts one after the other is their encodings one
/// after the other.
pub proof fn lemma_encode_concat(first: Seq<char>, second: Seq<char>)
    ensures
        encode_utf8(first + second) == encode_utf8(first) + encode_utf8(second),
    decreases first.len(),
{
    if first.len() > 0 {
        lemma_encode_concat(first.drop_first(), second);
        assert((first + second).drop_first() == first.drop_first() + second);
        assert((first + second)[0] == first[0]);
    } else {
        assert(first + second == second);
    }
}

/// No byte of a character's encoding is a line end, unless it is one.
proof fn lemma_scalar_not_line_end(c: char)
    requires
        c != '\n',
    ensures
        forall|j: int| 0 <= j < vstd::utf8::encode_scalar(c as u32).len()
            ==> #[trigger] vstd::utf8::encode_scalar(c as u32)[j] != 10u8,
{
    let v = c as u32;
    if vstd::utf8::has_width_1_encoding(v) {
        assert(v != 10u32);
        assert(v <= 0x7F ==> (v & 0x7F) == v) by (bit_vector);
        assert(((v & 0x7F) as u8) != 10u8) by (bit_vector)
            requires
                v <= 0x7F,
                v != 10u32,
        ;
    } else {
        assert(forall|x: u32| #![auto] (0xC0u8 | ((x >> 6) & 0x1F) as u8) != 10u8) by (bit_vector);
        assert(forall|x: u32| #![auto] (0xE0u8 | ((x >> 12) & 0x0F) as u8) != 10u8) by (bit_vector);
        assert(forall|x: u32| #![auto] (0xF0u8 | ((x >> 18) & 0x7) as u8) != 10u8) by (bit_vector);
        assert(forall|x: u32| #![auto] (0x80u8 | (x & 0x3F) as u8) != 10u8) by (bit_vector);
        assert(forall|x: u32| #![auto] (0x80u8 | ((x >> 6) & 0x3F) as u8) != 10u8) by (bit_vector);
        assert(forall|x: u32| #![auto] (0x80u8 | ((x >> 12) & 0x3F) as u8) != 10u8) by (bit_vector);
    }
}

/// Text with no line end encodes to bytes with no line end.
proof fn lemma_no_line_end(text: Seq<char>)
    requires
        !text.contains('\n'),
    ensures
        forall|j: int| 0 <= j < encode_utf8(text).len() ==> #[trigger] encode_utf8(text)[j] != 10u8,
    decreases text.len(),
{
    if text.len() > 0 {
        assert(text[0] != '\n');
        assert(!text.drop_first().contains('\n')) by {
            if text.drop_first().contains('\n') {
                let k = choose|k: int| 0 <= k < text.drop_first().len() && text.drop_first()[k] == '\n';
                assert(text[k + 1] == '\n');
            }
        }
        lemma_scalar_not_line_end(text[0]);
        lemma_no_line_end(text.drop_first());
        let first = vstd::utf8::encode_scalar(text[0] as u32);
        let rest = encode_utf8(text.drop_first());
        assert(encode_utf8(text) == first + rest);
        assert forall|j: int| 0 <= j < encode_utf8(text).len() implies #[trigger] encode_utf8(
            text,
        )[j] != 10u8 by {
            if j < first.len() {
                assert(encode_utf8(text)[j] == first[j]);
            } else {
                assert(encode_utf8(text)[j] == rest[j - first.len()]);
            }
        }
    }
}

/// Whether neither a space nor a line end stands in `text`.
pub open spec fn one_word(text: Seq<char>) -> bool {
    !text.contains(' ') && !text.contains('\n')
}

/// Joining words with spaces makes text with no line end.
proof fn lemma_words_no_line_end(first: Seq<char>, second: Seq<char>)
    requires
        !first.contains('\n'),
        !second.contains('\n'),
    ensures
        !(first + seq![' '] + second).contains('\n'),
{
    let whole = first + seq![' '] + second;
    if whole.contains('\n') {
        let k = choose|k: int| 0 <= k < whole.len() && whole[k] == '\n';
        if k < first.len() {
            assert(first[k] == '\n');
        } else if k > first.len() {
            assert(second[k - first.len() - 1] == '\n');
        }
    }
}

/// A number in decimal is one word.
proof fn lemma_decimal_one_word(n: nat)
    ensures
        one_word(decimal(n)),
{
    crate::number::lemma_decimal(n);
    let d = decimal(n);
    if d.contains(' ') {
        let k = choose|k: int| 0 <= k < d.len() && d[k] == ' ';
        assert(crate::number::is_digit(d[k]));
    }
    if d.contains('\n') {
        let k = choose|k: int| 0 <= k < d.len() && d[k] == '\n';
        assert(crate::number::is_digit(d[k]));
    }
}

/// Every content contract's name is one word.
proof fn lemma_contracts_one_word(name: Seq<char>)
    requires
        contract_names().contains(name),
    ensures
        one_word(name),
{
    reveal_strlit("json");
    reveal_strlit("xml");
    reveal_strlit("csv");
    reveal_strlit("fixed-width");
    reveal_strlit("text");
    reveal_strlit("bytes");
    let k = choose|k: int| 0 <= k < contract_names().len() && contract_names()[k] == name;
    assert(name == contract_names()[k]);
}

/// What is written as a handoff reads back as that handoff, whole: the
/// transport, the contract, the round, the sender and every byte. This holds
/// whenever the transport and the sender are single words — no space, no
/// line end — the contract is one there is, and the bytes are as many as a
/// length can say.
pub proof fn lemma_handoff_round_trip(handoff: HandoffView)
    requires
        one_word(handoff.transport),
        one_word(handoff.from),
        contract_names().contains(handoff.contract),
        handoff.bytes.len() <= usize::MAX,
    ensures
        decoded(encoded(handoff)) == Some(handoff),
{
    reveal_strlit("xmip-handoff-1");
    let magic = "xmip-handoff-1"@;
    let round = decimal(handoff.round as nat);
    let length = decimal(handoff.bytes.len());
    lemma_decimal_one_word(handoff.round as nat);
    lemma_decimal_one_word(handoff.bytes.len());
    lemma_contracts_one_word(handoff.contract);
    assert(one_word(magic)) by {
        if magic.contains(' ') {
            let k = choose|k: int| 0 <= k < magic.len() && magic[k] == ' ';
        }
        if magic.contains('\n') {
            let k = choose|k: int| 0 <= k < magic.len() && magic[k] == '\n';
        }
    }
    let p1 = magic + seq![' '] + handoff.transport;
    let p2 = p1 + seq![' '] + handoff.contract;
    let p3 = p2 + seq![' '] + round;
    let p4 = p3 + seq![' '] + handoff.from;
    let line = p4 + seq![' '] + length;
    assert(line == header(handoff));
    lemma_words_no_line_end(magic, handoff.transport);
    lemma_words_no_line_end(p1, handoff.contract);
    lemma_words_no_line_end(p2, round);
    lemma_words_no_line_end(p3, handoff.from);
    lemma_words_no_line_end(p4, length);

    crate::text::lemma_split_whole(magic, ' ');
    crate::text::lemma_split_whole(handoff.transport, ' ');
    crate::text::lemma_split_whole(handoff.contract, ' ');
    crate::text::lemma_split_whole(round, ' ');
    crate::text::lemma_split_whole(handoff.from, ' ');
    crate::text::lemma_split_whole(length, ' ');
    crate::text::lemma_split_joined(magic, handoff.transport, ' ');
    crate::text::lemma_split_joined(p1, handoff.contract, ' ');
    crate::text::lemma_split_joined(p2, round, ' ');
    crate::text::lemma_split_joined(p3, handoff.from, ' ');
    crate::text::lemma_split_joined(p4, length, ' ');
    let words = split(line, ' ');
    assert(words == seq![magic, handoff.transport, handoff.contract, round, handoff.from, length]);

    let raw = encoded(handoff);
    let head = encode_utf8(line);
    lemma_encode_concat(line, seq!['\n']);
    assert(encode_utf8(seq!['\n']) == seq![10u8]) by {
        let end = seq!['\n'];
        assert(end.drop_first() =~= Seq::<char>::empty());
        assert(encode_utf8(end.drop_first()) =~= Seq::<u8>::empty());
        assert((end[0] as u32) == 10u32);
        assert(((10u32 & 0x7F) as u8) == 10u8) by (bit_vector);
        assert(vstd::utf8::encode_scalar(10u32) =~= seq![10u8]);
        assert(encode_utf8(end) =~= vstd::utf8::encode_scalar(10u32) + Seq::<u8>::empty());
    }
    assert(raw == head + seq![10u8] + handoff.bytes);
    lemma_no_line_end(line);
    let at = head.len() as int;
    assert(line_end_at(raw, at));
    let chosen = choose|k: int| line_end_at(raw, k);
    assert(chosen == at) by {
        if chosen < at {
            assert(raw[chosen] == head[chosen]);
        }
        if chosen > at {
            assert(raw[at] == 10u8);
        }
    }
    assert(raw.take(at) == head);
    assert(raw.skip(at + 1) == handoff.bytes);
    vstd::utf8::encode_utf8_valid_utf8(line);
    vstd::utf8::encode_utf8_decode_utf8(line);
    crate::number::lemma_decimal_reads_back(handoff.round as nat, u64::MAX as nat);
    crate::number::lemma_decimal_reads_back(handoff.bytes.len(), usize::MAX as nat);
}

/// The hops over one link: how many handoffs `from` delivered `to`, the
/// stage each end served, and when the last one was.
#[derive(Clone, Debug, Default, PartialEq, Eq)]
pub struct Hop {
    /// The node the handoffs left.
    pub from: String,
    /// The stage they left, by name.
    pub from_stage: String,
    /// The node they were delivered to.
    pub to: String,
    /// The stage they were delivered to, by name.
    pub to_stage: String,
    /// How many were delivered.
    pub count: u64,
    /// When the last one was.
    pub last_unix_nanos: i64,
}

/// A hop as plain values.
pub struct HopView {
    pub from: Seq<char>,
    pub from_stage: Seq<char>,
    pub to: Seq<char>,
    pub to_stage: Seq<char>,
    pub count: u64,
    pub last_unix_nanos: i64,
}

impl View for Hop {
    type V = HopView;

    open spec fn view(&self) -> HopView {
        HopView {
            from: self.from@,
            from_stage: self.from_stage@,
            to: self.to@,
            to_stage: self.to_stage@,
            count: self.count,
            last_unix_nanos: self.last_unix_nanos,
        }
    }
}

/// One end of a link, as the key names it: `node/stage`.
pub open spec fn end_key(node: Seq<char>, stage: Seq<char>) -> Seq<char> {
    node + seq!['/'] + stage
}

/// The key a link is filed under: where it starts, then where it ends.
pub open spec fn link_key(hop: HopView) -> (Seq<char>, Seq<char>) {
    (end_key(hop.from, hop.from_stage), end_key(hop.to, hop.to_stage))
}

/// Whether key `a` is filed before key `b`.
pub open spec fn key_before(a: (Seq<char>, Seq<char>), b: (Seq<char>, Seq<char>)) -> bool {
    crate::text::precedes(a.0, b.0) || (a.0 == b.0 && crate::text::precedes(a.1, b.1))
}

/// Whether every link is filed before the next, and so no two share a key.
pub open spec fn ordered(links: Seq<HopView>) -> bool {
    forall|i: int, j: int|
        0 <= i < j < links.len() ==> key_before(link_key(#[trigger] links[i]), link_key(
            #[trigger] links[j],
        ))
}

/// The views of a list of hops.
pub open spec fn hop_views(links: Seq<Hop>) -> Seq<HopView> {
    links.map_values(|hop: Hop| hop@)
}

/// The link `hop` after one more handoff at `now`.
pub open spec fn bumped(hop: HopView, now: i64) -> HopView {
    HopView { count: (hop.count + 1) as u64, last_unix_nanos: now, ..hop }
}

/// What `Hops::record` leaves of `links` for one handoff from `from` at
/// `from_stage` to `to` at `to_stage`, at `now`: the link's count one up and
/// its time `now`, or — the first over it — a new link of one, filed in its
/// place.
pub open spec fn recorded(
    links: Seq<HopView>,
    before: Seq<HopView>,
    fresh: HopView,
    now: i64,
) -> bool {
    let key = link_key(fresh);
    ||| exists|i: int|
        0 <= i < links.len() && link_key(links[i]) == key && before == links.update(
            i,
            bumped(links[i], now),
        )
    ||| (forall|i: int| 0 <= i < links.len() ==> link_key(#[trigger] links[i]) != key) && exists|
        at: int,
    |
        0 <= at <= links.len() && (forall|i: int|
            0 <= i < at ==> key_before(link_key(#[trigger] links[i]), key)) && (forall|i: int|
            at <= i < links.len() ==> key_before(key, link_key(#[trigger] links[i])))
            && before == links.insert(at, fresh)
}

/// Every link a node has handed over, with its hops, filed by where they
/// start and end.
#[derive(Debug)]
pub struct Hops {
    links: Vec<Hop>,
}

impl View for Hops {
    type V = Seq<HopView>;

    closed spec fn view(&self) -> Seq<HopView> {
        hop_views(self.links@)
    }
}

impl Hops {
    #[verifier::type_invariant]
    closed spec fn filed(self) -> bool {
        ordered(hop_views(self.links@))
    }

    /// No link yet.
    pub fn new() -> (hops: Self)
        ensures
            hops@ == Seq::<HopView>::empty(),
    {
        let links: Vec<Hop> = Vec::new();
        assert(hop_views(links@) =~= Seq::<HopView>::empty());
        let hops = Hops { links };
        hops
    }

    /// The links, filed by where they start and end: none shares another's
    /// key.
    pub fn links(&self) -> (links: &[Hop])
        ensures
            hop_views(links@) == self@,
            ordered(self@),
    {
        proof {
            use_type_invariant(self);
        }
        self.links.as_slice()
    }

    /// Record one delivered handoff from one node's stage to another's.
    pub fn record(&mut self, from: (&str, Stage), to: (&str, Stage), now: i64)
        requires
            forall|i: int|
                0 <= i < old(self)@.len() && link_key(old(self)@[i]) == (
                    end_key(from.0@, stage_name(from.1)),
                    end_key(to.0@, stage_name(to.1)),
                ) ==> old(self)@[i].count < u64::MAX,
        ensures
            ordered(final(self)@),
            recorded(
                old(self)@,
                final(self)@,
                HopView {
                    from: from.0@,
                    from_stage: stage_name(from.1),
                    to: to.0@,
                    to_stage: stage_name(to.1),
                    count: 1,
                    last_unix_nanos: now,
                },
                now,
            ),
    {
        proof {
            use_type_invariant(&*self);
        }
        let fresh = Hop {
            from: owned(from.0),
            from_stage: owned(from.1.name()),
            to: owned(to.0),
            to_stage: owned(to.1.name()),
            count: 1,
            last_unix_nanos: now,
        };
        let ghost key = link_key(fresh@);
        let (first, second) = key_chars(&fresh);
        let ghost views = hop_views(self.links@);
        assert(views == old(self)@);
        assert(key == (end_key(from.0@, stage_name(from.1)), end_key(to.0@, stage_name(to.1))));
        let mut links: Vec<Hop> = Vec::new();
        assert(hop_views(links@) =~= Seq::<HopView>::empty());
        std::mem::swap(&mut links, &mut self.links);
        assert(hop_views(links@) == views);
        let mut at: usize = 0;
        while at < links.len() && key_goes_before(&links[at], &first, &second)
            invariant
                at <= links@.len(),
                views == hop_views(links@),
                ordered(views),
                first@ == key.0,
                second@ == key.1,
                forall|i: int| 0 <= i < at ==> key_before(link_key(#[trigger] views[i]), key),
            decreases links@.len() - at,
        {
            at = at + 1;
        }
        if at < links.len() && same_key(&links[at], &first, &second) {
            let old_hop = links.remove(at);
            assert(old_hop@ == views[at as int]);
            assert(link_key(views[at as int]) == key);
            assert(old(self)@[at as int].count < u64::MAX);
            let hop = Hop {
                from: old_hop.from,
                from_stage: old_hop.from_stage,
                to: old_hop.to,
                to_stage: old_hop.to_stage,
                count: old_hop.count + 1,
                last_unix_nanos: now,
            };
            assert(hop@ == bumped(views[at as int], now));
            links.insert(at, hop);
            proof {
                assert(hop_views(links@) =~= views.update(at as int, bumped(views[at as int], now)));
                let after = hop_views(links@);
                assert forall|i: int, j: int| 0 <= i < j < after.len() implies key_before(
                    link_key(#[trigger] after[i]),
                    link_key(#[trigger] after[j]),
                ) by {
                    assert(link_key(after[i]) == link_key(views[i]));
                    assert(link_key(after[j]) == link_key(views[j]));
                }
            }
            self.links = links;
        } else {
            proof {
                assert forall|i: int| 0 <= i < views.len() implies link_key(#[trigger] views[i])
                    != key by {
                    if i < at {
                        lemma_key_irreflexive(key);
                    } else {
                        if at < views.len() {
                            lemma_key_total(link_key(views[at as int]), key);
                            if i > at {
                                lemma_key_transitive(key, link_key(views[at as int]), link_key(
                                    views[i],
                                ));
                                lemma_key_irreflexive(key);
                            }
                        }
                    }
                }
                assert forall|i: int| at <= i < views.len() implies key_before(
                    key,
                    link_key(#[trigger] views[i]),
                ) by {
                    lemma_key_total(link_key(views[at as int]), key);
                    if i > at {
                        lemma_key_transitive(key, link_key(views[at as int]), link_key(views[i]));
                    }
                }
            }
            let ghost fresh_view = fresh@;
            links.insert(at, fresh);
            proof {
                assert(hop_views(links@) =~= views.insert(at as int, fresh_view));
                let after = hop_views(links@);
                assert forall|i: int, j: int| 0 <= i < j < after.len() implies key_before(
                    link_key(#[trigger] after[i]),
                    link_key(#[trigger] after[j]),
                ) by {
                    if j < at {
                    } else if j == at {
                        assert(after[i] == views[i]);
                    } else if i < at {
                        assert(after[j] == views[j - 1]);
                        lemma_key_transitive(link_key(views[i]), key, link_key(views[j - 1]));
                    } else if i == at {
                        assert(after[j] == views[j - 1]);
                    } else {
                        assert(after[i] == views[i - 1]);
                        assert(after[j] == views[j - 1]);
                    }
                }
            }
            self.links = links;
        }
    }
}

/// `text` as an owned `String`.
fn owned(text: &str) -> (out: String)
    ensures
        out@ == text@,
{
    let mut out = String::new();
    out.append(text);
    out
}

/// The characters of a link's key: where it starts, then where it ends.
fn key_chars(hop: &Hop) -> (key: (Vec<char>, Vec<char>))
    ensures
        (key.0@, key.1@) == link_key(hop@),
{
    let mut first = chars_of(hop.from.as_str());
    first.push('/');
    let stage = chars_of(hop.from_stage.as_str());
    let mut i: usize = 0;
    let ghost start = first@;
    while i < stage.len()
        invariant
            i <= stage@.len(),
            first@ == start + stage@.take(i as int),
        decreases stage@.len() - i,
    {
        first.push(stage[i]);
        i = i + 1;
        assert(first@ =~= start + stage@.take(i as int));
    }
    let mut second = chars_of(hop.to.as_str());
    second.push('/');
    let target = chars_of(hop.to_stage.as_str());
    let mut j: usize = 0;
    let ghost begin = second@;
    while j < target.len()
        invariant
            j <= target@.len(),
            second@ == begin + target@.take(j as int),
        decreases target@.len() - j,
    {
        second.push(target[j]);
        j = j + 1;
        assert(second@ =~= begin + target@.take(j as int));
    }
    assert(stage@.take(stage@.len() as int) == stage@);
    assert(target@.take(target@.len() as int) == target@);
    assert(first@ =~= end_key(hop.from@, hop.from_stage@));
    assert(second@ =~= end_key(hop.to@, hop.to_stage@));
    (first, second)
}

/// Whether `hop` is filed before the key `(first, second)`.
fn key_goes_before(hop: &Hop, first: &Vec<char>, second: &Vec<char>) -> (before: bool)
    ensures
        before == key_before(link_key(hop@), (first@, second@)),
{
    let (a, b) = key_chars(hop);
    crate::text::comes_before(a.as_slice(), first.as_slice()) || (same_chars(
        a.as_slice(),
        first.as_slice(),
    ) && crate::text::comes_before(b.as_slice(), second.as_slice()))
}

/// Whether `hop` is filed under the key `(first, second)`.
fn same_key(hop: &Hop, first: &Vec<char>, second: &Vec<char>) -> (same: bool)
    ensures
        same == (link_key(hop@) == (first@, second@)),
{
    let (a, b) = key_chars(hop);
    same_chars(a.as_slice(), first.as_slice()) && same_chars(b.as_slice(), second.as_slice())
}

/// No key is filed before itself.
proof fn lemma_key_irreflexive(key: (Seq<char>, Seq<char>))
    ensures
        !key_before(key, key),
{
    crate::text::lemma_precedes_irreflexive(key.0);
    crate::text::lemma_precedes_irreflexive(key.1);
}

/// Of two keys, one is filed first, or they are the same.
proof fn lemma_key_total(a: (Seq<char>, Seq<char>), b: (Seq<char>, Seq<char>))
    ensures
        key_before(a, b) || key_before(b, a) || a == b,
{
    crate::text::lemma_precedes_total(a.0, b.0);
    crate::text::lemma_precedes_total(a.1, b.1);
}

/// Filing is transitive.
proof fn lemma_key_transitive(
    a: (Seq<char>, Seq<char>),
    b: (Seq<char>, Seq<char>),
    c: (Seq<char>, Seq<char>),
)
    requires
        key_before(a, b),
        key_before(b, c),
    ensures
        key_before(a, c),
{
    if crate::text::precedes(a.0, b.0) && crate::text::precedes(b.0, c.0) {
        crate::text::lemma_precedes_transitive(a.0, b.0, c.0);
    } else if crate::text::precedes(a.0, b.0) {
    } else if crate::text::precedes(b.0, c.0) {
    } else {
        crate::text::lemma_precedes_transitive(a.1, b.1, c.1);
    }
}


/// The extension a delivered handoff's file carries once it is whole.
pub const READY: &'static str = "handoff";

/// `n` in decimal, zero-padded to at least `width` digits: `{n:0width$}`.
pub open spec fn padded(n: nat, width: nat) -> Seq<char> {
    let digits = decimal(n);
    if digits.len() < width {
        Seq::new((width - digits.len()) as nat, |i: int| '0') + digits
    } else {
        digits
    }
}

/// A number below ten to the `width`, padded to `width`, is `width` digits
/// whose value is the number.
proof fn lemma_padded_digits(n: nat, width: nat)
    requires
        width > 0,
        n < crate::number::ten_to(width),
    ensures
        padded(n, width).len() == width,
        crate::number::all_digits(padded(n, width)),
        crate::number::digits_value(padded(n, width)) == n,
{
    crate::number::lemma_decimal(n);
    crate::number::lemma_decimal_fits(n, width);
    let digits = decimal(n);
    if digits.len() < width {
        let k = (width - digits.len()) as nat;
        assert(Seq::new(k, |i: int| '0') =~= crate::number::zeros(k));
        crate::number::lemma_zeros_add_nothing(k, digits);
    }
}

/// Handoffs are claimed oldest round first: of two delivered in different
/// rounds, the one of the earlier round is named first, whoever sent it,
/// under whatever sequence, over whatever pair, and whatever follows the
/// name. This holds while rounds are written in ten digits.
pub proof fn lemma_older_round_named_first(
    earlier: HandoffView,
    first_sequence: u64,
    later: HandoffView,
    second_sequence: u64,
    after_first: Seq<char>,
    after_second: Seq<char>,
)
    requires
        earlier.round < later.round,
        later.round < crate::number::ten_to(10),
    ensures
        precedes(
            delivery_name(earlier, first_sequence) + after_first,
            delivery_name(later, second_sequence) + after_second,
        ),
{
    let a = padded(earlier.round as nat, 10);
    let b = padded(later.round as nat, 10);
    lemma_padded_digits(earlier.round as nat, 10);
    lemma_padded_digits(later.round as nat, 10);
    crate::number::lemma_digits_order(a, b);
    let rest_a = seq!['-'] + earlier.from + seq!['-'] + padded(first_sequence as nat, 10) + seq![
        '-',
    ] + earlier.transport + seq!['-'] + earlier.contract + after_first;
    let rest_b = seq!['-'] + later.from + seq!['-'] + padded(second_sequence as nat, 10) + seq![
        '-',
    ] + later.transport + seq!['-'] + later.contract + after_second;
    crate::text::lemma_precedes_extended(a, b, rest_a, rest_b);
    assert(delivery_name(earlier, first_sequence) + after_first =~= a + rest_a);
    assert(delivery_name(later, second_sequence) + after_second =~= b + rest_b);
}

/// The name a handoff is delivered under, before its extension:
/// `<round>-<from>-<sequence>-<transport>-<contract>`, both numbers ten
/// digits wide, so that names sort oldest round first.
pub open spec fn delivery_name(handoff: HandoffView, sequence: u64) -> Seq<char> {
    padded(handoff.round as nat, 10) + seq!['-'] + handoff.from + seq!['-'] + padded(
        sequence as nat,
        10,
    ) + seq!['-'] + handoff.transport + seq!['-'] + handoff.contract
}

/// Whether the last `.` of `name` stands at `at`.
pub open spec fn last_dot(name: Seq<char>, at: int) -> bool {
    &&& 0 <= at < name.len()
    &&& name[at] == '.'
    &&& forall|j: int| at < j < name.len() ==> name[j] != '.'
}

/// `Path::extension` of a file name: what follows its last `.`; none where
/// there is no `.`, where the only one begins the name, and for `..`.
pub open spec fn extension(name: Seq<char>) -> Option<Seq<char>> {
    if name == seq!['.', '.'] {
        None
    } else if exists|at: int| last_dot(name, at) {
        let at = choose|at: int| last_dot(name, at);
        if at == 0 {
            None
        } else {
            Some(name.skip(at + 1))
        }
    } else {
        None
    }
}

/// Whether a file of the inbox is a handoff delivered whole.
pub open spec fn is_ready(name: Seq<char>) -> bool {
    extension(name) == Some("handoff"@)
}

/// The names that are handoffs delivered whole, in the order given.
pub open spec fn ready_names(names: Seq<Seq<char>>) -> Seq<Seq<char>>
    decreases names.len(),
{
    if names.len() == 0 {
        names
    } else if is_ready(names.last()) {
        ready_names(names.drop_last()).push(names.last())
    } else {
        ready_names(names.drop_last())
    }
}

/// Whether no name is followed by one that sorts before it.
pub open spec fn ascending(names: Seq<Seq<char>>) -> bool {
    forall|i: int, j: int|
        0 <= i < j < names.len() ==> !precedes(#[trigger] names[j], #[trigger] names[i])
}

/// The first `limit` of `names`, or all of them when there are fewer.
pub open spec fn first(names: Seq<Seq<char>>, limit: nat) -> Seq<Seq<char>> {
    if limit < names.len() {
        names.take(limit as int)
    } else {
        names
    }
}

/// One node's inbox at one stage: `<shared>/handoff/<node>/<stage>/`. A
/// node that declared two stages has two, so it never drains a handoff at
/// the wrong one.
#[derive(Clone, Debug)]
pub struct Inbox {
    shared: String,
    node: String,
    stage: Stage,
}

impl View for Inbox {
    type V = (Seq<char>, Seq<char>, Stage);

    closed spec fn view(&self) -> (Seq<char>, Seq<char>, Stage) {
        (self.shared@, self.node@, self.stage)
    }
}

impl Inbox {
    /// The inbox `node` drains at `stage`, under `shared`.
    pub fn of(shared: &str, node: &str, stage: Stage) -> (inbox: Self)
        ensures
            inbox@ == (shared@, node@, stage),
    {
        Inbox { shared: owned(shared), node: owned(node), stage }
    }

    /// The directory the cluster's nodes share.
    pub fn shared(&self) -> (shared: &str)
        ensures
            shared@ == self@.0,
    {
        self.shared.as_str()
    }

    /// The node that drains this inbox.
    pub fn node(&self) -> (node: &str)
        ensures
            node@ == self@.1,
    {
        self.node.as_str()
    }

    /// The stage it drains it at.
    pub fn stage(&self) -> (stage: Stage)
        ensures
            stage == self@.2,
    {
        self.stage
    }

    /// The name `handoff` is delivered under, before its extension: its
    /// round and `sequence`, the sender's own count, ten digits wide, so that
    /// with the sender's name the file's name is unique and names sort
    /// oldest round first.
    pub fn file_name(handoff: &Handoff, sequence: u64) -> (name: String)
        ensures
            name@ == delivery_name(handoff@, sequence),
    {
        let mut name = String::new();
        append_padded(&mut name, handoff.round, 10);
        push_char(&mut name, '-');
        name.append(handoff.from.as_str());
        push_char(&mut name, '-');
        append_padded(&mut name, sequence, 10);
        push_char(&mut name, '-');
        name.append(handoff.transport.as_str());
        push_char(&mut name, '-');
        name.append(handoff.contract.as_str());
        name
    }

    /// Of the files in the inbox, by name, the handoffs to claim: those
    /// delivered whole, oldest first by name, at most `limit` of them.
    pub fn oldest(names: &[String], limit: usize) -> (claimed: Vec<String>)
        ensures
            exists|sorted: Seq<Seq<char>>|
                #![trigger ascending(sorted)]
                ascending(sorted) && sorted.to_multiset() == ready_names(
                    string_views(names@),
                ).to_multiset() && string_views(claimed@) == first(sorted, limit as nat),
    {
        let ghost all = string_views(names@);
        let mut sorted: Vec<String> = Vec::new();
        proof {
            assert(all.take(0) =~= Seq::<Seq<char>>::empty());
            assert(string_views(sorted@) =~= Seq::<Seq<char>>::empty());
        }
        let mut i: usize = 0;
        while i < names.len()
            invariant
                i <= names@.len(),
                all == string_views(names@),
                ascending(string_views(sorted@)),
                string_views(sorted@).to_multiset() == ready_names(all.take(i as int)).to_multiset(),
            decreases names@.len() - i,
        {
            proof {
                assert(all.take(i as int + 1).drop_last() == all.take(i as int));
                assert(all.take(i as int + 1).last() == names@[i as int]@);
            }
            let chars = chars_of(names[i].as_str());
            if ready(chars.as_slice()) {
                insert_in_order(&mut sorted, names[i].clone());
                proof {
                    vstd::seq_lib::to_multiset_build(ready_names(all.take(i as int)), names@[i as int]@);
                }
            }
            i = i + 1;
        }
        assert(all.take(names@.len() as int) == all);
        let ghost whole = string_views(sorted@);
        let mut claimed: Vec<String> = Vec::new();
        let mut k: usize = 0;
        while k < sorted.len() && k < limit
            invariant
                k <= sorted@.len(),
                k <= limit,
                whole == string_views(sorted@),
                string_views(claimed@) == whole.take(k as int),
            decreases sorted@.len() - k,
        {
            proof {
                assert(string_views(claimed@.push(sorted@[k as int])) == string_views(claimed@).push(
                    whole[k as int],
                ));
                assert(whole.take(k as int + 1) == whole.take(k as int).push(whole[k as int]));
            }
            claimed.push(sorted[k].clone());
            k = k + 1;
        }
        assert(whole.take(whole.len() as int) == whole);
        proof {
            if k < limit {
                assert(k == whole.len());
            } else if limit == whole.len() {
                assert(whole.take(k as int) == whole);
            }
        }
        assert(string_views(claimed@) == first(whole, limit as nat));
        claimed
    }
}

/// `n` in decimal onto the end of `out`, zero-padded to `width` digits.
pub(crate) fn append_padded(out: &mut String, n: u64, width: usize)
    ensures
        final(out)@ == old(out)@ + padded(n as nat, width as nat),
{
    let mut digits = String::new();
    append_decimal(&mut digits, n);
    let count = digits.as_str().unicode_len();
    assert(digits@ == decimal(n as nat));
    let mut zeros: usize = 0;
    while count + zeros < width
        invariant
            count == decimal(n as nat).len(),
            out@ == old(out)@ + Seq::new(zeros as nat, |i: int| '0'),
            count + zeros <= width || zeros == 0,
        decreases width - count - zeros,
    {
        push_char(out, '0');
        zeros = zeros + 1;
        assert(out@ =~= old(out)@ + Seq::new(zeros as nat, |i: int| '0'));
    }
    out.append(digits.as_str());
    if count < width {
        assert(zeros == width - count);
    } else {
        assert(zeros == 0);
        assert(Seq::new(0, |i: int| '0') =~= Seq::<char>::empty());
    }
    assert(final(out)@ =~= old(out)@ + padded(n as nat, width as nat));
}

/// Whether a file name is a handoff's delivered whole.
fn ready(name: &[char]) -> (yes: bool)
    ensures
        yes == is_ready(name@),
{
    let n = name.len();
    if n == 2 && name[0] == '.' && name[1] == '.' {
        assert(name@ == seq!['.', '.']);
        return false;
    }
    assert(name@ != seq!['.', '.']);
    let mut at = n;
    while at > 0 && name[at - 1] != '.'
        invariant
            at <= n == name@.len(),
            forall|j: int| at <= j < n ==> name@[j] != '.',
        decreases at,
    {
        at = at - 1;
    }
    if at == 0 {
        assert(forall|k: int| !last_dot(name@, k));
        return false;
    }
    let dot = at - 1;
    assert(last_dot(name@, dot as int));
    proof {
        lemma_last_dot_unique(name@, dot as int);
    }
    if dot == 0 {
        return false;
    }
    let wanted = chars_of(READY);
    let after = name.split_at(at).1;
    assert(after@ == name@.skip(at as int));
    same_chars(after, wanted.as_slice())
}

/// A name has one last `.`.
proof fn lemma_last_dot_unique(name: Seq<char>, at: int)
    requires
        last_dot(name, at),
    ensures
        forall|other: int| last_dot(name, other) ==> other == at,
{
    assert forall|other: int| last_dot(name, other) implies other == at by {
        if other < at {
            assert(name[at] == '.');
        } else if other > at {
            assert(name[other] == '.');
        }
    }
}

/// `name` put into `sorted` after every name that does not sort after it.
fn insert_in_order(sorted: &mut Vec<String>, name: String)
    requires
        ascending(string_views(old(sorted)@)),
    ensures
        ascending(string_views(final(sorted)@)),
        string_views(final(sorted)@).to_multiset() == string_views(old(sorted)@).to_multiset().insert(
            name@,
        ),
{
    let chars = chars_of(name.as_str());
    let ghost views = string_views(sorted@);
    let mut at: usize = 0;
    while at < sorted.len()
        invariant
            at <= sorted@.len(),
            views == string_views(sorted@),
            chars@ == name@,
            forall|k: int| 0 <= k < at ==> !precedes(name@, #[trigger] views[k]),
        ensures
            at <= sorted@.len(),
            views == string_views(sorted@),
            forall|k: int| 0 <= k < at ==> !precedes(name@, #[trigger] views[k]),
            at < views.len() ==> precedes(name@, views[at as int]),
        decreases sorted@.len() - at,
    {
        let one = chars_of(sorted[at].as_str());
        if comes_before(chars.as_slice(), one.as_slice()) {
            break;
        }
        at = at + 1;
    }
    sorted.insert(at, name);
    let ghost after = string_views(sorted@);
    proof {
        assert(after =~= views.insert(at as int, name@));
        vstd::seq_lib::to_multiset_insert(views, at as int, name@);
        assert forall|i: int, j: int| 0 <= i < j < after.len() implies !precedes(
            #[trigger] after[j],
            #[trigger] after[i],
        ) by {
            lemma_in_order(views, name@, at as int, i, j);
        }
    }
}

/// Putting `x` at `at` keeps an ascending list ascending when nothing
/// before `at` sorts after `x` and what stands at `at` sorts after it.
pub(crate) proof fn lemma_in_order(views: Seq<Seq<char>>, x: Seq<char>, at: int, i: int, j: int)
    requires
        ascending(views),
        0 <= at <= views.len(),
        forall|k: int| 0 <= k < at ==> !precedes(x, #[trigger] views[k]),
        at < views.len() ==> precedes(x, views[at]),
        0 <= i < j < views.len() + 1,
    ensures
        !precedes(views.insert(at, x)[j], views.insert(at, x)[i]),
{
    let after = views.insert(at, x);
    if i == at {
        // x before what follows it
        assert(after[j] == views[j - 1]);
        if at < views.len() {
            lemma_not_before_chain(views, x, at, j - 1);
        }
    } else if j == at {
        assert(after[i] == views[i]);
        assert(!precedes(x, views[i]));
    } else {
        let vi = if i < at { i } else { i - 1 };
        let vj = if j < at { j } else { j - 1 };
        assert(after[i] == views[vi]);
        assert(after[j] == views[vj]);
        assert(vi < vj);
    }
}

/// What `x` sorts before, everything after it in an ascending list sorts
/// no earlier than.
proof fn lemma_not_before_chain(views: Seq<Seq<char>>, x: Seq<char>, at: int, k: int)
    requires
        ascending(views),
        0 <= at <= k < views.len(),
        precedes(x, views[at]),
    ensures
        !precedes(views[k], x),
{
    if k > at {
        assert(!precedes(views[k], views[at]));
        crate::text::lemma_precedes_total(views[k], views[at]);
    }
    if precedes(views[k], x) {
        crate::text::lemma_precedes_transitive(views[k], x, views[at]);
        if k > at {
        } else {
            crate::text::lemma_precedes_irreflexive(views[at]);
        }
    }
}

} // verus!
