//! The online capability as the environment words it (ADR-0045): the rule
//! that turns a list of node names and one switch into whether a node may
//! assume a route to the internet, and the words a switch is said in.
//! False unless said. The variables themselves are read at the edge.

use vstd::prelude::*;

use crate::text::{
    chars_of, equal_ignoring_case, lower, lowered, same_ignoring_case, string_views, strings_of,
    trim, trimmed, words, words_of,
};

verus! {

/// The switches a node is started with.
#[derive(Clone, Copy, Debug, PartialEq, Eq, Structural)]
pub struct Switches {
    /// Whether it may assume the internet.
    pub online: bool,
}

impl Switches {
    /// The word for the switch: `online` or `offline`.
    pub fn word(&self) -> (word: &'static str)
        ensures
            word@ == (if self.online { "online"@ } else { "offline"@ }),
    {
        if self.online {
            "online"
        } else {
            "offline"
        }
    }
}

/// A comma-separated list of node names, trimmed, empties dropped.
pub fn names(raw: &str) -> (names: Vec<String>)
    ensures
        string_views(names@) == words(raw@, ','),
{
    let chars = chars_of(raw);
    let pieces = words_of(chars.as_slice(), ',');
    strings_of(&pieces)
}

/// Whether `list` names `name`, whatever the case.
pub open spec fn names_one(list: Seq<Seq<char>>, name: Seq<char>) -> bool {
    exists|i: int| 0 <= i < list.len() && same_ignoring_case(list[i], name)
}

/// Whether `name` is one of `list`, whatever the case.
pub fn is_named(list: &[String], name: &str) -> (named: bool)
    ensures
        named == names_one(string_views(list@), name@),
{
    let wanted = chars_of(name);
    let ghost views = string_views(list@);
    let mut i: usize = 0;
    while i < list.len()
        invariant
            i <= list@.len(),
            views == string_views(list@),
            wanted@ == name@,
            forall|j: int| 0 <= j < i ==> !same_ignoring_case(#[trigger] views[j], name@),
        decreases list@.len() - i,
    {
        let one = chars_of(list[i].as_str());
        if equal_ignoring_case(one.as_slice(), wanted.as_slice()) {
            assert(same_ignoring_case(views[i as int], name@));
            return true;
        }
        i = i + 1;
    }
    false
}

/// Whether the node called `name` may assume the internet: a list names the
/// online nodes, whatever the case; no list leaves it to `all`.
pub open spec fn online_rule(name: Seq<char>, online: Option<Seq<Seq<char>>>, all: bool) -> bool {
    match online {
        Some(list) => names_one(list, name),
        None => all,
    }
}

/// The rule behind the online switch, with the environment already read: a
/// list names the online nodes, case-insensitively; no list leaves it to
/// `all`.
pub fn node_online(name: &str, online: Option<&[String]>, all: bool) -> (yes: bool)
    ensures
        yes == online_rule(
            name@,
            match online {
                Some(list) => Some(string_views(list@)),
                None => None,
            },
            all,
        ),
{
    match online {
        Some(list) => is_named(list, name),
        None => all,
    }
}

/// Whether the cluster's node called `name` may assume the internet, from
/// the two variables as they were read: `online_nodes`, a comma-separated
/// list, names the online nodes when it is set; unset, `online` decides for
/// every node, and only a word that means on is on. False unless said.
pub fn node_is_online(name: &str, online_nodes: Option<&str>, online: Option<&str>) -> (yes: bool)
    ensures
        yes == online_rule(
            name@,
            match online_nodes {
                Some(raw) => Some(words(raw@, ',')),
                None => None,
            },
            match online {
                Some(raw) => switch_word(raw@) == Some(true),
                None => false,
            },
        ),
{
    let all = match online {
        Some(raw) => match parse(raw) {
            Some(on) => on,
            None => false,
        },
        None => false,
    };
    match online_nodes {
        Some(raw) => {
            let listed = names(raw);
            node_online(name, Some(listed.as_slice()), all)
        },
        None => node_online(name, None, all),
    }
}

/// What a test that needs the internet says in its place when it may not
/// run, so a reader sees it was skipped on purpose, not lost.
pub fn offline_note(what: &str) -> (said: String)
    ensures
        said@ == "skipped offline: "@ + what@ + " needs the internet; set XMIP_ONLINE=true to run it"@,
{
    let mut said = String::new();
    said.append("skipped offline: ");
    said.append(what);
    said.append(" needs the internet; set XMIP_ONLINE=true to run it");
    said
}

/// The switch a word means, whatever its case and surrounding space:
/// `true`, `yes`, `on`, `1` are on; `false`, `no`, `off`, `0` are off.
pub open spec fn switch_word(raw: Seq<char>) -> Option<bool> {
    let word = lower(trim(raw));
    if word == "true"@ || word == "yes"@ || word == "on"@ || word == "1"@ {
        Some(true)
    } else if word == "false"@ || word == "no"@ || word == "off"@ || word == "0"@ {
        Some(false)
    } else {
        None
    }
}

/// The switch a word means: `true`, `false`, `yes`, `no`, `on`, `off`, `1`,
/// `0`, whatever the case; anything else means nothing.
pub fn parse(raw: &str) -> (switch: Option<bool>)
    ensures
        switch == switch_word(raw@),
{
    let chars = chars_of(raw);
    let word = lowered(trimmed(chars.as_slice()).as_slice());
    if is_word(&word, "true") || is_word(&word, "yes") || is_word(&word, "on") || is_word(
        &word,
        "1",
    ) {
        Some(true)
    } else if is_word(&word, "false") || is_word(&word, "no") || is_word(&word, "off") || is_word(
        &word,
        "0",
    ) {
        Some(false)
    } else {
        None
    }
}

/// Whether `chars` spell `word`.
fn is_word(chars: &Vec<char>, word: &str) -> (same: bool)
    ensures
        same == (chars@ == word@),
{
    let expected = chars_of(word);
    crate::text::same_chars(chars.as_slice(), expected.as_slice())
}


/// The words a switch is written with read back as it: `true` is on,
/// `false` is off.
pub proof fn lemma_switch_reads_back()
    ensures
        switch_word("true"@) == Some(true),
        switch_word("false"@) == Some(false),
{
    reveal_strlit("true");
    reveal_strlit("yes");
    reveal_strlit("on");
    reveal_strlit("1");
    reveal_strlit("false");
    crate::text::lemma_lowercase_word("true"@);
    crate::text::lemma_lowercase_word("false"@);
}

} // verus!
