//! The name a spawned process goes by, named for the cluster and the
//! instance it is: `xmip-playground-<cluster>-roll`, `-cluster` and
//! `-node-<name>`. The kind is a marker the shape carries, so a node may be
//! called anything a file may be called — including `roll`. A node's name
//! becomes a file name, so a name of another shape is refused at the door,
//! never mangled quietly.

use vstd::prelude::*;

use crate::text::{chars_of, push_char};

verus! {

/// What a process of `cluster` is called: `xmip-playground-<cluster>-<what>`.
pub open spec fn process_name(cluster: Seq<char>, what: Seq<char>) -> Seq<char> {
    "xmip-playground-"@ + cluster + seq!['-'] + what
}

/// A node's word in a process name: `node-<name>`.
pub open spec fn node_word(name: Seq<char>) -> Seq<char> {
    "node-"@ + name
}

/// Whether `c` is an ASCII letter.
pub open spec fn is_letter(c: char) -> bool {
    ('a' <= c <= 'z') || ('A' <= c <= 'Z')
}

/// Whether `name` has the shape of a node's or a cluster's name: letters,
/// digits and hyphens, starting with a letter.
pub open spec fn well_shaped(name: Seq<char>) -> bool {
    &&& name.len() > 0
    &&& is_letter(name[0])
    &&& forall|i: int|
        0 <= i < name.len() ==> #[trigger] crate::role::is_alphanumeric(name[i]) || name[i] == '-'
}

/// What `refusal` answers for a name.
pub open spec fn name_refusal(name: Seq<char>) -> Option<Seq<char>> {
    if well_shaped(name) {
        None
    } else {
        Some(
            "REFUSED: a node's name is letters, digits and hyphens starting with a letter, because it is the last word of xmip-playground-<cluster>-node-<node> and a file name: not "@
                + name,
        )
    }
}

/// The process name one instance of the Playground goes by:
/// `xmip-playground-<cluster>-<what>`, where `what` is `roll`, `cluster` or
/// `node-<name>`.
pub fn named(cluster: &str, what: &str) -> (name: String)
    ensures
        name@ == process_name(cluster@, what@),
{
    let mut name = String::new();
    name.append("xmip-playground-");
    name.append(cluster);
    push_char(&mut name, '-');
    name.append(what);
    name
}

/// What the node called `name` of `cluster` goes by:
/// `xmip-playground-<cluster>-node-<name>`. A node called `roll` is nobody's
/// roll, which is why no name has to be forbidden.
pub fn node_named(cluster: &str, name: &str) -> (process: String)
    ensures
        process@ == process_name(cluster@, node_word(name@)),
{
    let word = marked(name);
    named(cluster, word.as_str())
}

/// A node's word in a process name: `node-<name>`.
pub fn marked(name: &str) -> (word: String)
    ensures
        word@ == node_word(name@),
{
    let mut word = String::new();
    word.append("node-");
    word.append(name);
    word
}

/// Whether `name` has the shape of a name: letters, digits and hyphens,
/// starting with a letter.
pub fn shaped(name: &[char]) -> (yes: bool)
    ensures
        yes == well_shaped(name@),
{
    if name.len() == 0 || !(('a' <= name[0] && name[0] <= 'z') || ('A' <= name[0] && name[0]
        <= 'Z')) {
        return false;
    }
    let mut i: usize = 0;
    while i < name.len()
        invariant
            i <= name@.len(),
            forall|j: int| 0 <= j < i ==> #[trigger] crate::role::is_alphanumeric(name@[j]) || name@[j] == '-',
        decreases name@.len() - i,
    {
        let c = name[i];
        if !(('a' <= c && c <= 'z') || ('A' <= c && c <= 'Z') || ('0' <= c && c <= '9') || c
            == '-') {
            assert(!(crate::role::is_alphanumeric(name@[i as int]) || name@[i as int] == '-'));
            return false;
        }
        i = i + 1;
    }
    true
}

/// Why a node cannot be called `name`, if it cannot: a node's name becomes
/// a file name, so it takes the shape a cluster's name takes and nothing
/// more. No word is reserved.
pub fn refusal(name: &str) -> (refusal: Option<String>)
    ensures
        match (refusal, name_refusal(name@)) {
            (Some(said), Some(expected)) => said@ == expected,
            (None, None) => true,
            _ => false,
        },
{
    let chars = chars_of(name);
    if shaped(chars.as_slice()) {
        return None;
    }
    let mut said = String::new();
    said.append(
        "REFUSED: a node's name is letters, digits and hyphens starting with a letter, because it is the last word of xmip-playground-<cluster>-node-<node> and a file name: not ",
    );
    said.append(name);
    Some(said)
}


/// A node's process name is its own, whatever the node is called: no two
/// node names give the same one, and none is the roll's or the cluster's —
/// so no word has to be forbidden as a node's name.
pub proof fn lemma_node_names_collide_with_nothing(cluster: Seq<char>, a: Seq<char>, b: Seq<char>)
    ensures
        process_name(cluster, node_word(a)) == process_name(cluster, node_word(b)) ==> a == b,
        process_name(cluster, node_word(a)) != process_name(cluster, "roll"@),
        process_name(cluster, node_word(a)) != process_name(cluster, "cluster"@),
{
    reveal_strlit("xmip-playground-");
    reveal_strlit("node-");
    reveal_strlit("roll");
    reveal_strlit("cluster");
    let front = "xmip-playground-"@ + cluster + seq!['-'];
    let at = front.len() as int;
    assert(process_name(cluster, node_word(a)) == front + node_word(a));
    assert(process_name(cluster, node_word(b)) == front + node_word(b));
    assert(process_name(cluster, node_word(a))[at] == 'n');
    assert(process_name(cluster, "roll"@)[at] == 'r');
    assert(process_name(cluster, "cluster"@)[at] == 'c');
    if process_name(cluster, node_word(a)) == process_name(cluster, node_word(b)) {
        assert((front + node_word(a)).skip(at + 5) == a);
        assert((front + node_word(b)).skip(at + 5) == b);
    }
}


/// Where the image of the instance called `what` of `cluster` stands: the
/// binary itself where no directory was named for images, else the file
/// named for the instance, with the platform's executable `suffix`, in
/// that directory.
pub open spec fn image_at(
    base: Seq<char>,
    directory: Option<Seq<char>>,
    cluster: Seq<char>,
    what: Seq<char>,
    suffix: Seq<char>,
) -> Seq<char> {
    match directory {
        None => base,
        Some(dir) => {
            let file = process_name(cluster, what) + suffix;
            if dir.len() > 0 && dir.last() == '/' {
                dir + file
            } else {
                dir + seq!['/'] + file
            }
        },
    }
}

/// Where the image the instance called `what` of `cluster` runs stands:
/// `base` itself where `directory` is none — nothing is linked, and the
/// binary runs under its own name — else the file named for the instance
/// in `directory`, which the caller links or copies there.
pub fn of(base: &str, directory: Option<&str>, cluster: &str, what: &str, suffix: &str) -> (image: String)
    ensures
        image@ == image_at(
            base@,
            match directory {
                Some(dir) => Some(dir@),
                None => None,
            },
            cluster@,
            what@,
            suffix@,
        ),
{
    match directory {
        None => base.to_owned(),
        Some(dir) => {
            let chars = chars_of(dir);
            let mut image = dir.to_owned();
            if !(chars.len() > 0 && chars[chars.len() - 1] == '/') {
                push_char(&mut image, '/');
            }
            let file = named(cluster, what);
            image.append(file.as_str());
            image.append(suffix);
            image
        },
    }
}

/// Where the image the node called `name` of `cluster` runs stands: [`of`]
/// with the node marker in front of the name.
pub fn of_node(base: &str, directory: Option<&str>, cluster: &str, name: &str, suffix: &str) -> (image: String)
    ensures
        image@ == image_at(
            base@,
            match directory {
                Some(dir) => Some(dir@),
                None => None,
            },
            cluster@,
            node_word(name@),
            suffix@,
        ),
{
    let word = marked(name);
    of(base, directory, cluster, word.as_str(), suffix)
}

} // verus!
