//! Text as characters: reading a `&str` into its characters, writing
//! characters back into a `String`, and the few shapes of text the rest of
//! the library reads — trimmed, lowered, split.

use vstd::prelude::*;

verus! {

/// `String::push`: the string grows by the one character.
#[verifier::external_body]
pub(crate) fn push_char(text: &mut String, c: char)
    ensures
        final(text)@ == old(text)@.push(c),
{
    text.push(c);
}

/// The characters of `text`, in order.
pub fn chars_of(text: &str) -> (out: Vec<char>)
    ensures
        out@ == text@,
{
    let mut out: Vec<char> = Vec::new();
    for c in iter: text.chars()
        invariant
            out@ == iter.seq().take(iter.index() as int),
    {
        out.push(c);
    }
    out
}

/// A `String` holding exactly `chars`.
pub fn string_of(chars: &[char]) -> (out: String)
    ensures
        out@ == chars@,
{
    let mut out = String::new();
    let mut i: usize = 0;
    while i < chars.len()
        invariant
            i <= chars@.len(),
            out@ == chars@.take(i as int),
        decreases chars@.len() - i,
    {
        push_char(&mut out, chars[i]);
        assert(chars@.take(i as int + 1) == chars@.take(i as int).push(chars@[i as int]));
        i = i + 1;
    }
    assert(chars@.take(chars@.len() as int) == chars@);
    out
}

/// Whether `c` is white space as `char::is_whitespace` has it: the
/// Unicode `White_Space` characters.
pub open spec fn is_space(c: char) -> bool {
    ||| '\t' <= c <= '\r'
    ||| c == ' '
    ||| c == '\u{85}'
    ||| c == '\u{A0}'
    ||| c == '\u{1680}'
    ||| '\u{2000}' <= c <= '\u{200A}'
    ||| c == '\u{2028}'
    ||| c == '\u{2029}'
    ||| c == '\u{202F}'
    ||| c == '\u{205F}'
    ||| c == '\u{3000}'
}

/// `char::is_whitespace`.
pub fn space(c: char) -> (yes: bool)
    ensures
        yes == is_space(c),
{
    ('\t' <= c && c <= '\r') || c == ' ' || c == '\u{85}' || c == '\u{A0}' || c == '\u{1680}'
        || ('\u{2000}' <= c && c <= '\u{200A}') || c == '\u{2028}' || c == '\u{2029}'
        || c == '\u{202F}' || c == '\u{205F}' || c == '\u{3000}'
}

/// `text` without its leading white space.
pub open spec fn trim_start(text: Seq<char>) -> Seq<char>
    decreases text.len(),
{
    if text.len() > 0 && is_space(text[0]) {
        trim_start(text.subrange(1, text.len() as int))
    } else {
        text
    }
}

/// `text` without its trailing white space.
pub open spec fn trim_end(text: Seq<char>) -> Seq<char>
    decreases text.len(),
{
    if text.len() > 0 && is_space(text.last()) {
        trim_end(text.drop_last())
    } else {
        text
    }
}

/// `str::trim`: `text` without white space at either end.
pub open spec fn trim(text: Seq<char>) -> Seq<char> {
    trim_end(trim_start(text))
}

/// The characters of `text` with the white space at either end taken off.
pub fn trimmed(text: &[char]) -> (out: Vec<char>)
    ensures
        out@ == trim(text@),
{
    let n = text.len();
    let mut start: usize = 0;
    assert(text@.subrange(0, n as int) == text@);
    while start < n && space(text[start])
        invariant
            start <= n == text@.len(),
            trim_start(text@) == trim_start(text@.subrange(start as int, n as int)),
        decreases n - start,
    {
        assert(text@.subrange(start as int, n as int).subrange(1, (n - start) as int)
            == text@.subrange(start as int + 1, n as int));
        start = start + 1;
    }
    assert(trim_start(text@) == text@.subrange(start as int, n as int));
    let mut end: usize = n;
    while end > start && space(text[end - 1])
        invariant
            start <= end <= n == text@.len(),
            trim(text@) == trim_end(text@.subrange(start as int, end as int)),
        decreases end,
    {
        assert(text@.subrange(start as int, end as int).drop_last()
            == text@.subrange(start as int, end as int - 1));
        end = end - 1;
    }
    let mut out: Vec<char> = Vec::new();
    let mut i = start;
    while i < end
        invariant
            start <= i <= end <= n == text@.len(),
            out@ == text@.subrange(start as int, i as int),
        decreases end - i,
    {
        out.push(text[i]);
        i = i + 1;
    }
    out
}

/// `c` lowered when it is an ASCII capital, else `c`.
pub open spec fn lower_char(c: char) -> char {
    if 'A' <= c <= 'Z' {
        ((c as u32) + 32) as char
    } else {
        c
    }
}

/// `str::to_ascii_lowercase`.
pub open spec fn lower(text: Seq<char>) -> Seq<char> {
    text.map_values(|c: char| lower_char(c))
}

/// `char::to_ascii_lowercase`.
pub fn lowered_char(c: char) -> (out: char)
    ensures
        out == lower_char(c),
{
    if 'A' <= c && c <= 'Z' {
        let code: u8 = c as u8;
        assert(code == c as u32);
        ((code + 32) as char)
    } else {
        c
    }
}

/// The characters of `text`, each lowered as `lower_char` has it.
pub fn lowered(text: &[char]) -> (out: Vec<char>)
    ensures
        out@ == lower(text@),
{
    let mut out: Vec<char> = Vec::new();
    let mut i: usize = 0;
    while i < text.len()
        invariant
            i <= text@.len(),
            out@ == lower(text@.take(i as int)),
        decreases text@.len() - i,
    {
        let c = lowered_char(text[i]);
        out.push(c);
        i = i + 1;
        assert(out@ =~= lower(text@.take(i as int)));
    }
    assert(text@.take(text@.len() as int) == text@);
    out
}

/// Whether two texts are equal once both are lowered: `eq_ignore_ascii_case`.
pub open spec fn same_ignoring_case(a: Seq<char>, b: Seq<char>) -> bool {
    lower(a) == lower(b)
}

/// `str::eq_ignore_ascii_case` over characters.
pub fn equal_ignoring_case(a: &[char], b: &[char]) -> (same: bool)
    ensures
        same == same_ignoring_case(a@, b@),
{
    if a.len() != b.len() {
        assert(lower(a@).len() != lower(b@).len());
        return false;
    }
    let mut i: usize = 0;
    while i < a.len()
        invariant
            i <= a@.len() == b@.len(),
            forall|j: int| 0 <= j < i ==> lower_char(a@[j]) == lower_char(b@[j]),
        decreases a@.len() - i,
    {
        if lowered_char(a[i]) != lowered_char(b[i]) {
            assert(lower(a@)[i as int] != lower(b@)[i as int]);
            return false;
        }
        i = i + 1;
    }
    assert(lower(a@) =~= lower(b@));
    true
}

/// `str::split(sep)`: the pieces between the separators, empty pieces kept,
/// one more piece than there are separators.
pub open spec fn split(text: Seq<char>, sep: char) -> Seq<Seq<char>>
    decreases text.len(),
{
    if text.len() == 0 {
        seq![Seq::<char>::empty()]
    } else {
        let before = split(text.drop_last(), sep);
        if text.last() == sep {
            before.push(Seq::<char>::empty())
        } else {
            before.update(before.len() - 1, before.last().push(text.last()))
        }
    }
}

/// A split always has at least one piece.
pub proof fn lemma_split_len(text: Seq<char>, sep: char)
    ensures
        split(text, sep).len() >= 1,
    decreases text.len(),
{
    if text.len() > 0 {
        lemma_split_len(text.drop_last(), sep);
    }
}

/// The views of a list of character vectors.
pub open spec fn char_views(pieces: Seq<Vec<char>>) -> Seq<Seq<char>> {
    pieces.map_values(|piece: Vec<char>| piece@)
}

/// The views of a list of strings.
pub open spec fn string_views(strings: Seq<String>) -> Seq<Seq<char>> {
    strings.map_values(|one: String| one@)
}

/// The pieces of `text` between the separators `sep`.
pub fn split_on(text: &[char], sep: char) -> (pieces: Vec<Vec<char>>)
    ensures
        char_views(pieces@) == split(text@, sep),
{
    let mut done: Vec<Vec<char>> = Vec::new();
    let mut current: Vec<char> = Vec::new();
    let mut i: usize = 0;
    while i < text.len()
        invariant
            i <= text@.len(),
            char_views(done@).push(current@) == split(text@.take(i as int), sep),
        decreases text@.len() - i,
    {
        let c = text[i];
        proof {
            lemma_split_len(text@.take(i as int), sep);
            assert(text@.take(i as int + 1).drop_last() == text@.take(i as int));
        }
        if c == sep {
            let piece = current;
            proof {
                assert(char_views(done@.push(piece)) == char_views(done@).push(piece@));
            }
            done.push(piece);
            current = Vec::new();
        } else {
            current.push(c);
        }
        i = i + 1;
        assert(char_views(done@).push(current@) =~= split(text@.take(i as int), sep));
    }
    assert(text@.take(text@.len() as int) == text@);
    proof {
        assert(char_views(done@.push(current)) == char_views(done@).push(current@));
    }
    done.push(current);
    done
}

/// The pieces that are not empty, in order.
pub open spec fn nonempty(pieces: Seq<Seq<char>>) -> Seq<Seq<char>>
    decreases pieces.len(),
{
    if pieces.len() == 0 {
        pieces
    } else {
        let before = nonempty(pieces.drop_last());
        if pieces.last().len() > 0 {
            before.push(pieces.last())
        } else {
            before
        }
    }
}

/// Every piece trimmed.
pub open spec fn trim_all(pieces: Seq<Seq<char>>) -> Seq<Seq<char>> {
    pieces.map_values(|piece: Seq<char>| trim(piece))
}

/// A list as the flags and variables write one: split on `sep`, each piece
/// trimmed, the empty ones dropped.
pub open spec fn words(text: Seq<char>, sep: char) -> Seq<Seq<char>> {
    nonempty(trim_all(split(text, sep)))
}

/// The words of `text` between the separators `sep`, trimmed, none empty.
pub fn words_of(text: &[char], sep: char) -> (out: Vec<Vec<char>>)
    ensures
        char_views(out@) == words(text@, sep),
{
    let pieces = split_on(text, sep);
    let ghost all = trim_all(char_views(pieces@));
    let mut out: Vec<Vec<char>> = Vec::new();
    let mut i: usize = 0;
    while i < pieces.len()
        invariant
            i <= pieces@.len(),
            all == trim_all(char_views(pieces@)),
            char_views(out@) == nonempty(all.take(i as int)),
        decreases pieces@.len() - i,
    {
        let piece = trimmed(pieces[i].as_slice());
        proof {
            assert(all.take(i as int + 1).drop_last() == all.take(i as int));
            assert(all[i as int] == piece@);
        }
        if piece.len() > 0 {
            proof {
                assert(char_views(out@.push(piece)) == char_views(out@).push(piece@));
            }
            out.push(piece);
        }
        i = i + 1;
    }
    assert(all.take(pieces@.len() as int) == all);
    out
}

/// Each character vector as a `String`.
pub fn strings_of(pieces: &Vec<Vec<char>>) -> (out: Vec<String>)
    ensures
        string_views(out@) == char_views(pieces@),
{
    let mut out: Vec<String> = Vec::new();
    let mut i: usize = 0;
    while i < pieces.len()
        invariant
            i <= pieces@.len(),
            string_views(out@) == char_views(pieces@).take(i as int),
        decreases pieces@.len() - i,
    {
        let one = string_of(pieces[i].as_slice());
        proof {
            assert(string_views(out@.push(one)) == string_views(out@).push(one@));
            assert(char_views(pieces@).take(i as int + 1)
                == char_views(pieces@).take(i as int).push(pieces@[i as int]@));
        }
        out.push(one);
        i = i + 1;
    }
    assert(char_views(pieces@).take(pieces@.len() as int) == char_views(pieces@));
    out
}

/// The pieces written one after another with `sep` between each two.
pub open spec fn join(pieces: Seq<Seq<char>>, sep: Seq<char>) -> Seq<char>
    decreases pieces.len(),
{
    if pieces.len() == 0 {
        Seq::empty()
    } else if pieces.len() == 1 {
        pieces[0]
    } else {
        join(pieces.drop_last(), sep) + sep + pieces.last()
    }
}

/// `out` grows by `chars`.
pub fn append_chars(out: &mut String, chars: &[char])
    ensures
        final(out)@ == old(out)@ + chars@,
{
    let mut i: usize = 0;
    while i < chars.len()
        invariant
            i <= chars@.len(),
            out@ == old(out)@ + chars@.take(i as int),
        decreases chars@.len() - i,
    {
        push_char(out, chars[i]);
        i = i + 1;
        assert(out@ =~= old(out)@ + chars@.take(i as int));
    }
    assert(chars@.take(chars@.len() as int) == chars@);
}

/// `out` grows by the strings, with `sep` between each two: `join` written
/// onto the end of `out`.
pub fn append_joined(out: &mut String, pieces: &[String], sep: &str)
    ensures
        final(out)@ == old(out)@ + join(string_views(pieces@), sep@),
{
    let ghost all = string_views(pieces@);
    let mut i: usize = 0;
    while i < pieces.len()
        invariant
            i <= pieces@.len(),
            all == string_views(pieces@),
            out@ == old(out)@ + join(all.take(i as int), sep@),
        decreases pieces@.len() - i,
    {
        proof {
            assert(all.take(i as int + 1).drop_last() == all.take(i as int));
            assert(all.take(i as int + 1).last() == pieces@[i as int]@);
        }
        if i > 0 {
            out.append(sep);
        }
        out.append(pieces[i].as_str());
        i = i + 1;
        proof {
            if i == 1 {
                assert(join(all.take(1), sep@) == all[0]);
                assert(join(all.take(0), sep@) =~= Seq::<char>::empty());
            }
        }
        assert(out@ =~= old(out)@ + join(all.take(i as int), sep@));
    }
    assert(all.take(pieces@.len() as int) == all);
}

/// Whether two character vectors hold the same characters.
pub fn same_chars(a: &[char], b: &[char]) -> (same: bool)
    ensures
        same == (a@ == b@),
{
    if a.len() != b.len() {
        return false;
    }
    let mut i: usize = 0;
    while i < a.len()
        invariant
            i <= a@.len() == b@.len(),
            forall|j: int| 0 <= j < i ==> a@[j] == b@[j],
        decreases a@.len() - i,
    {
        if a[i] != b[i] {
            return false;
        }
        i = i + 1;
    }
    assert(a@ =~= b@);
    true
}

/// `prefix` followed by `rest`, as a new `String`.
pub fn followed(prefix: &str, rest: &str) -> (said: String)
    ensures
        said@ == prefix@ + rest@,
{
    let mut said = String::new();
    said.append(prefix);
    said.append(rest);
    said
}

/// Whether `text` spells `word`, character for character.
pub fn spelled(text: &str, word: &str) -> (same: bool)
    ensures
        same == (text@ == word@),
{
    let a = chars_of(text);
    let b = chars_of(word);
    same_chars(a.as_slice(), b.as_slice())
}

/// `str::split_once(sep)`: what stands before the first `sep`, and what
/// after it when there is one.
pub open spec fn split_once(text: Seq<char>, sep: char) -> (Seq<char>, Option<Seq<char>>)
    decreases text.len(),
{
    if text.len() == 0 {
        (text, None)
    } else if text[0] == sep {
        (Seq::empty(), Some(text.subrange(1, text.len() as int)))
    } else {
        let (before, after) = split_once(text.subrange(1, text.len() as int), sep);
        (seq![text[0]] + before, after)
    }
}

/// `split_once` at the first `sep`, found at `at`.
pub proof fn lemma_split_once_at(text: Seq<char>, sep: char, at: int)
    requires
        0 <= at < text.len(),
        text[at] == sep,
        forall|j: int| 0 <= j < at ==> text[j] != sep,
    ensures
        split_once(text, sep) == (text.take(at), Some(text.skip(at + 1))),
    decreases at,
{
    if at > 0 {
        let rest = text.subrange(1, text.len() as int);
        assert forall|j: int| 0 <= j < at - 1 implies rest[j] != sep by {
            assert(rest[j] == text[j + 1]);
        }
        lemma_split_once_at(rest, sep, at - 1);
        assert(seq![text[0]] + rest.take(at - 1) == text.take(at));
        assert(rest.skip(at) == text.skip(at + 1));
    } else {
        assert(text.take(0) == Seq::<char>::empty());
        assert(text.subrange(1, text.len() as int) == text.skip(1));
    }
}

/// `split_once` where no `sep` stands.
pub proof fn lemma_split_once_none(text: Seq<char>, sep: char)
    requires
        forall|j: int| 0 <= j < text.len() ==> text[j] != sep,
    ensures
        split_once(text, sep) == (text, None::<Seq<char>>),
    decreases text.len(),
{
    if text.len() > 0 {
        let rest = text.subrange(1, text.len() as int);
        assert forall|j: int| 0 <= j < rest.len() implies rest[j] != sep by {
            assert(rest[j] == text[j + 1]);
        }
        lemma_split_once_none(rest, sep);
        assert(seq![text[0]] + rest == text);
    }
}

/// What stands before the first `sep`, and what after it when there is one.
pub fn split_once_on(text: &[char], sep: char) -> (parts: (Vec<char>, Option<Vec<char>>))
    ensures
        parts.0@ == split_once(text@, sep).0,
        match (parts.1, split_once(text@, sep).1) {
            (Some(after), Some(expected)) => after@ == expected,
            (None, None) => true,
            _ => false,
        },
{
    let mut before: Vec<char> = Vec::new();
    let mut i: usize = 0;
    while i < text.len()
        invariant
            i <= text@.len(),
            before@ == text@.take(i as int),
            forall|j: int| 0 <= j < i ==> text@[j] != sep,
        decreases text@.len() - i,
    {
        if text[i] == sep {
            let mut after: Vec<char> = Vec::new();
            let mut k: usize = i + 1;
            while k < text.len()
                invariant
                    i < k <= text@.len(),
                    after@ == text@.subrange(i as int + 1, k as int),
                decreases text@.len() - k,
            {
                after.push(text[k]);
                k = k + 1;
            }
            proof {
                lemma_split_once_at(text@, sep, i as int);
            }
            return (before, Some(after));
        }
        before.push(text[i]);
        i = i + 1;
    }
    proof {
        lemma_split_once_none(text@, sep);
        assert(text@.take(text@.len() as int) == text@);
    }
    (before, None)
}

/// Text holding no `sep` is one piece.
pub proof fn lemma_split_whole(text: Seq<char>, sep: char)
    requires
        !text.contains(sep),
    ensures
        split(text, sep) == seq![text],
    decreases text.len(),
{
    if text.len() > 0 {
        assert(!text.drop_last().contains(sep)) by {
            if text.drop_last().contains(sep) {
                let k = choose|k: int| 0 <= k < text.drop_last().len() && text.drop_last()[k] == sep;
                assert(text[k] == sep);
            }
        }
        lemma_split_whole(text.drop_last(), sep);
        assert(text.last() != sep) by {
            if text.last() == sep {
                assert(text[text.len() - 1] == sep);
            }
        }
        assert(text.drop_last().push(text.last()) == text);
        assert(seq![text.drop_last()].update(0, text.drop_last().push(text.last())) =~= seq![text]);
    } else {
        assert(text =~= Seq::<char>::empty());
    }
}

/// Two texts joined by `sep` split into the pieces of the first, then the
/// pieces of the second.
pub proof fn lemma_split_joined(first: Seq<char>, second: Seq<char>, sep: char)
    ensures
        split(first + seq![sep] + second, sep) == split(first, sep) + split(second, sep),
    decreases second.len(),
{
    let whole = first + seq![sep] + second;
    lemma_split_len(first, sep);
    if second.len() == 0 {
        assert(whole == first + seq![sep]);
        assert(whole.drop_last() == first);
        assert(split(second, sep) == seq![Seq::<char>::empty()]);
    } else {
        lemma_split_joined(first, second.drop_last(), sep);
        lemma_split_len(second.drop_last(), sep);
        assert(whole.drop_last() == first + seq![sep] + second.drop_last());
        assert(whole.last() == second.last());
        let a = split(first, sep);
        let b = split(second.drop_last(), sep);
        if second.last() != sep {
            assert((a + b).update((a + b).len() - 1, (a + b).last().push(second.last())) == a
                + b.update(b.len() - 1, b.last().push(second.last())));
        } else {
            assert((a + b).push(Seq::<char>::empty()) == a + b.push(Seq::<char>::empty()));
        }
    }
}

/// Whether `a` comes before `b` in the order `String` sorts in: character
/// by character, a proper prefix first.
pub open spec fn precedes(a: Seq<char>, b: Seq<char>) -> bool
    decreases a.len(),
{
    if a.len() == 0 {
        b.len() > 0
    } else if b.len() == 0 {
        false
    } else if a[0] != b[0] {
        a[0] < b[0]
    } else {
        precedes(a.drop_first(), b.drop_first())
    }
}

/// Nothing comes before itself.
pub proof fn lemma_precedes_irreflexive(a: Seq<char>)
    ensures
        !precedes(a, a),
    decreases a.len(),
{
    if a.len() > 0 {
        lemma_precedes_irreflexive(a.drop_first());
    }
}

/// Of two texts, one comes first, or they are the same.
pub proof fn lemma_precedes_total(a: Seq<char>, b: Seq<char>)
    ensures
        precedes(a, b) || precedes(b, a) || a == b,
    decreases a.len(),
{
    if a.len() > 0 && b.len() > 0 {
        if a[0] == b[0] {
            lemma_precedes_total(a.drop_first(), b.drop_first());
            if a.drop_first() == b.drop_first() {
                assert(a == seq![a[0]] + a.drop_first());
                assert(b == seq![b[0]] + b.drop_first());
            }
        } else {

        }
    } else if a.len() == 0 && b.len() == 0 {
        assert(a =~= b);
    }
}

/// Coming first is transitive.
pub proof fn lemma_precedes_transitive(a: Seq<char>, b: Seq<char>, c: Seq<char>)
    requires
        precedes(a, b),
        precedes(b, c),
    ensures
        precedes(a, c),
    decreases a.len(),
{
    if a.len() > 0 && b.len() > 0 && c.len() > 0 {
        if a[0] == b[0] && b[0] == c[0] {
            lemma_precedes_transitive(a.drop_first(), b.drop_first(), c.drop_first());
        }
    }
}

/// Of two texts of one length, each with one more character, the first
/// comes first when it did already, or when they were the same and its last
/// character comes first.
pub proof fn lemma_precedes_push(a: Seq<char>, b: Seq<char>, c: char, d: char)
    requires
        a.len() == b.len(),
    ensures
        precedes(a.push(c), b.push(d)) == (precedes(a, b) || (a == b && c < d)),
    decreases a.len(),
{
    if a.len() == 0 {
        assert(a.push(c).drop_first() =~= Seq::<char>::empty());
        assert(b.push(d).drop_first() =~= Seq::<char>::empty());
        assert(a =~= b);
        assert(a.push(c)[0] == c && b.push(d)[0] == d);
        assert(!precedes(Seq::<char>::empty(), Seq::<char>::empty()));
        assert(!precedes(a, b));
    } else {
        assert(a.push(c)[0] == a[0] && b.push(d)[0] == b[0]);
        assert(a.push(c).drop_first() =~= a.drop_first().push(c));
        assert(b.push(d).drop_first() =~= b.drop_first().push(d));
        lemma_precedes_push(a.drop_first(), b.drop_first(), c, d);
        if a[0] == b[0] {
            assert(a == seq![a[0]] + a.drop_first());
            assert(b == seq![b[0]] + b.drop_first());
            if a.drop_first() == b.drop_first() {
                assert(a =~= b);
            }
        } else {
            assert(a != b);
        }
    }
}

/// What comes first among texts of one length still comes first whatever
/// follows each.
pub proof fn lemma_precedes_extended(a: Seq<char>, b: Seq<char>, after_a: Seq<char>, after_b: Seq<char>)
    requires
        a.len() == b.len(),
        precedes(a, b),
    ensures
        precedes(a + after_a, b + after_b),
    decreases a.len(),
{
    assert((a + after_a)[0] == a[0] && (b + after_b)[0] == b[0]);
    if a[0] == b[0] {
        assert((a + after_a).drop_first() =~= a.drop_first() + after_a);
        assert((b + after_b).drop_first() =~= b.drop_first() + after_b);
        lemma_precedes_extended(a.drop_first(), b.drop_first(), after_a, after_b);
    }
}

/// Whether `a` comes before `b` in the order `String` sorts in.
pub fn comes_before(a: &[char], b: &[char]) -> (before: bool)
    ensures
        before == precedes(a@, b@),
{
    let mut i: usize = 0;
    assert(a@.skip(0) == a@);
    assert(b@.skip(0) == b@);
    while i < a.len() && i < b.len()
        invariant
            i <= a@.len(),
            i <= b@.len(),
            precedes(a@, b@) == precedes(a@.skip(i as int), b@.skip(i as int)),
        decreases a@.len() - i,
    {
        if a[i] != b[i] {
            assert(a@.skip(i as int)[0] == a@[i as int]);
            assert(b@.skip(i as int)[0] == b@[i as int]);
            return a[i] < b[i];
        }
        assert(a@.skip(i as int).drop_first() == a@.skip(i as int + 1));
        assert(b@.skip(i as int).drop_first() == b@.skip(i as int + 1));
        i = i + 1;
    }
    assert(a@.skip(i as int).len() == 0 || b@.skip(i as int).len() == 0);
    i < b.len()
}


/// Text that neither begins nor ends with white space is its own trim.
pub proof fn lemma_trim_unchanged(text: Seq<char>)
    requires
        text.len() > 0 ==> !is_space(text[0]) && !is_space(text.last()),
    ensures
        trim(text) == text,
{
    assert(trim_start(text) == text);
    assert(trim_end(text) == text);
}

/// Pieces holding no `sep`, joined by `sep`, split back into themselves.
pub proof fn lemma_split_join(pieces: Seq<Seq<char>>, sep: char)
    requires
        pieces.len() > 0,
        forall|i: int| 0 <= i < pieces.len() ==> !(#[trigger] pieces[i]).contains(sep),
    ensures
        split(join(pieces, seq![sep]), sep) == pieces,
    decreases pieces.len(),
{
    if pieces.len() == 1 {
        lemma_split_whole(pieces[0], sep);
        assert(pieces == seq![pieces[0]]);
    } else {
        let before = pieces.drop_last();
        assert forall|i: int| 0 <= i < before.len() implies !(#[trigger] before[i]).contains(sep) by {
            assert(before[i] == pieces[i]);
        }
        lemma_split_join(before, sep);
        lemma_split_joined(join(before, seq![sep]), pieces.last(), sep);
        assert(!pieces[pieces.len() - 1].contains(sep));
        lemma_split_whole(pieces.last(), sep);
        assert(join(pieces, seq![sep]) == join(before, seq![sep]) + seq![sep] + pieces.last());
        assert(before + seq![pieces.last()] == pieces);
    }
}

/// Pieces none of which is empty are all kept.
proof fn lemma_nonempty_keeps(pieces: Seq<Seq<char>>)
    requires
        forall|i: int| 0 <= i < pieces.len() ==> (#[trigger] pieces[i]).len() > 0,
    ensures
        nonempty(pieces) == pieces,
    decreases pieces.len(),
{
    if pieces.len() > 0 {
        let before = pieces.drop_last();
        assert forall|i: int| 0 <= i < before.len() implies (#[trigger] before[i]).len() > 0 by {
            assert(before[i] == pieces[i]);
        }
        lemma_nonempty_keeps(before);
        assert(pieces[pieces.len() - 1].len() > 0);
        assert(before.push(pieces.last()) == pieces);
    }
}

/// Words — none empty, none holding `sep`, each its own trim — joined by
/// `sep`, read back as the same words.
pub proof fn lemma_words_join(pieces: Seq<Seq<char>>, sep: char)
    requires
        forall|i: int|
            0 <= i < pieces.len() ==> (#[trigger] pieces[i]).len() > 0 && !pieces[i].contains(sep)
                && trim(pieces[i]) == pieces[i],
    ensures
        words(join(pieces, seq![sep]), sep) == pieces,
{
    if pieces.len() == 0 {
        let nothing = Seq::<char>::empty();
        assert(join(pieces, seq![sep]) == nothing);
        assert(trim(nothing) == nothing) by {
            lemma_trim_unchanged(nothing);
        }
        assert(trim_all(split(nothing, sep)) =~= seq![nothing]);
        assert(nonempty(seq![nothing]) =~= Seq::<Seq<char>>::empty()) by {
            let none = Seq::<Seq<char>>::empty();
            assert(seq![nothing].drop_last() =~= none);
            assert(nonempty(none) == none);
            assert(seq![nothing].last().len() == 0);
        }
        assert(pieces =~= Seq::<Seq<char>>::empty());
    } else {
        lemma_split_join(pieces, sep);
        assert(trim_all(pieces) =~= pieces);
        lemma_nonempty_keeps(pieces);
    }
}


/// What holds of every character of the pieces and of the separator holds
/// of every character of them joined.
pub proof fn lemma_join_all(pieces: Seq<Seq<char>>, sep: Seq<char>, ok: spec_fn(char) -> bool)
    requires
        forall|k: int, j: int|
            0 <= k < pieces.len() && 0 <= j < pieces[k].len() ==> ok(#[trigger] pieces[k][j]),
        forall|j: int| 0 <= j < sep.len() ==> ok(#[trigger] sep[j]),
    ensures
        forall|i: int|
            0 <= i < join(pieces, sep).len() ==> ok(#[trigger] join(pieces, sep)[i]),
    decreases pieces.len(),
{
    if pieces.len() == 1 {
        assert forall|i: int| 0 <= i < join(pieces, sep).len() implies ok(
            #[trigger] join(pieces, sep)[i],
        ) by {
            assert(join(pieces, sep)[i] == pieces[0][i]);
        }
    } else if pieces.len() >= 2 {
        let before = pieces.drop_last();
        assert forall|k: int, j: int|
            0 <= k < before.len() && 0 <= j < before[k].len() implies ok(
            #[trigger] before[k][j],
        ) by {
            assert(before[k] == pieces[k]);
        }
        lemma_join_all(before, sep, ok);
        let head = join(before, sep);
        let last = pieces.last();
        let whole = head + sep + last;
        assert(join(pieces, sep) == whole);
        assert forall|i: int| 0 <= i < whole.len() implies ok(#[trigger] whole[i]) by {
            if i < head.len() {
                assert(whole[i] == head[i]);
            } else if i < head.len() + sep.len() {
                assert(whole[i] == sep[i - head.len()]);
            } else {
                let j = i - head.len() - sep.len();
                assert(whole[i] == last[j]);
                assert(pieces[pieces.len() - 1][j] == last[j]);
            }
        }
    }
}


/// Whether every character of `word` is a lowercase ASCII letter or a `-`.
pub open spec fn lowercase_word(word: Seq<char>) -> bool {
    forall|i: int| 0 <= i < word.len() ==> ('a' <= #[trigger] word[i] <= 'z' || word[i] == '-')
}

/// A word of lowercase letters and hyphens is its own trim and its own
/// lowering, and holds no `,`.
pub proof fn lemma_lowercase_word(word: Seq<char>)
    requires
        lowercase_word(word),
    ensures
        trim(word) == word,
        lower(word) == word,
        !word.contains(','),
{
    if word.len() > 0 {
        assert('a' <= word[0] <= 'z' || word[0] == '-');
        assert('a' <= word[word.len() - 1] <= 'z' || word[word.len() - 1] == '-');
    }
    lemma_trim_unchanged(word);
    assert(lower(word) =~= word);
    assert forall|i: int| 0 <= i < word.len() implies word[i] != ',' by {
        assert('a' <= word[i] <= 'z' || word[i] == '-');
    }
}

} // verus!
