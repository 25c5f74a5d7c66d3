//! Texts as sequences of characters: where a pattern occurs in a text, and
//! how a text falls apart at a separator.

use vstd::prelude::*;

verus! {

/// `pattern` stands in `text` starting at position `at`.
pub open spec fn occurs_at(text: Seq<char>, pattern: Seq<char>, at: int) -> bool {
    &&& 0 <= at
    &&& at + pattern.len() <= text.len()
    &&& text.subrange(at, at + pattern.len()) == pattern
}

/// `pattern` stands somewhere in `text`.
pub open spec fn occurs_in(text: Seq<char>, pattern: Seq<char>) -> bool {
    exists|at: int| occurs_at(text, pattern, at)
}

/// The pieces of `text` that lie between the occurrences of `sep`, in order.
///
/// A text with `n` separators has `n + 1` pieces; pieces may be empty, and
/// the empty text has the single piece `""`.
pub open spec fn split_text(text: Seq<char>, sep: char) -> Seq<Seq<char>>
    decreases text.len(),
{
    if text.len() == 0 {
        seq![Seq::empty()]
    } else {
        let before = split_text(text.drop_last(), sep);
        if text.last() == sep {
            before.push(Seq::empty())
        } else {
            before.drop_last().push(before.last().push(text.last()))
        }
    }
}

/// The pieces put together again, with one `sep` between neighbours.
pub open spec fn joined(pieces: Seq<Seq<char>>, sep: char) -> Seq<char>
    decreases pieces.len(),
{
    if pieces.len() == 0 {
        Seq::empty()
    } else if pieces.len() == 1 {
        pieces[0]
    } else {
        joined(pieces.drop_last(), sep).push(sep) + pieces.last()
    }
}

/// Splitting loses nothing and cuts at every separator: there is one piece
/// more than the text has separators, no piece holds a separator, and the
/// pieces joined by the separator are the text again.
pub proof fn lemma_split_rejoins(text: Seq<char>, sep: char)
    ensures
        split_text(text, sep).len() == text.filter(|c: char| c == sep).len() + 1,
        forall|i: int|
            0 <= i < split_text(text, sep).len()
                ==> !(#[trigger] split_text(text, sep)[i]).contains(sep),
        joined(split_text(text, sep), sep) == text,
    decreases text.len(),
{
    reveal(Seq::filter);
    if text.len() > 0 {
        let parts = split_text(text, sep);
        let before = split_text(text.drop_last(), sep);
        lemma_split_rejoins(text.drop_last(), sep);
        if text.last() == sep {
            assert(parts.drop_last() == before);
        } else {
            let grown = before.last().push(text.last());
            assert(parts.drop_last() == before.drop_last());
            assert(!grown.contains(sep));
            if before.len() > 1 {
                let head = joined(before.drop_last(), sep).push(sep);
                assert(head + grown == (head + before.last()).push(text.last()));
            }
        }
    }
}

/// `text` holds `sep` at position `at` and nowhere else.
pub open spec fn only_sep_at(text: Seq<char>, sep: char, at: int) -> bool {
    &&& 0 <= at < text.len()
    &&& forall|i: int| 0 <= i < text.len() ==> (#[trigger] text[i] == sep <==> i == at)
}

/// A text always has a piece. It has one piece exactly when it holds no
/// separator, and that piece is the text. It has two pieces exactly when it
/// holds one separator, and they are what stands before and after it.
pub proof fn lemma_split_pieces(text: Seq<char>, sep: char)
    ensures
        split_text(text, sep).len() >= 1,
        split_text(text, sep).len() == 1 <==> !text.contains(sep),
        split_text(text, sep).len() == 1 ==> split_text(text, sep)[0] == text,
        split_text(text, sep).len() == 2 <==> exists|at: int| only_sep_at(text, sep, at),
        forall|at: int| #[trigger]
            only_sep_at(text, sep, at)
                ==> split_text(text, sep) == seq![text.take(at), text.skip(at + 1)],
    decreases text.len(),
{
    if text.len() > 0 {
        let parts = split_text(text, sep);
        let init = text.drop_last();
        let before = split_text(init, sep);
        let end = text.len() - 1;
        lemma_split_pieces(init, sep);
        assert forall|i: int| 0 <= i < init.len() implies init[i] == text[i] by {}
        if text.last() == sep {
            if before.len() == 1 {
                assert(only_sep_at(text, sep, end));
            }
            assert forall|at: int| #[trigger] only_sep_at(text, sep, at) implies before.len() == 1
                && parts == seq![text.take(at), text.skip(at + 1)] by {
                assert(parts =~~= seq![text.take(at), text.skip(at + 1)]);
            }
        } else {
            assert(text.contains(sep) <==> init.contains(sep));
            if before.len() == 2 {
                let at = choose|at: int| only_sep_at(init, sep, at);
                assert(only_sep_at(text, sep, at));
            }
            assert forall|at: int| #[trigger] only_sep_at(text, sep, at) implies only_sep_at(
                init,
                sep,
                at,
            ) && parts == seq![text.take(at), text.skip(at + 1)] by {
                assert(only_sep_at(init, sep, at));
                assert(parts =~~= seq![text.take(at), text.skip(at + 1)]);
            }
        }
    }
}

/// The characters of `s`, one element each.
pub fn chars_of(s: &str) -> (chars: Vec<char>)
    ensures
        chars@ == s@,
{
    broadcast use vstd::string::group_string_axioms;

    let mut chars: Vec<char> = Vec::new();
    for c in it: s.chars()
        invariant
            it.seq() == s@,
            chars@ == s@.take(it.index()),
    {
        chars.push(c);
    }
    chars
}

/// Whether `pattern` stands in `text` at position `at`.
pub fn matches_at(text: &Vec<char>, pattern: &Vec<char>, at: usize) -> (found: bool)
    ensures
        found == occurs_at(text@, pattern@, at as int),
{
    if at > text.len() || pattern.len() > text.len() - at {
        return false;
    }
    let mut k: usize = 0;
    while k < pattern.len()
        invariant
            k <= pattern.len(),
            at + pattern.len() <= text.len(),
            forall|j: int| 0 <= j < k ==> text@[at + j] == pattern@[j],
        decreases pattern.len() - k,
    {
        if text[at + k] != pattern[k] {
            return false;
        }
        k += 1;
    }
    assert(text@.subrange(at as int, at + pattern.len()) =~= pattern@);
    true
}

/// Whether `pattern` stands anywhere in `text`.
pub fn contains(text: &Vec<char>, pattern: &Vec<char>) -> (found: bool)
    ensures
        found == occurs_in(text@, pattern@),
{
    if pattern.len() > text.len() {
        return false;
    }
    let last: usize = text.len() - pattern.len();
    let mut at: usize = 0;
    loop
        invariant
            at <= last,
            last == text.len() - pattern.len(),
            forall|k: int| 0 <= k < at ==> !occurs_at(text@, pattern@, k),
        decreases last - at,
    {
        if matches_at(text, pattern, at) {
            return true;
        }
        if at == last {
            return false;
        }
        at += 1;
    }
}

/// The characters of `s` from position `from` up to, not including, `to`.
fn piece(s: &str, from: usize, to: usize) -> (part: String)
    requires
        from <= to <= s@.len(),
    ensures
        part@ == s@.subrange(from as int, to as int),
{
    s.substring_char(from, to).to_owned()
}

/// Splits `s` at every occurrence of `sep`.
pub fn split(s: &str, sep: char) -> (parts: Vec<String>)
    ensures
        parts.deep_view() == split_text(s@, sep),
{
    let chars = chars_of(s);
    let mut parts: Vec<String> = Vec::new();
    let mut start: usize = 0;
    let mut at: usize = 0;
    assert(parts.deep_view().push(s@.subrange(0, 0)) =~~= seq![Seq::<char>::empty()]);
    while at < chars.len()
        invariant
            chars@ == s@,
            start <= at <= chars.len(),
            parts.deep_view().push(s@.subrange(start as int, at as int))
                == split_text(s@.take(at as int), sep),
        decreases chars.len() - at,
    {
        assert(s@.take(at + 1).drop_last() == s@.take(at as int));
        if chars[at] == sep {
            parts.push(piece(s, start, at));
            start = at + 1;
            assert(s@.subrange(start as int, at + 1) == Seq::<char>::empty());
        } else {
            assert(s@.subrange(start as int, at + 1)
                == s@.subrange(start as int, at as int).push(s@[at as int]));
        }
        at += 1;
    }
    assert(s@.take(at as int) == s@);
    parts.push(piece(s, start, at));
    parts
}

} // verus!
