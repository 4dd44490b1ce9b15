//! Plain text manipulation: trimming, newline stripping, and splitting on a
//! separator character, each an executable function proved against a
//! sequence-level specification.

use vstd::prelude::*;

verus! {

/// ASCII whitespace: space, tab, line feed, vertical tab, form feed,
/// carriage return.
pub open spec fn is_space_char(c: char) -> bool {
    c == ' ' || c == '\t' || c == '\n' || c == '\r' || c as int == 0xb || c as int == 0xc
}

/// `s` with leading whitespace removed.
pub open spec fn trim_front(s: Seq<char>) -> Seq<char>
    decreases s.len(),
{
    if s.len() > 0 && is_space_char(s[0]) {
        trim_front(s.skip(1))
    } else {
        s
    }
}

/// `s` with trailing whitespace removed.
pub open spec fn trim_back(s: Seq<char>) -> Seq<char>
    decreases s.len(),
{
    if s.len() > 0 && is_space_char(s.last()) {
        trim_back(s.drop_last())
    } else {
        s
    }
}

/// `s` with leading and trailing whitespace removed.
pub open spec fn trimmed(s: Seq<char>) -> Seq<char> {
    trim_back(trim_front(s))
}

/// `s` with every line feed removed, other characters kept in order.
pub open spec fn strip_newlines(s: Seq<char>) -> Seq<char>
    decreases s.len(),
{
    if s.len() == 0 {
        Seq::empty()
    } else if s.last() == '\n' {
        strip_newlines(s.drop_last())
    } else {
        strip_newlines(s.drop_last()).push(s.last())
    }
}

/// `s` split on the separator `sep`: the fragments between occurrences of
/// `sep`, in order, separators removed. There is always at least one
/// fragment; an empty `s` yields one empty fragment.
pub open spec fn split_seq(s: Seq<char>, sep: char) -> Seq<Seq<char>>
    decreases s.len(),
{
    if s.len() == 0 {
        seq![Seq::empty()]
    } else if s.last() == sep {
        split_seq(s.drop_last(), sep).push(Seq::empty())
    } else {
        let rest = split_seq(s.drop_last(), sep);
        rest.update(rest.len() - 1, rest.last().push(s.last()))
    }
}

/// Splitting yields at least one fragment.
pub proof fn lemma_split_seq_len(s: Seq<char>, sep: char)
    ensures
        split_seq(s, sep).len() >= 1,
    decreases s.len(),
{
    if s.len() > 0 {
        lemma_split_seq_len(s.drop_last(), sep);
    }
}

/// Whether `c` is ASCII whitespace.
pub fn is_space(c: char) -> (r: bool)
    ensures
        r == is_space_char(c),
{
    c == ' ' || c == '\t' || c == '\n' || c == '\r' || c as u32 == 0xb || c as u32 == 0xc
}

/// Remove leading whitespace from `s`.
pub fn trim_front_str(s: &str) -> (r: &str)
    ensures
        r@ == trim_front(s@),
    decreases s@.len(),
{
    let len = s.unicode_len();
    if len > 0 && is_space(s.get_char(0)) {
        let rest = s.substring_char(1, len);
        assert(rest@ =~= s@.skip(1));
        trim_front_str(rest)
    } else {
        s
    }
}

/// Remove trailing whitespace from `s`.
pub fn trim_back_str(s: &str) -> (r: &str)
    ensures
        r@ == trim_back(s@),
    decreases s@.len(),
{
    let len = s.unicode_len();
    if len > 0 && is_space(s.get_char(len - 1)) {
        let rest = s.substring_char(0, len - 1);
        assert(rest@ =~= s@.drop_last());
        trim_back_str(rest)
    } else {
        s
    }
}

/// Remove leading and trailing whitespace from `s`.
pub fn trim_str(s: &str) -> (r: &str)
    ensures
        r@ == trimmed(s@),
{
    trim_back_str(trim_front_str(s))
}

/// Remove every line feed from `s`.
pub fn strip_newlines_str(s: &str) -> (r: String)
    ensures
        r@ == strip_newlines(s@),
{
    let len = s.unicode_len();
    let mut out = String::new();
    let mut i: usize = 0;
    while i < len
        invariant
            i <= len,
            len == s@.len(),
            out@ == strip_newlines(s@.take(i as int)),
        decreases len - i,
    {
        let c = s.get_char(i);
        if c != '\n' {
            let piece = s.substring_char(i, i + 1);
            out.append(piece);
            assert(piece@ =~= seq![s@[i as int]]);
        }
        proof {
            let t = s@.take(i + 1);
            assert(t.drop_last() =~= s@.take(i as int));
            assert(t.last() == s@[i as int]);
        }
        i = i + 1;
    }
    proof {
        assert(s@.take(len as int) =~= s@);
    }
    out
}

/// The character sequences of a vector of strings, in order.
pub open spec fn word_views(ws: Seq<String>) -> Seq<Seq<char>> {
    ws.map_values(|w: String| w@)
}

/// Split `s` on the separator `sep` into owned fragments.
pub fn split_str(s: &str, sep: char) -> (r: Vec<String>)
    ensures
        word_views(r@) == split_seq(s@, sep),
{
    let len = s.unicode_len();
    let mut parts: Vec<String> = Vec::new();
    let mut start: usize = 0;
    let mut i: usize = 0;
    proof {
        assert(split_seq(s@.take(0), sep) =~~= word_views(parts@).push(s@.subrange(0, 0)));
    }
    while i < len
        invariant
            start <= i <= len,
            len == s@.len(),
            split_seq(s@.take(i as int), sep) == word_views(parts@).push(
                s@.subrange(start as int, i as int),
            ),
        decreases len - i,
    {
        let c = s.get_char(i);
        proof {
            let t = s@.take(i + 1);
            assert(t.drop_last() =~= s@.take(i as int));
            assert(t.last() == s@[i as int]);
        }
        if c == sep {
            let frag = s.substring_char(start, i).to_owned();
            assert(frag@ =~= s@.subrange(start as int, i as int));
            let ghost old_parts = parts@;
            parts.push(frag);
            proof {
                assert(word_views(parts@) =~~= word_views(old_parts).push(frag@));
                assert(split_seq(s@.take(i + 1), sep) =~~= word_views(parts@).push(
                    s@.subrange(i + 1, i + 1),
                ));
            }
            start = i + 1;
        } else {
            proof {
                let prev = word_views(parts@).push(s@.subrange(start as int, i as int));
                assert(prev.last() == s@.subrange(start as int, i as int));
                assert(prev.last().push(s@[i as int]) =~= s@.subrange(start as int, i + 1));
                assert(prev.update(prev.len() - 1, prev.last().push(s@[i as int]))
                    =~~= word_views(parts@).push(s@.subrange(start as int, i + 1)));
            }
        }
        i = i + 1;
    }
    let frag = s.substring_char(start, len).to_owned();
    assert(frag@ =~= s@.subrange(start as int, len as int));
    let ghost old_parts = parts@;
    parts.push(frag);
    proof {
        assert(s@.take(len as int) =~= s@);
        assert(word_views(parts@) =~~= word_views(old_parts).push(frag@));
        assert(word_views(parts@) =~~= split_seq(s@, sep));
    }
    parts
}

} // verus!
