//! What holds of searching, trimming, splitting into lines and joining.

use vstd::prelude::*;
use crate::text::{
    first_index, has_no, is_first_index, is_space, join, lines, newline, strip_cr, stripped,
    terminated, trim, trim_end, trim_start,
};

verus! {

/// An index with the properties of the first one is the first one.
pub proof fn lemma_first_index_is(s: Seq<char>, c: char, i: int)
    requires
        is_first_index(s, c, i),
    ensures
        first_index(s, c) == Some(i),
{
    let k = choose|k: int| is_first_index(s, c, k);
    assert(is_first_index(s, c, k));
    if k < i {
        assert(s[k] != c);
    } else if i < k {
        assert(s[i] != c);
    }
}

/// A character that does not occur has no first index.
pub proof fn lemma_first_index_none(s: Seq<char>, c: char)
    requires
        forall|j: int| 0 <= j < s.len() ==> s[j] != c,
    ensures
        first_index(s, c) is None,
{
}

/// A character that occurs at `j` has a first index.
proof fn lemma_occurs_first(s: Seq<char>, c: char, j: int)
    requires
        0 <= j < s.len(),
        s[j] == c,
    ensures
        exists|i: int| is_first_index(s, c, i),
    decreases j,
{
    if exists|k: int| 0 <= k < j && s[k] == c {
        let k = choose|k: int| 0 <= k < j && s[k] == c;
        lemma_occurs_first(s, c, k);
    } else {
        assert(is_first_index(s, c, j));
    }
}

/// What `first_index` gives is an index of `c` with no `c` before it, and
/// where it gives none, `c` does not occur.
pub proof fn lemma_first_index_found(s: Seq<char>, c: char)
    ensures
        match first_index(s, c) {
            Some(i) => is_first_index(s, c, i),
            None => has_no(s, c),
        },
{
    if first_index(s, c) is None {
        assert forall|j: int| 0 <= j < s.len() implies s[j] != c by {
            if s[j] == c {
                lemma_occurs_first(s, c, j);
            }
        }
    }
}

/// After a part without `c`, the first `c` is the one that follows the part.
pub proof fn lemma_first_index_after(a: Seq<char>, c: char, b: Seq<char>)
    requires
        has_no(a, c),
    ensures
        first_index(a + seq![c] + b, c) == Some(a.len() as int),
{
    let s = a + seq![c] + b;
    assert(s[a.len() as int] == c);
    assert forall|j: int| 0 <= j < a.len() implies s[j] != c by {
        assert(s[j] == a[j]);
    }
    lemma_first_index_is(s, c, a.len() as int);
}

/// What trimming at the start leaves is the end of the text, and does not
/// begin with white space.
pub proof fn lemma_trim_start_is_suffix(s: Seq<char>)
    ensures
        trim_start(s).len() <= s.len(),
        trim_start(s) == s.skip(s.len() - trim_start(s).len()),
        trim_start(s).len() > 0 ==> !is_space(trim_start(s).first()),
    decreases s.len(),
{
    if s.len() > 0 && is_space(s.first()) {
        lemma_trim_start_is_suffix(s.drop_first());
        let t = trim_start(s);
        assert(t =~= s.skip(s.len() - t.len()));
    } else {
        assert(s =~= s.skip(0));
    }
}

/// What trimming at the end leaves is the beginning of the text, and does
/// not end with white space.
pub proof fn lemma_trim_end_is_prefix(s: Seq<char>)
    ensures
        trim_end(s).len() <= s.len(),
        trim_end(s) == s.take(trim_end(s).len() as int),
        trim_end(s).len() > 0 ==> !is_space(trim_end(s).last()),
    decreases s.len(),
{
    if s.len() > 0 && is_space(s.last()) {
        lemma_trim_end_is_prefix(s.drop_last());
        let t = trim_end(s);
        assert(t =~= s.take(t.len() as int));
    } else {
        assert(s =~= s.take(s.len() as int));
    }
}

/// Trimming adds no character.
pub proof fn lemma_trim_keeps_out(s: Seq<char>, c: char)
    requires
        has_no(s, c),
    ensures
        has_no(trim_start(s), c),
        has_no(trim_end(s), c),
        has_no(trim(s), c),
{
    lemma_trim_start_is_suffix(s);
    lemma_trim_end_is_prefix(s);
    lemma_trim_end_is_prefix(trim_start(s));
}

/// Trimming what was trimmed changes nothing.
pub proof fn lemma_trim_twice(s: Seq<char>)
    ensures
        trim(trim(s)) == trim(s),
{
    let a = trim_start(s);
    let b = trim_end(a);
    lemma_trim_start_is_suffix(s);
    lemma_trim_end_is_prefix(a);
    if b.len() > 0 {
        assert(b.first() == a.first());
    }
    assert(trim_start(b) == b);
    assert(trim_end(b) == b);
}

/// A text that begins with a line and a line feed has that line first, and
/// then the lines of what follows.
pub proof fn lemma_lines_first(line: Seq<char>, rest: Seq<char>)
    requires
        has_no(line, '\n'),
    ensures
        lines(line + newline() + rest) == seq![strip_cr(line)] + lines(rest),
{
    let s = line + newline() + rest;
    let i = line.len() as int;
    lemma_first_index_after(line, '\n', rest);
    assert(s =~= line + seq!['\n'] + rest);
    assert(s.take(i) =~= line);
    assert(s.skip(i + 1) =~= rest);
}

/// A text without a line feed that is not empty is one line.
pub proof fn lemma_lines_single(line: Seq<char>)
    requires
        has_no(line, '\n'),
        line.len() > 0,
    ensures
        lines(line) == seq![line],
{
    lemma_first_index_none(line, '\n');
}

/// No line of a text holds a line feed.
pub proof fn lemma_lines_hold_no_line_feed(s: Seq<char>)
    ensures
        forall|i: int| 0 <= i < lines(s).len() ==> has_no(#[trigger] lines(s)[i], '\n'),
    decreases s.len(),
{
    if s.len() > 0 {
        lemma_first_index_found(s, '\n');
        match first_index(s, '\n') {
            Some(k) => {
                lemma_lines_hold_no_line_feed(s.skip(k + 1));
                let first = strip_cr(s.take(k));
                assert(has_no(first, '\n')) by {
                    assert forall|j: int| 0 <= j < first.len() implies first[j] != '\n' by {
                        assert(first[j] == s[j]);
                    }
                }
                assert forall|i: int| 0 <= i < lines(s).len() implies has_no(
                    #[trigger] lines(s)[i],
                    '\n',
                ) by {
                    if i > 0 {
                        assert(lines(s)[i] == lines(s.skip(k + 1))[i - 1]);
                    }
                }
            },
            None => {},
        }
    }
}

/// Joining parts and one more is the parts, each followed by the
/// separator, and then the last one.
pub proof fn lemma_join_push(parts: Seq<Seq<char>>, last: Seq<char>, sep: Seq<char>)
    ensures
        join(parts.push(last), sep) == terminated(parts, sep) + last,
    decreases parts.len(),
{
    let all = parts.push(last);
    assert(all.drop_last() =~= parts);
    if parts.len() == 0 {
        assert(join(all, sep) =~= terminated(parts, sep) + last);
    } else {
        lemma_join_push(parts.drop_last(), parts.last(), sep);
        assert(parts.drop_last().push(parts.last()) =~= parts);
        assert(join(all, sep) =~= terminated(parts, sep) + last);
    }
}

/// Joining two runs of parts that are not empty is joining each and putting
/// the separator between the two.
pub proof fn lemma_join_concat(a: Seq<Seq<char>>, b: Seq<Seq<char>>, sep: Seq<char>)
    requires
        a.len() > 0,
        b.len() > 0,
    ensures
        join(a + b, sep) == join(a, sep) + sep + join(b, sep),
    decreases b.len(),
{
    assert((a + b).drop_last() =~= a + b.drop_last());
    if b.len() == 1 {
        assert(a + b.drop_last() =~= a);
    } else {
        lemma_join_concat(a, b.drop_last(), sep);
        assert(join(a + b, sep) =~= join(a, sep) + sep + join(b, sep));
    }
}

/// How lines that are joined by line feeds are read back: each but the last
/// without a carriage return at its end, and the last as it is, but not at
/// all where it is empty.
pub proof fn lemma_lines_of_joined(ls: Seq<Seq<char>>)
    requires
        ls.len() > 0,
        forall|i: int| 0 <= i < ls.len() ==> has_no(#[trigger] ls[i], '\n'),
    ensures
        lines(join(ls, newline())) == stripped(ls.drop_last()) + (if ls.last().len() > 0 {
            seq![ls.last()]
        } else {
            Seq::empty()
        }),
    decreases ls.len(),
{
    let end: Seq<Seq<char>> = if ls.last().len() > 0 {
        seq![ls.last()]
    } else {
        Seq::empty()
    };
    if ls.len() == 1 {
        assert(stripped(ls.drop_last()) =~= Seq::<Seq<char>>::empty());
        if ls[0].len() > 0 {
            lemma_lines_single(ls[0]);
        }
        assert(lines(join(ls, newline())) =~= stripped(ls.drop_last()) + end);
    } else {
        let head = seq![ls[0]];
        let tail = ls.drop_first();
        assert(ls =~= head + tail);
        lemma_join_concat(head, tail, newline());
        lemma_lines_first(ls[0], join(tail, newline()));
        assert forall|i: int| 0 <= i < tail.len() implies has_no(#[trigger] tail[i], '\n') by {
            assert(tail[i] == ls[i + 1]);
        }
        assert(tail.last() == ls.last());
        lemma_lines_of_joined(tail);
        assert(seq![strip_cr(ls[0])] + stripped(tail.drop_last()) =~= stripped(ls.drop_last()));
        assert(lines(join(ls, newline())) =~= stripped(ls.drop_last()) + end);
    }
}

} // verus!
