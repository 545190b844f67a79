//! What holds of writing and reading taken together.

use vstd::prelude::*;
use crate::entry::{entry_lines, entry_text, extinf, info_line, option_lines, EntryView};
use crate::number::decimal;
use crate::options::distinct_keys;
use crate::playlist::{
    extm3u, is_location_line, is_tag_line, parse_playlist, scan, start,
};
use crate::scan_lemmas::lemma_scan_reads;
use crate::text::{has_no, join, lines, newline, trim};
use crate::text_lemmas::{lemma_join_concat, lemma_lines_hold_no_line_feed};

verus! {

/// An entry with a duration and no title is written as its info line alone:
/// neither options nor location follow.
pub proof fn lemma_duration_only(e: EntryView)
    requires
        e.time is Some,
        e.title is None,
    ensures
        entry_text(e) == extinf() + seq![':'] + decimal(e.time->0 as int),
{
}

/// An entry with an empty title is written with an info line that ends
/// after the duration, without a comma; the duration is 0 where none is set.
/// Options and location follow as ever: without options the location alone.
pub proof fn lemma_empty_title(e: EntryView)
    requires
        e.title == Some(Seq::<char>::empty()),
    ensures
        e.time is None ==> entry_text(e) == extinf() + seq![':', '0'] + newline() + join(
            option_lines(e.options).push(e.url),
            newline(),
        ),
        e.time matches Some(d) ==> entry_text(e) == extinf() + seq![':'] + decimal(d as int)
            + newline() + join(option_lines(e.options).push(e.url), newline()),
        e.options.len() == 0 ==> join(option_lines(e.options).push(e.url), newline()) == e.url,
{
    let d: int = match e.time {
        Some(d) => d as int,
        None => 0,
    };
    let info = info_line(d, Seq::empty());
    let rest = option_lines(e.options).push(e.url);
    assert(entry_lines(e) =~= seq![info] + rest);
    lemma_join_concat(seq![info], rest, newline());
    assert(decimal(0) =~= seq!['0']);
    if e.time is None {
        assert(extinf() + seq![':'] + decimal(0) =~= extinf() + seq![':', '0']);
    }
    if e.options.len() == 0 {
        assert(rest =~= seq![e.url]);
    }
}

/// The text of an entry with a title or a duration begins with the info
/// tag and a colon.
pub proof fn lemma_info_line_first(e: EntryView)
    requires
        e.title is Some || e.time is Some,
    ensures
        (extinf() + seq![':']).is_prefix_of(entry_text(e)),
{
    let ls = entry_lines(e);
    let head = extinf() + seq![':'];
    assert(head.is_prefix_of(ls[0])) by {
        assert(ls[0].subrange(0, head.len() as int) =~= head);
    }
    if ls.len() > 1 {
        lemma_join_concat(seq![ls[0]], ls.skip(1), newline());
        assert(seq![ls[0]] + ls.skip(1) =~= ls);
        assert(entry_text(e).subrange(0, head.len() as int) =~= head);
    }
}

/// An entry with no title, no duration and no option is written as its
/// location and nothing else.
pub proof fn lemma_location_only(e: EntryView)
    requires
        e.title is None,
        e.time is None,
        e.options.len() == 0,
    ensures
        entry_text(e) == e.url,
{
    assert(option_lines(e.options) =~= Seq::<Seq<char>>::empty());
    assert(entry_lines(e) =~= seq![e.url]);
}

/// A document whose first line is not the header is a plain list: it has
/// one entry for each line, with the line as its location and nothing else
/// set.
pub proof fn lemma_plain_list(text: Seq<char>)
    requires
        lines(text).len() > 0,
        lines(text)[0] != extm3u(),
    ensures
        parse_playlist(text).len() == lines(text).len(),
        forall|i: int|
            0 <= i < lines(text).len() ==> #[trigger] parse_playlist(text)[i] == (EntryView {
                title: None,
                url: lines(text)[i],
                time: None,
                options: Seq::empty(),
            }),
{
}

/// Tag lines at the end complete no entry: reading lines and then tag
/// lines completes what reading the lines alone completes.
proof fn lemma_scan_tags(ls: Seq<Seq<char>>, tags: Seq<Seq<char>>)
    requires
        forall|i: int| 0 <= i < tags.len() ==> is_tag_line(#[trigger] tags[i]),
    ensures
        scan(ls + tags).done == scan(ls).done,
    decreases tags.len(),
{
    if tags.len() == 0 {
        assert(ls + tags =~= ls);
    } else {
        assert((ls + tags).drop_last() =~= ls + tags.drop_last());
        assert(is_tag_line(tags[tags.len() - 1]));
        lemma_scan_tags(ls, tags.drop_last());
    }
}

/// A document that ends with tag lines, from line `k` on, has the entries
/// of the lines before them: what stands after the last location gives no
/// entry.
pub proof fn lemma_dangling_tags(text: Seq<char>, k: int)
    requires
        1 <= k <= lines(text).len(),
        lines(text)[0] == extm3u(),
        forall|i: int| k <= i < lines(text).len() ==> is_tag_line(#[trigger] lines(text)[i]),
    ensures
        parse_playlist(text) == scan(lines(text).subrange(1, k)).done,
{
    let ls = lines(text);
    let body = ls.subrange(1, k);
    let tags = ls.skip(k);
    assert(ls.skip(1) =~= body + tags);
    assert forall|i: int| 0 <= i < tags.len() implies is_tag_line(#[trigger] tags[i]) by {
        assert(tags[i] == ls[k + i]);
    }
    lemma_scan_tags(body, tags);
}

/// The lines that count as locations: those that are not empty and are no
/// tag lines.
pub open spec fn location_lines(ls: Seq<Seq<char>>) -> Seq<Seq<char>> {
    ls.filter(|line: Seq<char>| is_location_line(line))
}

/// Reading completes one entry for each location line, and the location of
/// each is its line, trimmed.
pub proof fn lemma_one_entry_per_location(ls: Seq<Seq<char>>)
    ensures
        scan(ls).done.len() == location_lines(ls).len(),
        forall|i: int|
            0 <= i < location_lines(ls).len() ==> #[trigger] scan(ls).done[i].url == trim(
                location_lines(ls)[i],
            ),
    decreases ls.len(),
{
    reveal(Seq::filter);
    if ls.len() > 0 {
        lemma_one_entry_per_location(ls.drop_last());
    }
}

/// After the header a document has one entry for each location line: tag
/// lines, those at the end too, and empty lines add none.
pub proof fn lemma_entry_count(text: Seq<char>)
    requires
        lines(text).len() > 0,
        lines(text)[0] == extm3u(),
    ensures
        parse_playlist(text).len() == location_lines(lines(text).skip(1)).len(),
{
    lemma_one_entry_per_location(lines(text).skip(1));
}

/// What holds of every entry that is read after the header: title and
/// duration are set together; keys are distinct and hold no equals sign;
/// no text holds a line feed; the location is trimmed.
pub open spec fn is_read_entry(e: EntryView) -> bool {
    &&& e.title is Some <==> e.time is Some
    &&& e.title matches Some(t) ==> has_no(t, '\n')
    &&& distinct_keys(e.options)
    &&& forall|i: int|
        0 <= i < e.options.len() ==> has_no((#[trigger] e.options[i]).0, '=') && has_no(
            e.options[i].0,
            '\n',
        ) && has_no(e.options[i].1, '\n')
    &&& has_no(e.url, '\n')
    &&& trim(e.url) == e.url
}

/// After the header, every entry of a document is as entries read are.
pub proof fn lemma_entries_as_read(text: Seq<char>)
    requires
        lines(text).len() > 0,
        lines(text)[0] == extm3u(),
    ensures
        forall|i: int|
            0 <= i < parse_playlist(text).len() ==> is_read_entry(
                #[trigger] parse_playlist(text)[i],
            ),
{
    let ls = lines(text).skip(1);
    lemma_lines_hold_no_line_feed(text);
    assert forall|i: int| 0 <= i < ls.len() implies has_no(#[trigger] ls[i], '\n') by {
        assert(ls[i] == lines(text)[i + 1]);
    }
    assert(trim(Seq::<char>::empty()) == Seq::<char>::empty());
    lemma_scan_reads(start(), ls);
}

} // verus!
