//! Which playlists are read back from their text, and which documents are
//! written back as they were read.

use vstd::prelude::*;
use crate::entry::{entry_text, EntryView};
use crate::laws::{
    is_read_entry, lemma_entries_as_read, lemma_one_entry_per_location, location_lines,
};
use crate::options::distinct_keys;
use crate::playlist::{
    entry_texts, is_location_line, parse_playlist, playlist_text, scan,
};
use crate::scan_lemmas::{
    lemma_parse_text_of_read, lemma_read_entry_lines, lemma_read_playlist_lines,
    lemma_reread_same, lemma_text_lines, playlist_lines, reread, reread_all, stripped_values,
};
use crate::text::{has_no, is_line, join, lines, newline, strip_cr, stripped, trim};
use crate::text_lemmas::lemma_lines_of_joined;

verus! {

/// Whether an entry is read back from its text.
///
/// A title, where there is one, is not empty and fits in a line. Such an
/// entry may lack a duration. An entry without a title has no duration
/// either. Keys are distinct, hold no equals sign and no line feed; values
/// fit in a line. The location is not empty, holds no line feed, has no
/// white space at either end and does not begin with a tag.
pub open spec fn is_canonical_entry(e: EntryView) -> bool {
    &&& match e.title {
        Some(t) => t.len() > 0 && is_line(t),
        None => e.time is None,
    }
    &&& distinct_keys(e.options)
    &&& forall|i: int|
        0 <= i < e.options.len() ==> has_no((#[trigger] e.options[i]).0, '=') && has_no(
            e.options[i].0,
            '\n',
        ) && is_line(e.options[i].1)
    &&& has_no(e.url, '\n')
    &&& trim(e.url) == e.url
    &&& is_location_line(e.url)
}

/// Whether a playlist is read back from its text: each entry is.
pub open spec fn is_canonical(entries: Seq<EntryView>) -> bool {
    forall|i: int| 0 <= i < entries.len() ==> is_canonical_entry(#[trigger] entries[i])
}

/// The entry as it is read back: a title without a duration comes back with
/// the duration 0, under which it was written.
pub open spec fn read_back(e: EntryView) -> EntryView {
    EntryView {
        title: e.title,
        url: e.url,
        time: if e.title is Some && e.time is None {
            Some(0i32)
        } else {
            e.time
        },
        options: e.options,
    }
}

/// The entries as they are read back.
pub open spec fn read_back_all(entries: Seq<EntryView>) -> Seq<EntryView> {
    entries.map_values(|e: EntryView| read_back(e))
}

/// A playlist and the playlist as it is read back have the same text, entry
/// by entry.
pub proof fn lemma_read_back_text(entries: Seq<EntryView>)
    ensures
        entry_texts(read_back_all(entries)) == entry_texts(entries),
        playlist_text(read_back_all(entries)) == playlist_text(entries),
{
    let back = read_back_all(entries);
    assert forall|i: int| 0 <= i < entries.len() implies entry_text(#[trigger] back[i])
        == entry_text(entries[i]) by {
        assert(entry_text(read_back(entries[i])) == entry_text(entries[i]));
    }
    assert(entry_texts(back) =~= entry_texts(entries));
}

/// A canonical entry, as it is read back, is as entries read are, and what
/// is read again of it is the same.
proof fn lemma_canonical_reread(e: EntryView)
    requires
        is_canonical_entry(e),
    ensures
        is_read_entry(read_back(e)),
        reread(read_back(e)) == read_back(e),
{
    assert(stripped_values(e.options) =~= e.options) by {
        assert forall|i: int| 0 <= i < e.options.len() implies stripped_values(e.options)[i]
            == e.options[i] by {
            assert(is_line(e.options[i].1));
        }
    }
}

/// The text of a canonical playlist is read as the playlist: each entry
/// comes back as it is, but that a title without a duration comes back with
/// the duration 0.
pub proof fn lemma_parse_text(entries: Seq<EntryView>)
    requires
        is_canonical(entries),
    ensures
        parse_playlist(playlist_text(entries)) == read_back_all(entries),
{
    let back = read_back_all(entries);
    lemma_read_back_text(entries);
    assert forall|i: int| 0 <= i < back.len() implies is_read_entry(#[trigger] back[i])
        && is_location_line(back[i].url) && reread(back[i]) == back[i] by {
        assert(is_canonical_entry(entries[i]));
        lemma_canonical_reread(entries[i]);
    }
    lemma_parse_text_of_read(back);
    assert(reread_all(back) =~= back);
}

/// A document that is the text of a canonical playlist is written back, from
/// what is read from it, character for character.
pub proof fn lemma_round_trip(text: Seq<char>, entries: Seq<EntryView>)
    requires
        is_canonical(entries),
        text == playlist_text(entries),
    ensures
        playlist_text(parse_playlist(text)) == text,
{
    lemma_parse_text(entries);
    lemma_read_back_text(entries);
}

/// A document that is written back, from what is read from it, character
/// for character, is the text of a canonical playlist: of the playlist that
/// is read from it.
pub proof fn lemma_round_trip_only(text: Seq<char>)
    requires
        playlist_text(parse_playlist(text)) == text,
    ensures
        is_canonical(parse_playlist(text)),
{
    let entries = parse_playlist(text);
    let all = playlist_lines(entries);
    let read = lines(join(all, newline()));
    lemma_text_lines(entries);
    assert(entries == scan(read).done);
    lemma_entries_as_read(text);
    lemma_read_playlist_lines(entries);
    lemma_one_entry_per_location(read);
    if entries.len() > 0 {
        lemma_lines_of_joined(all);
        lemma_read_entry_lines(entries.last());
        assert(stripped(all) =~= stripped(all.drop_last()).push(all.last())) by {
            assert(strip_cr(all.last()) == all.last());
        }
        if entries.last().url.len() == 0 {
            assert(read =~= stripped(all.drop_last()));
            assert(location_lines(stripped(all)) == location_lines(read)) by {
                reveal(Seq::filter);
                assert(stripped(all).drop_last() =~= read);
                assert(!is_location_line(stripped(all).last()));
            }
        } else {
            assert(read =~= stripped(all));
        }
        assert(is_location_line(entries[entries.len() - 1].url));
        assert(read =~= stripped(all));
        lemma_parse_text_of_read(entries);
        assert forall|i: int| 0 <= i < entries.len() implies is_canonical_entry(
            #[trigger] entries[i],
        ) by {
            assert(reread_all(entries)[i] == reread(entries[i]));
            lemma_reread_same(entries[i]);
        }
    }
}

/// A document is written back, from what is read from it, character for
/// character if and only if it is the text of a canonical playlist.
pub proof fn lemma_round_trip_exactly(text: Seq<char>)
    ensures
        playlist_text(parse_playlist(text)) == text <==> exists|entries: Seq<EntryView>|
            is_canonical(entries) && #[trigger] playlist_text(entries) == text,
{
    if playlist_text(parse_playlist(text)) == text {
        lemma_round_trip_only(text);
        assert(is_canonical(parse_playlist(text)) && playlist_text(parse_playlist(text)) == text);
    }
    if exists|entries: Seq<EntryView>|
        is_canonical(entries) && #[trigger] playlist_text(entries) == text {
        let entries = choose|entries: Seq<EntryView>|
            is_canonical(entries) && #[trigger] playlist_text(entries) == text;
        lemma_round_trip(text, entries);
    }
}

} // verus!
