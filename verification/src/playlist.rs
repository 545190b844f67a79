//! A playlist and its document: the header line `#EXTM3U`, then the blocks
//! of the entries. Reading goes line by line; a document without the header
//! is read as a plain list of locations.

use vstd::prelude::*;
use vstd::string::StringExecFns;
use crate::entry::{blank, entry_text, extinf, extvlcopt, Entry, EntryView};
use crate::number::{parse_i32, read_i32};
use crate::options::{put, VlcOptions};
use crate::text::{
    chars_of, find_char, first_index, join, lines, newline, split_lines, starts_with, string_of,
    trim, trim_bounds, views,
};

verus! {

/// The header line of an extended playlist.
pub open spec fn extm3u() -> Seq<char> {
    "#EXTM3U"@
}

/// The texts of the entries, in order.
pub open spec fn entry_texts(entries: Seq<EntryView>) -> Seq<Seq<char>> {
    entries.map_values(|e: EntryView| entry_text(e))
}

/// The text of a playlist: the header line, a line break, and the texts of
/// the entries with a line break between each two.
pub open spec fn playlist_text(entries: Seq<EntryView>) -> Seq<char> {
    extm3u() + newline() + join(entry_texts(entries), newline())
}

/// What lies between the markers at `a` and `b` of a line: the characters
/// after `a` and before `b`, none where `b` does not come after `a`.
pub open spec fn between(line: Seq<char>, a: int, b: int) -> Seq<char> {
    if a < b {
        line.subrange(a + 1, b)
    } else {
        Seq::empty()
    }
}

/// The duration that a text stands for: the number it denotes, and 0 where
/// it denotes none.
pub open spec fn duration_of(s: Seq<char>) -> i32 {
    match parse_i32(s) {
        Some(d) => d,
        None => 0,
    }
}

/// The entry after an info line. With a colon and a comma in the line, the
/// duration is read from between them and the title is all that follows the
/// comma; without both the line changes nothing.
pub open spec fn read_info(e: EntryView, line: Seq<char>) -> EntryView {
    match (first_index(line, ':'), first_index(line, ',')) {
        (Some(colon), Some(comma)) => EntryView {
            title: Some(line.skip(comma + 1)),
            url: e.url,
            time: Some(duration_of(between(line, colon, comma))),
            options: e.options,
        },
        _ => e,
    }
}

/// The entry after an option line. With a colon and an equals sign in the
/// line, the key lies between them and the value is all that follows the
/// equals sign; without both the line changes nothing.
pub open spec fn read_option(e: EntryView, line: Seq<char>) -> EntryView {
    match (first_index(line, ':'), first_index(line, '=')) {
        (Some(colon), Some(equals)) => EntryView {
            title: e.title,
            url: e.url,
            time: e.time,
            options: put(e.options, between(line, colon, equals), line.skip(equals + 1)),
        },
        _ => e,
    }
}

/// Whether a line begins with one of the two tags that the reader knows.
pub open spec fn is_tag_line(line: Seq<char>) -> bool {
    extinf().is_prefix_of(line) || extvlcopt().is_prefix_of(line)
}

/// Where reading stands: the entry in progress and the entries completed.
pub struct Scan {
    pub current: EntryView,
    pub done: Seq<EntryView>,
}

/// Whether a line is a location: it is not empty and begins with neither
/// of the two tags. Another tag, or white space alone, makes a location.
pub open spec fn is_location_line(line: Seq<char>) -> bool {
    line.len() > 0 && !is_tag_line(line)
}

/// Reading one line. A line that begins with the info tag and one that
/// begins with the option tag change the entry in progress. An empty line
/// changes nothing. Every other line is a location: it completes the entry,
/// which takes the trimmed line as its location, and a blank entry begins.
pub open spec fn step(s: Scan, line: Seq<char>) -> Scan {
    if extinf().is_prefix_of(line) {
        Scan { current: read_info(s.current, line), done: s.done }
    } else if extvlcopt().is_prefix_of(line) {
        Scan { current: read_option(s.current, line), done: s.done }
    } else if line.len() == 0 {
        s
    } else {
        Scan {
            current: blank(),
            done: s.done.push(
                EntryView {
                    title: s.current.title,
                    url: trim(line),
                    time: s.current.time,
                    options: s.current.options,
                },
            ),
        }
    }
}

/// Where reading begins: a blank entry in progress and nothing completed.
pub open spec fn start() -> Scan {
    Scan { current: blank(), done: Seq::empty() }
}

/// Reading the lines in order, from `s`.
pub open spec fn scan_from(s: Scan, ls: Seq<Seq<char>>) -> Scan
    decreases ls.len(),
{
    if ls.len() == 0 {
        s
    } else {
        step(scan_from(s, ls.drop_last()), ls.last())
    }
}

/// Reading the lines in order, from the beginning.
pub open spec fn scan(ls: Seq<Seq<char>>) -> Scan {
    scan_from(start(), ls)
}

/// The entry of a line of a plain list: the line is its location.
pub open spec fn bare_entry(line: Seq<char>) -> EntryView {
    EntryView { title: None, url: line, time: None, options: Seq::empty() }
}

/// The entries of a plain list: one for each line, in order.
pub open spec fn plain_entries(ls: Seq<Seq<char>>) -> Seq<EntryView> {
    ls.map_values(|line: Seq<char>| bare_entry(line))
}

/// The entries of a document. Without a line there is none. Where the first
/// line is not the header, every line, an empty one too, is the location of
/// one entry. After the header the lines are read in order, and the entries
/// completed are the result: an entry in progress at the end, which has no
/// location, is not among them.
pub open spec fn parse_playlist(text: Seq<char>) -> Seq<EntryView> {
    let ls = lines(text);
    if ls.len() == 0 {
        Seq::empty()
    } else if ls[0] != extm3u() {
        plain_entries(ls)
    } else {
        scan(ls.skip(1)).done
    }
}

/// The views of the entries of `v`.
pub open spec fn entry_views(v: Seq<Entry>) -> Seq<EntryView> {
    Seq::new(v.len(), |i: int| v[i]@)
}

/// The views of entries and one more are the views of the entries and the
/// view of that one.
proof fn lemma_entry_views_push(v: Seq<Entry>, e: Entry)
    ensures
        entry_views(v.push(e)) == entry_views(v).push(e@),
{
    assert(entry_views(v.push(e)) =~= entry_views(v).push(e@));
}

/// An ordered list of entries.
#[derive(Debug)]
pub struct Playlist {
    /// The entries, in the order in which they play.
    pub list: Vec<Entry>,
}

impl View for Playlist {
    type V = Seq<EntryView>;

    open spec fn view(&self) -> Seq<EntryView> {
        entry_views(self.list@)
    }
}

impl Clone for Playlist {
    fn clone(&self) -> (r: Self)
        ensures
            r@ == self@,
    {
        let mut list: Vec<Entry> = Vec::new();
        let mut i: usize = 0;
        while i < self.list.len()
            invariant
                i <= self.list.len(),
                list.len() == i,
                entry_views(list@) == entry_views(self.list@).take(i as int),
            decreases self.list.len() - i,
        {
            let e = self.list[i].clone();
            proof {
                lemma_entry_views_push(list@, e);
                assert(entry_views(self.list@).take(i as int).push(e@) =~= entry_views(
                    self.list@,
                ).take(i + 1));
            }
            list.push(e);
            i += 1;
        }
        assert(entry_views(self.list@).take(i as int) =~= entry_views(self.list@));
        Playlist { list }
    }
}

impl Playlist {
    /// The text of the playlist.
    pub fn to_string(&self) -> (text: String)
        ensures
            text@ == playlist_text(self@),
    {
        let mut out = String::new();
        out.append("#EXTM3U");
        out.push('\n');
        let ghost blocks = entry_texts(self@);
        let mut i: usize = 0;
        assert(blocks.take(0) =~= Seq::<Seq<char>>::empty());
        assert(out@ =~= extm3u() + newline() + join(blocks.take(0), newline()));
        while i < self.list.len()
            invariant
                i <= self.list.len(),
                blocks == entry_texts(self@),
                out@ == extm3u() + newline() + join(blocks.take(i as int), newline()),
            decreases self.list.len() - i,
        {
            if i > 0 {
                out.push('\n');
            }
            let block = self.list[i].to_string();
            out.append(block.as_str());
            proof {
                let now = blocks.take(i + 1);
                assert(now.drop_last() =~= blocks.take(i as int));
                assert(now.last() == block@);
                if i == 0 {
                    assert(join(now, newline()) =~= block@);
                } else {
                    assert(join(now, newline()) =~= join(blocks.take(i as int), newline())
                        + newline() + block@);
                }
                assert(out@ =~= extm3u() + newline() + join(now, newline()));
            }
            i += 1;
        }
        assert(blocks.take(i as int) =~= blocks);
        out
    }
}

/// Whether `a` and `b` hold the same characters.
fn same_chars(a: &Vec<char>, b: &Vec<char>) -> (r: bool)
    ensures
        r == (a@ == b@),
{
    proof {
        if a@.len() == b@.len() {
            assert(a@.subrange(0, b@.len() as int) =~= a@);
        }
    }
    a.len() == b.len() && starts_with(a, b)
}

/// The entry after the info line `line`.
fn apply_info(entry: &mut Entry, line: &Vec<char>)
    ensures
        final(entry)@ == read_info(old(entry)@, line@),
{
    match (find_char(line, ':'), find_char(line, ',')) {
        (Some(colon), Some(comma)) => {
            let time = if colon < comma {
                match read_i32(line, colon + 1, comma) {
                    Some(d) => d,
                    None => 0,
                }
            } else {
                proof {
                    assert(parse_i32(Seq::<char>::empty()) is None);
                }
                0
            };
            assert(line@.subrange(comma + 1, line@.len() as int) =~= line@.skip(comma + 1));
            entry.time = Some(time);
            entry.title = Some(string_of(line, comma + 1, line.len()));
        },
        _ => {},
    }
}

/// The entry after the option line `line`.
fn apply_option(entry: &mut Entry, line: &Vec<char>)
    ensures
        final(entry)@ == read_option(old(entry)@, line@),
{
    match (find_char(line, ':'), find_char(line, '=')) {
        (Some(colon), Some(equals)) => {
            let key = if colon < equals {
                string_of(line, colon + 1, equals)
            } else {
                String::new()
            };
            assert(line@.subrange(equals + 1, line@.len() as int) =~= line@.skip(equals + 1));
            let value = string_of(line, equals + 1, line.len());
            entry.vlc_opt.insert(key, value);
        },
        _ => {},
    }
}

/// The entries of a plain list with the lines `ls`.
fn read_plain(ls: &Vec<Vec<char>>) -> (list: Vec<Entry>)
    ensures
        entry_views(list@) == plain_entries(views(ls@)),
{
    let ghost all = plain_entries(views(ls@));
    let mut list: Vec<Entry> = Vec::new();
    let mut i: usize = 0;
    while i < ls.len()
        invariant
            i <= ls.len(),
            list.len() == i,
            all == plain_entries(views(ls@)),
            entry_views(list@) == all.take(i as int),
        decreases ls.len() - i,
    {
        let line = &ls[i];
        let e = Entry {
            title: None,
            url: string_of(line, 0, line.len()),
            time: None,
            vlc_opt: VlcOptions::new(),
        };
        proof {
            assert(line@.subrange(0, line@.len() as int) =~= line@);
            assert(e@ == bare_entry(line@));
            lemma_entry_views_push(list@, e);
            assert(all.take(i as int).push(e@) =~= all.take(i + 1));
        }
        list.push(e);
        i += 1;
    }
    assert(all.take(i as int) =~= all);
    list
}

/// The entries that reading the lines after the first completes.
fn read_tagged(ls: &Vec<Vec<char>>) -> (list: Vec<Entry>)
    requires
        ls.len() > 0,
    ensures
        entry_views(list@) == scan(views(ls@).skip(1)).done,
{
    let info_tag = chars_of("#EXTINF");
    let option_tag = chars_of("#EXTVLCOPT");
    let ghost rest = views(ls@).skip(1);
    let mut list: Vec<Entry> = Vec::new();
    let mut entry = Entry::default();
    let mut i: usize = 1;
    assert(rest.take(0) =~= Seq::<Seq<char>>::empty());
    assert(entry_views(list@) =~= Seq::<EntryView>::empty());
    while i < ls.len()
        invariant
            1 <= i <= ls.len(),
            rest == views(ls@).skip(1),
            info_tag@ == extinf(),
            option_tag@ == extvlcopt(),
            scan(rest.take(i - 1)) == (Scan { current: entry@, done: entry_views(list@) }),
        decreases ls.len() - i,
    {
        let line = &ls[i];
        proof {
            let now = rest.take(i as int);
            assert(now.drop_last() =~= rest.take(i - 1));
            assert(now.last() == line@);
        }
        if starts_with(line, &info_tag) {
            apply_info(&mut entry, line);
        } else if starts_with(line, &option_tag) {
            apply_option(&mut entry, line);
        } else if line.len() > 0 {
            let (a, b) = trim_bounds(line);
            entry.url = string_of(line, a, b);
            proof {
                lemma_entry_views_push(list@, entry);
            }
            list.push(entry);
            entry = Entry::default();
        }
        i += 1;
    }
    assert(rest.take(i - 1) =~= rest);
    list
}

impl<'a> From<&'a str> for Playlist {
    /// Reads a playlist document. Every text is read; nothing is refused.
    fn from(value: &'a str) -> (r: Playlist)
        ensures
            r@ == parse_playlist(value@),
    {
        let text = chars_of(value);
        let ls = split_lines(&text);
        if ls.len() == 0 {
            let list: Vec<Entry> = Vec::new();
            assert(entry_views(list@) =~= Seq::<EntryView>::empty());
            Playlist { list }
        } else if same_chars(&ls[0], &chars_of("#EXTM3U")) {
            Playlist { list: read_tagged(&ls) }
        } else {
            Playlist { list: read_plain(&ls) }
        }
    }
}

impl<'a> vstd::std_specs::convert::FromSpecImpl<&'a str> for Playlist {
    /// The result of `from` is stated by its own contract, over views.
    open spec fn obeys_from_spec() -> bool {
        false
    }

    open spec fn from_spec(v: &'a str) -> Playlist {
        arbitrary()
    }
}

} // verus!
