//! What reading makes of the lines of entries: the lemmas behind the laws
//! of reading and writing.

use vstd::prelude::*;
use crate::entry::{
    blank, entry_lines, extinf, extvlcopt, info_line, option_line, option_lines, EntryView,
};
use crate::laws::{is_read_entry, location_lines};
use crate::number::{decimal, is_digit, lemma_decimal_chars, lemma_parse_decimal};
use crate::options::{distinct_keys, lemma_position_none, lemma_put_distinct, position, put};
use crate::playlist::{
    between, entry_texts, extm3u, is_location_line, is_tag_line, parse_playlist, playlist_text,
    read_info, read_option, scan, scan_from, start, step, Scan,
};
use crate::round_trip::is_canonical_entry;
use crate::text::{
    first_index, has_no, is_line, is_space, join, lines, newline, strip_cr, stripped, trim,
    trim_start,
};
use crate::text_lemmas::{
    lemma_first_index_after, lemma_first_index_found, lemma_first_index_none, lemma_join_concat,
    lemma_lines_first, lemma_lines_of_joined, lemma_trim_end_is_prefix, lemma_trim_keeps_out,
    lemma_trim_twice,
};

verus! {

/// The characters of the three tags.
pub(crate) proof fn lemma_tags()
    ensures
        extm3u() =~= seq!['#', 'E', 'X', 'T', 'M', '3', 'U'],
        extinf() =~= seq!['#', 'E', 'X', 'T', 'I', 'N', 'F'],
        extvlcopt() =~= seq!['#', 'E', 'X', 'T', 'V', 'L', 'C', 'O', 'P', 'T'],
{
    reveal_strlit("#EXTM3U");
    reveal_strlit("#EXTINF");
    reveal_strlit("#EXTVLCOPT");
}

/// Reading a line with the info tag, a colon, a duration, a comma and a
/// title sets that duration and that title, be the title empty or not.
pub(crate) proof fn lemma_read_info_raw(e: EntryView, d: i32, t: Seq<char>)
    ensures
        extinf().is_prefix_of(extinf() + seq![':'] + decimal(d as int) + seq![','] + t),
        read_info(e, extinf() + seq![':'] + decimal(d as int) + seq![','] + t) == (EntryView {
            title: Some(t),
            url: e.url,
            time: Some(d),
            options: e.options,
        }),
{
    lemma_tags();
    lemma_decimal_chars(d as int);
    lemma_parse_decimal(d as int);
    let num = decimal(d as int);
    let line = extinf() + seq![':'] + num + seq![','] + t;
    assert(line =~= extinf() + seq![':'] + (num + seq![','] + t));
    lemma_first_index_after(extinf(), ':', num + seq![','] + t);
    let front = extinf() + seq![':'] + num;
    assert forall|i: int| 0 <= i < front.len() implies front[i] != ',' by {
        if i >= 8 {
            assert(front[i] == num[i - 8]);
            assert(is_digit(num[i - 8]) || num[i - 8] == '-');
        }
    }
    assert(line =~= front + seq![','] + t);
    lemma_first_index_after(front, ',', t);
    assert(between(line, 7, front.len() as int) =~= num);
    assert(line.skip(front.len() as int + 1) =~= t);
    assert(line.subrange(0, 7) =~= extinf());
}

/// An info line without a comma changes nothing.
pub(crate) proof fn lemma_read_info_bare(e: EntryView, d: i32)
    ensures
        read_info(e, info_line(d as int, Seq::empty())) == e,
        strip_cr(info_line(d as int, Seq::empty())) == info_line(d as int, Seq::empty()),
        extinf().is_prefix_of(info_line(d as int, Seq::empty())),
{
    lemma_tags();
    lemma_decimal_chars(d as int);
    let num = decimal(d as int);
    let line = info_line(d as int, Seq::empty());
    assert forall|i: int| 0 <= i < line.len() implies line[i] != ',' && (i == line.len() - 1
        ==> line[i] != '\r') by {
        if i >= 8 {
            assert(line[i] == num[i - 8]);
            assert(is_digit(num[i - 8]) || num[i - 8] == '-');
        }
    }
    lemma_first_index_none(line, ',');
    assert(line.subrange(0, 7) =~= extinf());
}

/// Reading the line of an option with a new key puts the option at the end.
pub(crate) proof fn lemma_read_option_line(e: EntryView, key: Seq<char>, value: Seq<char>)
    requires
        has_no(key, '='),
        position(e.options, key) is None,
    ensures
        !extinf().is_prefix_of(option_line(key, value)),
        extvlcopt().is_prefix_of(option_line(key, value)),
        read_option(e, option_line(key, value)) == (EntryView {
            title: e.title,
            url: e.url,
            time: e.time,
            options: e.options.push((key, value)),
        }),
{
    lemma_tags();
    let line = option_line(key, value);
    assert(line =~= extvlcopt() + seq![':'] + (key + seq!['='] + value));
    lemma_first_index_after(extvlcopt(), ':', key + seq!['='] + value);
    let front = extvlcopt() + seq![':'] + key;
    assert forall|i: int| 0 <= i < front.len() implies front[i] != '=' by {
        if i >= 11 {
            assert(front[i] == key[i - 11]);
        }
    }
    assert(line =~= front + seq!['='] + value);
    lemma_first_index_after(front, '=', value);
    assert(between(line, 10, front.len() as int) =~= key);
    assert(line.skip(front.len() as int + 1) =~= value);
    assert(line.subrange(0, 10) =~= extvlcopt());
    assert(line.subrange(0, 7)[4] == 'V');
}

/// An info line with its title, without a carriage return at its end, is
/// the info line of the title without one, comma included.
pub(crate) proof fn lemma_strip_info_line(d: i32, t: Seq<char>)
    requires
        t.len() > 0,
    ensures
        strip_cr(info_line(d as int, t)) == extinf() + seq![':'] + decimal(d as int) + seq![',']
            + strip_cr(t),
{
    let line = info_line(d as int, t);
    assert(line.last() == t.last());
    if t.last() == '\r' {
        assert(line.drop_last() =~= extinf() + seq![':'] + decimal(d as int) + seq![',']
            + t.drop_last());
    }
}

/// The line of an option, without a carriage return at its end, is the line
/// of the option with its value without one.
pub(crate) proof fn lemma_strip_option_line(key: Seq<char>, value: Seq<char>)
    ensures
        strip_cr(option_line(key, value)) == option_line(key, strip_cr(value)),
{
    let line = option_line(key, value);
    if value.len() > 0 {
        assert(line.last() == value.last());
        if value.last() == '\r' {
            assert(line.drop_last() =~= option_line(key, value.drop_last()));
        }
    } else {
        assert(line.last() == '=');
    }
}

/// A text that trimming leaves as it is does not end with white space.
pub(crate) proof fn lemma_trimmed_end(s: Seq<char>)
    requires
        trim(s) == s,
    ensures
        s.len() > 0 ==> !is_space(s.last()),
{
    lemma_trim_end_is_prefix(trim_start(s));
}

/// The options with each value without a carriage return at its end.
pub(crate) open spec fn stripped_values(opts: Seq<(Seq<char>, Seq<char>)>) -> Seq<
    (Seq<char>, Seq<char>),
> {
    opts.map_values(|o: (Seq<char>, Seq<char>)| (o.0, strip_cr(o.1)))
}

/// What is read from the lines of an entry that was read before: an empty
/// title is lost, and the duration with it; a carriage return at the end of
/// the title or of a value is lost.
pub(crate) open spec fn reread(e: EntryView) -> EntryView {
    EntryView {
        title: match e.title {
            Some(t) => if t.len() > 0 {
                Some(strip_cr(t))
            } else {
                None
            },
            None => None,
        },
        url: e.url,
        time: match e.title {
            Some(t) => if t.len() > 0 {
                e.time
            } else {
                None
            },
            None => None,
        },
        options: stripped_values(e.options),
    }
}

/// What is read again of each entry.
pub(crate) open spec fn reread_all(entries: Seq<EntryView>) -> Seq<EntryView> {
    entries.map_values(|e: EntryView| reread(e))
}

/// An entry that is read again as it was is canonical.
pub(crate) proof fn lemma_reread_same(e: EntryView)
    requires
        is_read_entry(e),
        is_location_line(e.url),
        reread(e) == e,
    ensures
        is_canonical_entry(e),
{
    assert forall|i: int| 0 <= i < e.options.len() implies is_line((#[trigger] e.options[i]).1) by {
        assert(stripped_values(e.options)[i].1 == strip_cr(e.options[i].1));
    }
}

/// Reading one run of lines after another is reading both in order.
pub(crate) proof fn lemma_scan_concat(s: Scan, a: Seq<Seq<char>>, b: Seq<Seq<char>>)
    ensures
        scan_from(s, a + b) == scan_from(scan_from(s, a), b),
    decreases b.len(),
{
    if b.len() == 0 {
        assert(a + b =~= a);
    } else {
        assert((a + b).drop_last() =~= a + b.drop_last());
        lemma_scan_concat(s, a, b.drop_last());
    }
}

/// Reading the lines of the first `m` options, from an entry without
/// options, gives the entry these options.
pub(crate) proof fn lemma_scan_options(s: Scan, opts: Seq<(Seq<char>, Seq<char>)>, m: int)
    requires
        0 <= m <= opts.len(),
        s.current.options.len() == 0,
        distinct_keys(opts),
        forall|i: int| 0 <= i < opts.len() ==> has_no((#[trigger] opts[i]).0, '='),
    ensures
        scan_from(s, option_lines(opts).take(m)) == (Scan {
            current: EntryView {
                title: s.current.title,
                url: s.current.url,
                time: s.current.time,
                options: opts.take(m),
            },
            done: s.done,
        }),
    decreases m,
{
    if m == 0 {
        assert(opts.take(0) =~= s.current.options);
    } else {
        lemma_scan_options(s, opts, m - 1);
        let before = scan_from(s, option_lines(opts).take(m - 1));
        assert(option_lines(opts).take(m).drop_last() =~= option_lines(opts).take(m - 1));
        let key = opts[m - 1].0;
        let value = opts[m - 1].1;
        assert(option_lines(opts).take(m).last() == option_line(key, value));
        let known = opts.take(m - 1);
        assert forall|j: int| 0 <= j < known.len() implies (#[trigger] known[j]).0 != key by {
            assert(opts[j].0 != opts[m - 1].0);
        }
        lemma_position_none(known, key);
        lemma_read_option_line(before.current, key, value);
        assert(opts.take(m - 1).push((key, value)) =~= opts.take(m));
    }
}

/// The lines of an entry that was read hold no line feed, the last of them
/// is the location, and all before it are tag lines, with or without a
/// carriage return at the end.
pub(crate) proof fn lemma_read_entry_lines(e: EntryView)
    requires
        is_read_entry(e),
    ensures
        entry_lines(e).len() > 0,
        entry_lines(e).last() == e.url,
        strip_cr(e.url) == e.url,
        forall|i: int| 0 <= i < entry_lines(e).len() ==> has_no(#[trigger] entry_lines(e)[i], '\n'),
        forall|i: int|
            0 <= i < entry_lines(e).len() - 1 ==> is_tag_line(
                strip_cr(#[trigger] entry_lines(e)[i]),
            ),
{
    lemma_tags();
    lemma_trimmed_end(e.url);
    let ls = entry_lines(e);
    let opts = option_lines(e.options);
    let skip: int = if e.title is Some {
        1
    } else {
        0
    };
    assert(ls.len() == skip + opts.len() + 1);
    assert forall|i: int| 0 <= i < ls.len() implies has_no(#[trigger] ls[i], '\n') && (i < ls.len()
        - 1 ==> is_tag_line(strip_cr(ls[i]))) by {
        if i < skip {
            let t = e.title->0;
            let d = e.time->0;
            lemma_decimal_chars(d as int);
            let num = decimal(d as int);
            let line = info_line(d as int, t);
            assert(ls[i] == line);
            assert forall|j: int| 0 <= j < line.len() implies line[j] != '\n' by {
                if 8 <= j < 8 + num.len() {
                    assert(line[j] == num[j - 8]);
                    assert(is_digit(num[j - 8]) || num[j - 8] == '-');
                } else if j > 8 + num.len() {
                    assert(line[j] == t[j - 9 - num.len()]);
                }
            }
            if t.len() > 0 {
                lemma_strip_info_line(d, t);
                assert(strip_cr(line).subrange(0, 7) =~= extinf());
            } else {
                lemma_read_info_bare(blank(), d);
            }
        } else if i < skip + opts.len() {
            let key = e.options[i - skip].0;
            let value = e.options[i - skip].1;
            let line = option_line(key, value);
            assert(ls[i] == opts[i - skip]);
            assert(has_no(e.options[i - skip].0, '\n'));
            assert forall|j: int| 0 <= j < line.len() implies line[j] != '\n' by {
                if 11 <= j < 11 + key.len() {
                    assert(line[j] == key[j - 11]);
                } else if j > 11 + key.len() {
                    assert(line[j] == value[j - 12 - key.len()]);
                }
            }
            lemma_strip_option_line(key, value);
            assert(strip_cr(line).subrange(0, 10) =~= extvlcopt());
        } else {
            assert(ls[i] == e.url);
        }
    }
}

/// Reading the lines of an entry that was read, each without a carriage
/// return at its end and the location a location line, with a blank entry
/// in progress, completes what is read again of that entry.
pub(crate) proof fn lemma_scan_read_entry(s: Scan, e: EntryView)
    requires
        s.current == blank(),
        is_read_entry(e),
        is_location_line(e.url),
    ensures
        scan_from(s, stripped(entry_lines(e))) == (Scan {
            current: blank(),
            done: s.done.push(reread(e)),
        }),
{
    lemma_read_entry_lines(e);
    let again = stripped_values(e.options);
    let opts = option_lines(again);
    assert(stripped(option_lines(e.options)) =~= opts) by {
        assert forall|i: int| 0 <= i < e.options.len() implies strip_cr(
            #[trigger] option_lines(e.options)[i],
        ) == opts[i] by {
            lemma_strip_option_line(e.options[i].0, e.options[i].1);
        }
    }
    let head: Seq<Seq<char>> = match e.title {
        Some(t) => seq![strip_cr(info_line(e.time->0 as int, t))],
        None => Seq::empty(),
    };
    assert(stripped(entry_lines(e)) =~= (head + opts).push(e.url));
    assert(stripped(entry_lines(e)).drop_last() =~= head + opts);
    lemma_scan_concat(s, head, opts);
    let after_head = scan_from(s, head);
    match e.title {
        Some(t) => {
            assert(head.drop_last() =~= Seq::<Seq<char>>::empty());
            assert(scan_from(s, head.drop_last()) == s);
            if t.len() > 0 {
                lemma_strip_info_line(e.time->0, t);
                lemma_read_info_raw(s.current, e.time->0, strip_cr(t));
            } else {
                lemma_read_info_bare(s.current, e.time->0);
            }
        },
        None => {},
    }
    assert(after_head.current.title == reread(e).title);
    assert(after_head.current.time == reread(e).time);
    assert(after_head.current.options.len() == 0);
    assert(after_head.done == s.done);
    assert(distinct_keys(again)) by {
        assert forall|i: int, j: int| 0 <= i < j < again.len() implies again[i].0
            != again[j].0 by {
            assert(e.options[i].0 != e.options[j].0);
        }
    }
    assert forall|i: int| 0 <= i < again.len() implies has_no((#[trigger] again[i]).0, '=') by {
        assert(has_no(e.options[i].0, '='));
    }
    lemma_scan_options(after_head, again, again.len() as int);
    assert(opts.take(again.len() as int) =~= opts);
    assert(again.take(again.len() as int) =~= again);
}

/// Reading the lines of a playlist of entries that were read, each without
/// a carriage return at its end and every location a location line, gives
/// what is read again of each entry.
pub(crate) proof fn lemma_scan_read_playlist(entries: Seq<EntryView>)
    requires
        forall|i: int|
            0 <= i < entries.len() ==> is_read_entry(#[trigger] entries[i])
                && is_location_line(entries[i].url),
    ensures
        scan(stripped(playlist_lines(entries))) == (Scan {
            current: blank(),
            done: reread_all(entries),
        }),
    decreases entries.len(),
{
    let again = reread_all(entries);
    if entries.len() == 0 {
        assert(again =~= Seq::<EntryView>::empty());
        assert(stripped(playlist_lines(entries)) =~= Seq::<Seq<char>>::empty());
    } else {
        let front = entries.drop_last();
        assert forall|i: int| 0 <= i < front.len() implies is_read_entry(#[trigger] front[i])
            && is_location_line(front[i].url) by {
            assert(front[i] == entries[i]);
        }
        lemma_scan_read_playlist(front);
        let a = playlist_lines(front);
        let b = entry_lines(entries.last());
        assert(stripped(a + b) =~= stripped(a) + stripped(b));
        lemma_scan_concat(start(), stripped(a), stripped(b));
        assert(is_read_entry(entries[entries.len() - 1]));
        lemma_scan_read_entry(scan(stripped(a)), entries.last());
        assert(reread_all(front).push(reread(entries.last())) =~= again);
    }
}

/// The lines of a playlist: those of its entries, in order.
pub open spec fn playlist_lines(entries: Seq<EntryView>) -> Seq<Seq<char>>
    decreases entries.len(),
{
    if entries.len() == 0 {
        Seq::empty()
    } else {
        playlist_lines(entries.drop_last()) + entry_lines(entries.last())
    }
}

/// The texts of the entries, joined, are the lines of the playlist, joined.
pub(crate) proof fn lemma_join_blocks(entries: Seq<EntryView>)
    ensures
        join(entry_texts(entries), newline()) == join(playlist_lines(entries), newline()),
        entries.len() > 0 ==> playlist_lines(entries).len() > 0,
    decreases entries.len(),
{
    let blocks = entry_texts(entries);
    if entries.len() == 0 {
    } else {
        let front = entries.drop_last();
        lemma_join_blocks(front);
        assert(blocks.drop_last() =~= entry_texts(front));
        assert(entry_lines(entries.last()).len() > 0);
        if front.len() == 0 {
            assert(playlist_lines(entries) =~= entry_lines(entries.last()));
        } else {
            lemma_join_concat(playlist_lines(front), entry_lines(entries.last()), newline());
        }
    }
}

/// Tag lines hold no location line.
pub(crate) proof fn lemma_no_location_among_tags(ls: Seq<Seq<char>>)
    requires
        forall|i: int| 0 <= i < ls.len() ==> is_tag_line(#[trigger] ls[i]),
    ensures
        location_lines(ls).len() == 0,
    decreases ls.len(),
{
    reveal(Seq::filter);
    if ls.len() > 0 {
        let front = ls.drop_last();
        assert forall|i: int| 0 <= i < front.len() implies is_tag_line(#[trigger] front[i]) by {
            assert(front[i] == ls[i]);
        }
        lemma_no_location_among_tags(front);
        assert(is_tag_line(ls[ls.len() - 1]));
    }
}

/// The location lines of two runs of lines are counted one after the other.
pub(crate) proof fn lemma_location_count_concat(a: Seq<Seq<char>>, b: Seq<Seq<char>>)
    ensures
        location_lines(a + b).len() == location_lines(a).len() + location_lines(b).len(),
    decreases b.len(),
{
    reveal(Seq::filter);
    if b.len() == 0 {
        assert(a + b =~= a);
    } else {
        assert((a + b).drop_last() =~= a + b.drop_last());
        lemma_location_count_concat(a, b.drop_last());
    }
}

/// Among the lines of an entry that was read, those that count as locations
/// are: the location, unless it is empty or begins with a tag.
pub(crate) proof fn lemma_entry_location_count(e: EntryView)
    requires
        is_read_entry(e),
    ensures
        location_lines(stripped(entry_lines(e))).len() == (if is_location_line(e.url) {
            1nat
        } else {
            0nat
        }),
{
    reveal(Seq::filter);
    lemma_read_entry_lines(e);
    let ls = stripped(entry_lines(e));
    let front = ls.drop_last();
    assert forall|i: int| 0 <= i < front.len() implies is_tag_line(#[trigger] front[i]) by {
        assert(front[i] == strip_cr(entry_lines(e)[i]));
    }
    lemma_no_location_among_tags(front);
    assert(ls.last() == e.url);
}

/// The lines of a playlist of entries that were read hold no line feed and
/// end with the last location, and they have at most one location line for
/// each entry: exactly one for each only where every location is a location
/// line.
pub(crate) proof fn lemma_read_playlist_lines(entries: Seq<EntryView>)
    requires
        forall|i: int| 0 <= i < entries.len() ==> is_read_entry(#[trigger] entries[i]),
    ensures
        forall|i: int|
            0 <= i < playlist_lines(entries).len() ==> has_no(
                #[trigger] playlist_lines(entries)[i],
                '\n',
            ),
        entries.len() > 0 ==> playlist_lines(entries).len() > 0 && playlist_lines(
            entries,
        ).last() == entries.last().url,
        location_lines(stripped(playlist_lines(entries))).len() <= entries.len(),
        location_lines(stripped(playlist_lines(entries))).len() == entries.len() ==> forall|
            i: int,
        |
            0 <= i < entries.len() ==> is_location_line((#[trigger] entries[i]).url),
    decreases entries.len(),
{
    reveal(Seq::filter);
    if entries.len() > 0 {
        let front = entries.drop_last();
        assert forall|i: int| 0 <= i < front.len() implies is_read_entry(#[trigger] front[i]) by {
            assert(front[i] == entries[i]);
        }
        lemma_read_playlist_lines(front);
        assert(is_read_entry(entries[entries.len() - 1]));
        lemma_read_entry_lines(entries.last());
        lemma_entry_location_count(entries.last());
        let a = playlist_lines(front);
        let b = entry_lines(entries.last());
        assert forall|i: int| 0 <= i < (a + b).len() implies has_no(
            #[trigger] (a + b)[i],
            '\n',
        ) by {
            if i < a.len() {
                assert((a + b)[i] == a[i]);
            } else {
                assert((a + b)[i] == b[i - a.len()]);
            }
        }
        assert(stripped(a + b) =~= stripped(a) + stripped(b));
        lemma_location_count_concat(stripped(a), stripped(b));
        if location_lines(stripped(a + b)).len() == entries.len() {
            assert forall|i: int| 0 <= i < entries.len() implies is_location_line(
                (#[trigger] entries[i]).url,
            ) by {
                if i < front.len() {
                    assert(is_location_line(front[i].url));
                }
            }
        }
    }
}

/// Whether the entry in progress and the entries completed are as entries
/// read are.
pub(crate) open spec fn is_read_scan(s: Scan) -> bool {
    &&& is_read_entry(s.current)
    &&& forall|i: int| 0 <= i < s.done.len() ==> is_read_entry(#[trigger] s.done[i])
}

/// Reading a line keeps what holds of entries read.
pub(crate) proof fn lemma_step_reads(s: Scan, line: Seq<char>)
    requires
        is_read_scan(s),
        has_no(line, '\n'),
    ensures
        is_read_scan(step(s, line)),
{
    let after = step(s, line);
    if extinf().is_prefix_of(line) {
    } else if extvlcopt().is_prefix_of(line) {
        lemma_first_index_found(line, ':');
        lemma_first_index_found(line, '=');
        match (first_index(line, ':'), first_index(line, '=')) {
            (Some(colon), Some(equals)) => {
                let key = between(line, colon, equals);
                let value = line.skip(equals + 1);
                let before = s.current.options;
                let now = put(before, key, value);
                lemma_put_distinct(before, key, value);
                assert(has_no(key, '=') && has_no(key, '\n'));
                assert(has_no(value, '\n'));
                assert forall|i: int| 0 <= i < now.len() implies has_no(
                    (#[trigger] now[i]).0,
                    '=',
                ) && has_no(now[i].0, '\n') && has_no(now[i].1, '\n') by {
                    if now[i] != (key, value) {
                        assert(now[i] == before[i]);
                    }
                }
            },
            _ => {},
        }
    } else if line.len() > 0 {
        lemma_trim_keeps_out(line, '\n');
        lemma_trim_twice(line);
        let e = after.done.last();
        assert(is_read_entry(e));
        assert(trim(Seq::<char>::empty()) == Seq::<char>::empty());
        assert forall|i: int| 0 <= i < after.done.len() implies is_read_entry(
            #[trigger] after.done[i],
        ) by {
            if i < s.done.len() {
                assert(after.done[i] == s.done[i]);
            }
        }
    }
}

/// Reading lines keeps what holds of entries read.
pub(crate) proof fn lemma_scan_reads(s: Scan, ls: Seq<Seq<char>>)
    requires
        is_read_scan(s),
        forall|i: int| 0 <= i < ls.len() ==> has_no(#[trigger] ls[i], '\n'),
    ensures
        is_read_scan(scan_from(s, ls)),
    decreases ls.len(),
{
    if ls.len() > 0 {
        let front = ls.drop_last();
        assert forall|i: int| 0 <= i < front.len() implies has_no(#[trigger] front[i], '\n') by {
            assert(front[i] == ls[i]);
        }
        lemma_scan_reads(s, front);
        assert(has_no(ls[ls.len() - 1], '\n'));
        lemma_step_reads(scan_from(s, front), ls.last());
    }
}

/// The lines of the text of a playlist: the header, and then what the lines
/// of the playlist, joined, are read as.
pub(crate) proof fn lemma_text_lines(entries: Seq<EntryView>)
    ensures
        lines(playlist_text(entries)) == seq![extm3u()] + lines(
            join(playlist_lines(entries), newline()),
        ),
        lines(playlist_text(entries)).skip(1) == lines(join(playlist_lines(entries), newline())),
{
    lemma_tags();
    lemma_join_blocks(entries);
    let body = join(playlist_lines(entries), newline());
    lemma_lines_first(extm3u(), body);
    assert(lines(playlist_text(entries)).skip(1) =~= lines(body));
}

/// The text of a playlist of entries that are as entries read are, with
/// every location a location line, is read as what is read again of each
/// entry.
pub(crate) proof fn lemma_parse_text_of_read(entries: Seq<EntryView>)
    requires
        forall|i: int|
            0 <= i < entries.len() ==> is_read_entry(#[trigger] entries[i])
                && is_location_line(entries[i].url),
    ensures
        parse_playlist(playlist_text(entries)) == reread_all(entries),
{
    lemma_tags();
    let all = playlist_lines(entries);
    let read = lines(join(all, newline()));
    lemma_text_lines(entries);
    lemma_read_playlist_lines(entries);
    if entries.len() > 0 {
        lemma_lines_of_joined(all);
        assert(is_read_entry(entries[entries.len() - 1]));
        lemma_read_entry_lines(entries.last());
        assert(read =~= stripped(all));
    } else {
        assert(read =~= stripped(all));
    }
    lemma_scan_read_playlist(entries);
}

} // verus!
