//! One item of a playlist and the block of lines that stands for it.

use vstd::prelude::*;
use vstd::string::StringExecFns;
use crate::number::{decimal, push_decimal};
use crate::options::{pairs, VlcOptions};
use crate::text::{join, newline, terminated};
use crate::text_lemmas::lemma_join_push;

verus! {

/// The tag that begins the line with an entry's duration and title.
pub open spec fn extinf() -> Seq<char> {
    "#EXTINF"@
}

/// The tag that begins a line with one option of an entry.
pub open spec fn extvlcopt() -> Seq<char> {
    "#EXTVLCOPT"@
}

/// What an entry holds, as plain values.
pub struct EntryView {
    pub title: Option<Seq<char>>,
    pub url: Seq<char>,
    pub time: Option<i32>,
    pub options: Seq<(Seq<char>, Seq<char>)>,
}

/// The entry with nothing set: no title, no duration, no option, an empty
/// location.
pub open spec fn blank() -> EntryView {
    EntryView { title: None, url: Seq::empty(), time: None, options: Seq::empty() }
}

/// The line with duration and title. An empty title is left out, and the
/// comma with it.
pub open spec fn info_line(time: int, title: Seq<char>) -> Seq<char> {
    if title.len() == 0 {
        extinf() + seq![':'] + decimal(time)
    } else {
        extinf() + seq![':'] + decimal(time) + seq![','] + title
    }
}

/// The line of one option.
pub open spec fn option_line(key: Seq<char>, value: Seq<char>) -> Seq<char> {
    extvlcopt() + seq![':'] + key + seq!['='] + value
}

/// One line for each option, in order.
pub open spec fn option_lines(opts: Seq<(Seq<char>, Seq<char>)>) -> Seq<Seq<char>> {
    Seq::new(opts.len(), |i: int| option_line(opts[i].0, opts[i].1))
}

/// The lines of an entry's block.
///
/// With a title, the info line comes first, with duration 0 where none is
/// set; then the option lines; then the location. With neither title nor
/// duration there is no info line. With a duration and no title the block is
/// the info line alone, without options and location.
pub open spec fn entry_lines(e: EntryView) -> Seq<Seq<char>> {
    match (e.time, e.title) {
        (Some(d), Some(t)) => seq![info_line(d as int, t)] + option_lines(e.options).push(e.url),
        (None, Some(t)) => seq![info_line(0, t)] + option_lines(e.options).push(e.url),
        (Some(d), None) => seq![info_line(d as int, Seq::empty())],
        (None, None) => option_lines(e.options).push(e.url),
    }
}

/// The text of an entry: its lines with a line break between each two.
pub open spec fn entry_text(e: EntryView) -> Seq<char> {
    join(entry_lines(e), newline())
}

/// One playable item of a playlist.
#[derive(Debug)]
pub struct Entry {
    /// The label; an empty label is not the same as none.
    pub title: Option<String>,
    /// The location of the item.
    pub url: String,
    /// The duration in seconds; it may be negative.
    pub time: Option<i32>,
    /// The player's options for this item.
    pub vlc_opt: VlcOptions,
}

impl View for Entry {
    type V = EntryView;

    open spec fn view(&self) -> EntryView {
        EntryView {
            title: match self.title {
                Some(t) => Some(t@),
                None => None,
            },
            url: self.url@,
            time: self.time,
            options: self.vlc_opt@,
        }
    }
}

impl Default for Entry {
    fn default() -> (r: Self)
        ensures
            r@ == blank(),
    {
        Entry { title: None, url: String::new(), time: None, vlc_opt: VlcOptions::new() }
    }
}

impl Clone for Entry {
    fn clone(&self) -> (r: Self)
        ensures
            r@ == self@,
    {
        let title = match &self.title {
            Some(t) => Some(t.clone()),
            None => None,
        };
        Entry { title, url: self.url.clone(), time: self.time, vlc_opt: self.vlc_opt.clone() }
    }
}

/// Appends the info line for `time` and `title` to `out`.
fn push_info_line(out: &mut String, time: i32, title: &str)
    ensures
        final(out)@ == old(out)@ + info_line(time as int, title@),
{
    out.append("#EXTINF");
    out.push(':');
    push_decimal(out, time);
    if !title.is_empty() {
        out.push(',');
        out.append(title);
    }
    assert(out@ =~= old(out)@ + info_line(time as int, title@));
}

/// Appends the line of one option to `out`, and a line break.
fn push_option_line(out: &mut String, key: &str, value: &str)
    ensures
        final(out)@ == old(out)@ + option_line(key@, value@) + newline(),
{
    out.append("#EXTVLCOPT");
    out.push(':');
    out.append(key);
    out.push('=');
    out.append(value);
    out.push('\n');
    assert(out@ =~= old(out)@ + option_line(key@, value@) + newline());
}

impl Entry {
    /// The text of the entry.
    pub fn to_string(&self) -> (text: String)
        ensures
            text@ == entry_text(self@),
    {
        let mut out = String::new();
        let ghost head: Seq<Seq<char>>;
        match (&self.time, &self.title) {
            (Some(d), None) => {
                push_info_line(&mut out, *d, "");
                proof {
                    reveal_strlit("");
                    assert(""@ =~= Seq::<char>::empty());
                    assert(entry_lines(self@).len() == 1);
                }
                return out;
            },
            (None, None) => {
                proof {
                    head = Seq::empty();
                }
            },
            (Some(d), Some(t)) => {
                push_info_line(&mut out, *d, t.as_str());
                out.push('\n');
                proof {
                    head = seq![info_line(*d as int, t@)];
                }
            },
            (None, Some(t)) => {
                push_info_line(&mut out, 0, t.as_str());
                out.push('\n');
                proof {
                    head = seq![info_line(0, t@)];
                }
            },
        }
        let ghost lines = option_lines(self@.options);
        proof {
            assert(head.len() <= 1);
            if head.len() == 1 {
                assert(head.drop_last() =~= Seq::<Seq<char>>::empty());
                assert(terminated(head.drop_last(), newline()) =~= Seq::<char>::empty());
                assert(terminated(head, newline()) =~= head[0] + newline());
            }
            assert(out@ =~= terminated(head, newline()));
            assert(head + lines.take(0) =~= head);
        }
        let opts = self.vlc_opt.entries();
        let mut i: usize = 0;
        while i < opts.len()
            invariant
                i <= opts.len(),
                pairs(opts@) == self@.options,
                lines == option_lines(self@.options),
                out@ == terminated(head + lines.take(i as int), newline()),
            decreases opts.len() - i,
        {
            push_option_line(&mut out, opts[i].0.as_str(), opts[i].1.as_str());
            proof {
                let now = head + lines.take(i + 1);
                assert(now.drop_last() =~= head + lines.take(i as int));
                assert(now.last() == option_line(opts@[i as int].0@, opts@[i as int].1@));
            }
            i += 1;
        }
        out.append(self.url.as_str());
        proof {
            assert(lines.take(i as int) =~= lines);
            lemma_join_push(head + lines, self@.url, newline());
            assert((head + lines).push(self@.url) =~= entry_lines(self@));
        }
        out
    }
}

} // verus!
