use extm3u::{Entry, Playlist, VlcOptions};

fn entry(title: Option<&str>, url: &str, time: Option<i32>, options: &[(&str, &str)]) -> Entry {
    let mut vlc_opt = VlcOptions::new();
    for (k, v) in options {
        vlc_opt.insert(k.to_string(), v.to_string());
    }
    Entry { title: title.map(|t| t.to_owned()), url: url.to_owned(), time, vlc_opt }
}

#[test]
fn title_and_duration_make_an_info_line() {
    let e = entry(Some("Song"), "song.mp3", Some(215), &[]);
    assert_eq!(e.to_string(), "#EXTINF:215,Song\nsong.mp3");
}

#[test]
fn empty_title_with_duration_has_no_comma() {
    let e = entry(Some(""), "song.mp3", Some(215), &[]);
    assert_eq!(e.to_string(), "#EXTINF:215\nsong.mp3");
}

#[test]
fn empty_title_with_duration_zero() {
    let e = entry(Some(""), "abc", Some(0), &[]);
    assert_eq!(e.to_string(), "#EXTINF:0\nabc");
}

#[test]
fn title_without_duration_is_written_with_zero() {
    let e = entry(Some("Song"), "song.mp3", None, &[]);
    assert_eq!(e.to_string(), "#EXTINF:0,Song\nsong.mp3");
}

#[test]
fn duration_without_title_is_the_tag_alone() {
    let e = entry(None, "song.mp3", Some(42), &[]);
    assert_eq!(e.to_string(), "#EXTINF:42");
}

#[test]
fn duration_without_title_drops_options_too() {
    let e = entry(None, "song.mp3", Some(42), &[("a", "1")]);
    assert_eq!(e.to_string(), "#EXTINF:42");
}

#[test]
fn negative_duration_without_title() {
    let e = entry(None, "live", Some(-1), &[]);
    assert_eq!(e.to_string(), "#EXTINF:-1");
}

#[test]
fn extreme_durations() {
    assert_eq!(entry(None, "", Some(i32::MIN), &[]).to_string(), "#EXTINF:-2147483648");
    assert_eq!(entry(None, "", Some(i32::MAX), &[]).to_string(), "#EXTINF:2147483647");
    assert_eq!(entry(Some("t"), "u", Some(i32::MIN), &[]).to_string(), "#EXTINF:-2147483648,t\nu");
    assert_eq!(entry(Some("t"), "u", Some(1000), &[]).to_string(), "#EXTINF:1000,t\nu");
    assert_eq!(entry(Some("t"), "u", Some(-10), &[]).to_string(), "#EXTINF:-10,t\nu");
}

#[test]
fn bare_entry_is_its_location() {
    let e = entry(None, "http://example.org/a.ogg", None, &[]);
    assert_eq!(e.to_string(), "http://example.org/a.ogg");
}

#[test]
fn default_entry_is_empty_text() {
    let e = Entry::default();
    assert!(e.title.is_none());
    assert!(e.time.is_none());
    assert_eq!(e.url, "");
    assert!(e.vlc_opt.is_empty());
    assert_eq!(e.to_string(), "");
}

#[test]
fn options_stand_between_info_line_and_location() {
    let e = entry(Some("T"), "u.webm", Some(-1), &[("sub-file", "u.en"), ("subsdec-encoding", "UTF-8")]);
    assert_eq!(
        e.to_string(),
        "#EXTINF:-1,T\n#EXTVLCOPT:sub-file=u.en\n#EXTVLCOPT:subsdec-encoding=UTF-8\nu.webm"
    );
}

#[test]
fn options_without_info_line_stand_before_location() {
    let e = entry(None, "u.webm", None, &[("a", "1"), ("b", "")]);
    assert_eq!(e.to_string(), "#EXTVLCOPT:a=1\n#EXTVLCOPT:b=\nu.webm");
}

#[test]
fn options_keep_the_order_of_insertion() {
    let e = entry(Some(""), "u", None, &[("z", "1"), ("a", "2"), ("m", "3")]);
    assert_eq!(e.to_string(), "#EXTINF:0\n#EXTVLCOPT:z=1\n#EXTVLCOPT:a=2\n#EXTVLCOPT:m=3\nu");
}

#[test]
fn non_ascii_text_is_kept() {
    let e = entry(Some("Dawid Podsiadło — ｜"), "./ｘ.webm", Some(3), &[("k：", "—")]);
    assert_eq!(e.to_string(), "#EXTINF:3,Dawid Podsiadło — ｜\n#EXTVLCOPT:k：=—\n./ｘ.webm");
}

#[test]
fn empty_playlist_is_the_header_and_a_line_break() {
    let p = Playlist { list: vec![] };
    assert_eq!(p.to_string(), "#EXTM3U\n");
}

#[test]
fn playlist_joins_blocks_without_trailing_line_break() {
    let p = Playlist {
        list: vec![
            entry(Some("A"), "a.mp3", Some(1), &[]),
            entry(None, "b.mp3", None, &[]),
            entry(None, "c.mp3", Some(9), &[]),
            entry(Some(""), "d.mp3", None, &[("k", "v")]),
        ],
    };
    assert_eq!(
        p.to_string(),
        "#EXTM3U\n#EXTINF:1,A\na.mp3\nb.mp3\n#EXTINF:9\n#EXTINF:0\n#EXTVLCOPT:k=v\nd.mp3"
    );
}

#[test]
fn playlist_of_one_entry() {
    let p = Playlist { list: vec![entry(None, "only", None, &[])] };
    assert_eq!(p.to_string(), "#EXTM3U\nonly");
}

#[test]
fn clones_have_the_same_text() {
    let e = entry(Some("T"), "u", Some(5), &[("a", "1"), ("b", "2")]);
    let c = e.clone();
    assert_eq!(c.title, e.title);
    assert_eq!(c.url, e.url);
    assert_eq!(c.time, e.time);
    assert_eq!(c.vlc_opt.entries(), e.vlc_opt.entries());
    assert_eq!(c.to_string(), e.to_string());
    let p = Playlist { list: vec![e, entry(None, "x", None, &[])] };
    let q = p.clone();
    assert_eq!(q.list.len(), 2);
    assert_eq!(q.to_string(), p.to_string());
    assert_eq!(q.to_string(), "#EXTM3U\n#EXTINF:5,T\n#EXTVLCOPT:a=1\n#EXTVLCOPT:b=2\nu\nx");
}
