use extm3u::{Entry, Playlist};

fn options_of(e: &Entry) -> Vec<(String, String)> {
    e.vlc_opt.entries().clone()
}

fn pair(k: &str, v: &str) -> (String, String) {
    (k.to_owned(), v.to_owned())
}

#[test]
fn empty_text_is_an_empty_playlist() {
    assert_eq!(Playlist::from("").list.len(), 0);
}

#[test]
fn header_alone_is_an_empty_playlist() {
    assert_eq!(Playlist::from("#EXTM3U").list.len(), 0);
    assert_eq!(Playlist::from("#EXTM3U\n").list.len(), 0);
    assert_eq!(Playlist::from("#EXTM3U\r\n").list.len(), 0);
}

#[test]
fn plain_list_has_one_entry_per_line() {
    let p = Playlist::from("a.mp3\nb.mp3\nc.mp3");
    assert_eq!(p.list.len(), 3);
    let urls: Vec<&str> = p.list.iter().map(|e| e.url.as_str()).collect();
    assert_eq!(urls, vec!["a.mp3", "b.mp3", "c.mp3"]);
    for e in &p.list {
        assert!(e.title.is_none());
        assert!(e.time.is_none());
        assert!(e.vlc_opt.is_empty());
    }
}

#[test]
fn plain_list_keeps_empty_lines_and_spaces() {
    let p = Playlist::from("  a  \n\n#EXTINF:1,x\nb\n");
    let urls: Vec<&str> = p.list.iter().map(|e| e.url.as_str()).collect();
    assert_eq!(urls, vec!["  a  ", "", "#EXTINF:1,x", "b"]);
    assert!(p.list[2].title.is_none());
    assert!(p.list[2].time.is_none());
}

#[test]
fn plain_list_of_one_line_feed_has_one_empty_entry() {
    let p = Playlist::from("\n");
    assert_eq!(p.list.len(), 1);
    assert_eq!(p.list[0].url, "");
}

#[test]
fn header_must_be_the_whole_first_line() {
    let p = Playlist::from("#EXTM3U \n#EXTINF:1,x\nb");
    assert_eq!(p.list.len(), 3);
    assert_eq!(p.list[0].url, "#EXTM3U ");
    let q = Playlist::from(" #EXTM3U\nb");
    assert_eq!(q.list.len(), 2);
    let r = Playlist::from("#extm3u\nb");
    assert_eq!(r.list.len(), 2);
    let s = Playlist::from("\n#EXTM3U\nb");
    assert_eq!(s.list.len(), 3);
}

#[test]
fn header_before_carriage_return_and_line_feed() {
    let p = Playlist::from("#EXTM3U\r\n#EXTINF:12,Title\r\nfile.mp3\r\n");
    assert_eq!(p.list.len(), 1);
    assert_eq!(p.list[0].title.as_deref(), Some("Title"));
    assert_eq!(p.list[0].time, Some(12));
    assert_eq!(p.list[0].url, "file.mp3");
}

#[test]
fn options_are_kept_and_written_back() {
    let s = "#EXTM3U\n#EXTINF:-1,Title\n#EXTVLCOPT:sub-file=./path.en\n#EXTVLCOPT:subsdec-encoding=UTF-8\n./path.webm";
    let p = Playlist::from(s);
    assert_eq!(p.list.len(), 1);
    let e = &p.list[0];
    assert_eq!(e.time, Some(-1));
    assert_eq!(e.title.as_deref(), Some("Title"));
    assert_eq!(e.url, "./path.webm");
    assert_eq!(e.vlc_opt.len(), 2);
    assert_eq!(e.vlc_opt.get("sub-file"), Some(&"./path.en".to_owned()));
    assert_eq!(e.vlc_opt.get("subsdec-encoding"), Some(&"UTF-8".to_owned()));
    assert_eq!(options_of(e), vec![pair("sub-file", "./path.en"), pair("subsdec-encoding", "UTF-8")]);
    assert_eq!(p.to_string(), s);
}

#[test]
fn dangling_info_line_gives_no_entry() {
    let p = Playlist::from("#EXTM3U\n#EXTINF:1,a\na.mp3\n#EXTINF:2,b");
    assert_eq!(p.list.len(), 1);
    assert_eq!(p.list[0].url, "a.mp3");
    let q = Playlist::from("#EXTM3U\n#EXTINF:2,b\n#EXTVLCOPT:k=v\n");
    assert_eq!(q.list.len(), 0);
}

#[test]
fn two_entries_are_read_in_order() {
    let s = "#EXTM3U\n#EXTINF:419,Alice in Chains - Rotten Apple\nAlice in Chains_Jar of Flies_01_Rotten Apple.mp3\n#EXTINF:260,Alice in Chains - Nutshell\nAlice in Chains_Jar of Flies_02_Nutshell.mp3";
    let p = Playlist::from(s);
    assert_eq!(p.list.len(), 2);
    assert_eq!(p.list[0].time, Some(419));
    assert_eq!(p.list[0].title.as_deref(), Some("Alice in Chains - Rotten Apple"));
    assert_eq!(p.list[0].url, "Alice in Chains_Jar of Flies_01_Rotten Apple.mp3");
    assert_eq!(p.list[1].time, Some(260));
    assert_eq!(p.list[1].title.as_deref(), Some("Alice in Chains - Nutshell"));
    assert_eq!(p.list[1].url, "Alice in Chains_Jar of Flies_02_Nutshell.mp3");
    assert_eq!(p.to_string(), s);
}

#[test]
fn info_line_without_comma_is_ignored() {
    let p = Playlist::from("#EXTM3U\n#EXTINF:5\nabc");
    assert_eq!(p.list.len(), 1);
    assert_eq!(p.list[0].time, None);
    assert_eq!(p.list[0].title, None);
    assert_eq!(p.list[0].url, "abc");
    assert_eq!(p.to_string(), "#EXTM3U\nabc");
}

#[test]
fn info_line_without_colon_is_ignored() {
    let p = Playlist::from("#EXTM3U\n#EXTINF 5,Title\n#EXTINF\nabc");
    assert_eq!(p.list.len(), 1);
    assert_eq!(p.list[0].time, None);
    assert_eq!(p.list[0].title, None);
}

#[test]
fn empty_title_after_comma_is_present() {
    let p = Playlist::from("#EXTM3U\n#EXTINF:5,\nabc");
    assert_eq!(p.list[0].time, Some(5));
    assert_eq!(p.list[0].title.as_deref(), Some(""));
    assert_eq!(p.to_string(), "#EXTM3U\n#EXTINF:5\nabc");
}

#[test]
fn title_is_all_after_the_first_comma() {
    let p = Playlist::from("#EXTM3U\n#EXTINF:5, a, b: c ,\nabc");
    assert_eq!(p.list[0].title.as_deref(), Some(" a, b: c ,"));
    assert_eq!(p.list[0].time, Some(5));
}

#[test]
fn unreadable_duration_is_zero() {
    for (text, want) in [
        ("", 0),
        ("abc", 0),
        (" 5", 0),
        ("5 ", 0),
        ("5.0", 0),
        ("-", 0),
        ("+", 0),
        ("--5", 0),
        ("2147483648", 0),
        ("-2147483649", 0),
        ("99999999999999999999999999", 0),
        ("2147483647", 2147483647),
        ("-2147483648", -2147483648),
        ("+7", 7),
        ("007", 7),
        ("-0", 0),
        ("0000000000000000000000012", 12),
        ("١٢", 0),
    ] {
        let doc = format!("#EXTM3U\n#EXTINF:{},t\nu", text);
        let p = Playlist::from(doc.as_str());
        assert_eq!(p.list.len(), 1);
        assert_eq!(p.list[0].time, Some(want), "duration text {:?}", text);
        assert_eq!(p.list[0].title.as_deref(), Some("t"));
    }
}

#[test]
fn comma_before_colon_gives_duration_zero() {
    let p = Playlist::from("#EXTM3U\n#EXTINF,12:x\nu");
    assert_eq!(p.list.len(), 1);
    assert_eq!(p.list[0].time, Some(0));
    assert_eq!(p.list[0].title.as_deref(), Some("12:x"));
}

#[test]
fn tag_prefix_is_enough_for_an_info_line() {
    let p = Playlist::from("#EXTINFO\n#EXTM3U");
    assert_eq!(p.list.len(), 2);
    let q = Playlist::from("#EXTM3U\n#EXTINFXYZ:3,t\nu");
    assert_eq!(q.list.len(), 1);
    assert_eq!(q.list[0].time, Some(3));
    assert_eq!(q.list[0].title.as_deref(), Some("t"));
    assert_eq!(q.to_string(), "#EXTM3U\n#EXTINF:3,t\nu");
}

#[test]
fn later_info_line_replaces_the_earlier() {
    let p = Playlist::from("#EXTM3U\n#EXTINF:1,a\n#EXTINF:2,b\nu");
    assert_eq!(p.list.len(), 1);
    assert_eq!(p.list[0].time, Some(2));
    assert_eq!(p.list[0].title.as_deref(), Some("b"));
}

#[test]
fn option_value_is_all_after_the_first_equals_sign() {
    let p = Playlist::from("#EXTM3U\n#EXTVLCOPT:a=b=c\n#EXTVLCOPT:e=\n#EXTVLCOPT:=f\nu");
    assert_eq!(p.list.len(), 1);
    assert_eq!(options_of(&p.list[0]), vec![pair("a", "b=c"), pair("e", ""), pair("", "f")]);
    assert_eq!(p.list[0].title, None);
    assert_eq!(p.to_string(), "#EXTM3U\n#EXTVLCOPT:a=b=c\n#EXTVLCOPT:e=\n#EXTVLCOPT:=f\nu");
}

#[test]
fn option_line_without_markers_is_ignored() {
    let p = Playlist::from("#EXTM3U\n#EXTVLCOPT:novalue\n#EXTVLCOPT key=value\n#EXTVLCOPT\nu");
    assert_eq!(p.list.len(), 1);
    assert!(p.list[0].vlc_opt.is_empty());
}

#[test]
fn equals_sign_before_colon_gives_an_empty_key() {
    let p = Playlist::from("#EXTM3U\n#EXTVLCOPT=a:b\nu");
    assert_eq!(options_of(&p.list[0]), vec![pair("", "a:b")]);
}

#[test]
fn repeated_key_keeps_its_place_and_takes_the_new_value() {
    let p = Playlist::from("#EXTM3U\n#EXTVLCOPT:a=1\n#EXTVLCOPT:b=2\n#EXTVLCOPT:a=3\nu");
    assert_eq!(options_of(&p.list[0]), vec![pair("a", "3"), pair("b", "2")]);
}

#[test]
fn options_belong_to_the_next_location_only() {
    let p = Playlist::from("#EXTM3U\n#EXTINF:1,a\n#EXTVLCOPT:k=v\nfirst\nsecond");
    assert_eq!(p.list.len(), 2);
    assert_eq!(p.list[0].vlc_opt.len(), 1);
    assert_eq!(p.list[1].vlc_opt.len(), 0);
    assert_eq!(p.list[1].title, None);
    assert_eq!(p.list[1].time, None);
    assert_eq!(p.list[1].url, "second");
}

#[test]
fn location_is_trimmed() {
    let p = Playlist::from("#EXTM3U\n \t a b \u{3000}\u{a0}\n\u{2003}x\u{85}\n\u{200b}y\u{200b}");
    let urls: Vec<&str> = p.list.iter().map(|e| e.url.as_str()).collect();
    assert_eq!(urls, vec!["a b", "x", "\u{200b}y\u{200b}"]);
}

#[test]
fn empty_line_after_header_gives_no_entry() {
    let p = Playlist::from("#EXTM3U\n\nabc");
    assert_eq!(p.list.len(), 1);
    assert_eq!(p.list[0].url, "abc");
    assert_eq!(p.list[0].title, None);
    assert_eq!(p.list[0].time, None);
    assert!(p.list[0].vlc_opt.is_empty());
}

#[test]
fn empty_lines_change_nothing() {
    let p = Playlist::from("#EXTM3U\n\n#EXTINF:7,t\n\r\n#EXTVLCOPT:k=v\n\n\nx\n\ny\n\n");
    assert_eq!(p.list.len(), 2);
    assert_eq!(p.list[0].title.as_deref(), Some("t"));
    assert_eq!(p.list[0].time, Some(7));
    assert_eq!(options_of(&p.list[0]), vec![pair("k", "v")]);
    assert_eq!(p.list[0].url, "x");
    assert_eq!(p.list[1].title, None);
    assert_eq!(p.list[1].time, None);
    assert!(p.list[1].vlc_opt.is_empty());
    assert_eq!(p.list[1].url, "y");
    assert_eq!(Playlist::from("#EXTM3U\n\n\n\n").list.len(), 0);
}

#[test]
fn line_of_white_space_is_a_location() {
    let p = Playlist::from("#EXTM3U\n\n   \nx");
    let urls: Vec<&str> = p.list.iter().map(|e| e.url.as_str()).collect();
    assert_eq!(urls, vec!["", "x"]);
}

#[test]
fn document_with_empty_lines_is_not_written_back_as_it_was() {
    let s = "#EXTM3U\n\n\na";
    let p = Playlist::from(s);
    assert_eq!(p.list.len(), 1);
    assert_eq!(p.list[0].url, "a");
    assert_eq!(p.to_string(), "#EXTM3U\na");
    let mut e = Entry::default();
    e.title = Some("t".to_owned());
    e.time = Some(1);
    let q = Playlist { list: vec![e, Entry { url: "u".to_owned(), ..Entry::default() }] };
    assert_eq!(q.to_string(), "#EXTM3U\n#EXTINF:1,t\n\nu");
    let r = Playlist::from(q.to_string().as_str());
    assert_eq!(r.list.len(), 1);
    assert_eq!(r.list[0].title.as_deref(), Some("t"));
    assert_eq!(r.list[0].url, "u");
}

#[test]
fn unknown_tags_are_locations() {
    let p = Playlist::from("#EXTM3U\n#EXTGRP:rock\n#EXTINF:1,a\n# comment\nu");
    assert_eq!(p.list.len(), 3);
    assert_eq!(p.list[0].url, "#EXTGRP:rock");
    assert_eq!(p.list[0].title, None);
    assert_eq!(p.list[1].url, "# comment");
    assert_eq!(p.list[1].title.as_deref(), Some("a"));
    assert_eq!(p.list[1].time, Some(1));
    assert_eq!(p.list[2].url, "u");
    assert_eq!(p.list[2].title, None);
}

#[test]
fn second_header_is_a_location() {
    let p = Playlist::from("#EXTM3U\n#EXTM3U\n");
    assert_eq!(p.list.len(), 1);
    assert_eq!(p.list[0].url, "#EXTM3U");
}

#[test]
fn carriage_return_alone_is_no_line_break() {
    let p = Playlist::from("a\rb\nc\r");
    let urls: Vec<&str> = p.list.iter().map(|e| e.url.as_str()).collect();
    assert_eq!(urls, vec!["a\rb", "c\r"]);
    let q = Playlist::from("#EXTM3U\n#EXTINF:1,t\r\r\nu\r");
    assert_eq!(q.list.len(), 1);
    assert_eq!(q.list[0].title.as_deref(), Some("t\r"));
    assert_eq!(q.list[0].url, "u");
}

#[test]
fn canonical_playlists_round_trip() {
    for s in [
        "#EXTM3U\n",
        "#EXTM3U\na",
        "#EXTM3U\n#EXTINF:0,t\nu",
        "#EXTM3U\n#EXTINF:-2147483648,t,:=\n#EXTVLCOPT:k=v=w\n#EXTVLCOPT::=\n#ext\n#EXTVLCOPT:a=b\nhttp://x/y?z=1, 2",
        "#EXTM3U\n#EXTINF:12,Dawid Podsiadło\n#EXTVLCOPT:ｋ=ｖ\n./—.webm\nplain.mp3",
    ] {
        let p = Playlist::from(s);
        assert_eq!(p.to_string(), s);
        let again = Playlist::from(p.to_string().as_str());
        assert_eq!(again.to_string(), s);
        assert_eq!(again.list.len(), p.list.len());
    }
}

#[test]
fn title_without_duration_comes_back_with_zero() {
    let mut e = Entry::default();
    e.title = Some("t".to_owned());
    e.url = "u".to_owned();
    let p = Playlist { list: vec![e] };
    let text = p.to_string();
    assert_eq!(text, "#EXTM3U\n#EXTINF:0,t\nu");
    let q = Playlist::from(text.as_str());
    assert_eq!(q.list[0].time, Some(0));
    assert_eq!(q.list[0].title.as_deref(), Some("t"));
    assert_eq!(q.to_string(), text);
}

#[test]
fn duration_only_entry_does_not_come_back() {
    let mut e = Entry::default();
    e.time = Some(5);
    e.url = "x".to_owned();
    let p = Playlist { list: vec![e] };
    assert_eq!(p.to_string(), "#EXTM3U\n#EXTINF:5");
    let q = Playlist::from(p.to_string().as_str());
    assert_eq!(q.list.len(), 0);
    assert_eq!(q.to_string(), "#EXTM3U\n");
}
