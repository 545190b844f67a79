use extm3u::{Entry, Playlist};

#[test]
pub fn base() {
    let s = r#"
#EXTM3U
#EXTINF:419,Alice in Chains - Rotten Apple
Alice in Chains_Jar of Flies_01_Rotten Apple.mp3
#EXTINF:260,Alice in Chains - Nutshell
Alice in Chains_Jar of Flies_02_Nutshell.mp3
"#
    .trim();

    let playlist = Playlist::from(s);

    assert_eq!(playlist.list.len(), 2);
    assert_eq!(playlist.to_string(), s);
}

#[test]
pub fn sub() {
    let s = r#"
#EXTM3U
#EXTINF:-1,Abenobashi ED - Anata No Kokoro Ni (In Your Heart)
#EXTVLCOPT:sub-file=./Cyberpunk： Edgerunners — Ending Theme ｜ Let You Down by Dawid Podsiadło ｜ Netflix [BnnbP7pCIvQ].en
#EXTVLCOPT:subsdec-encoding=UTF-8
./Cyberpunk： Edgerunners — Ending Theme ｜ Let You Down by Dawid Podsiadło ｜ Netflix [BnnbP7pCIvQ].webm
"#
    .trim();

    let playlist = Playlist::from(s);

    assert_eq!(playlist.list.len(), 1);
    assert_eq!(playlist.to_string(), s);
}

#[test]
pub fn test_empty_title() {
    let e = Entry {
        title: Some("".to_owned()),
        url: "abc".to_owned(),
        time: None,
        vlc_opt: Default::default(),
    };

    let s = e.to_string();
    assert_eq!(s, "#EXTINF:0\nabc")
}
