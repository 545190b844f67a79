use extm3u::number::{digit_of, push_decimal, push_digits, read_i32};
use extm3u::text::{
    chars_of, copy_range, find_char, is_space_char, push_chars, split_lines, starts_with,
    string_of, trim_bounds,
};

fn chars(s: &str) -> Vec<char> {
    s.chars().collect()
}

fn text(v: &[char]) -> String {
    v.iter().collect()
}

const SAMPLES: [&str; 24] = [
    "",
    "a",
    "\n",
    "\r",
    "\r\n",
    "\n\n",
    "a\n",
    "a\nb",
    "a\r\nb\r\n",
    "a\rb",
    "a\r",
    "a\r\r\n",
    "\r\r\n\r",
    "a\n\nb\n\n",
    "\n\r\n",
    " a b ",
    "\t\u{b}\u{c} x \u{85}\u{a0}",
    "\u{1680}\u{2000}\u{200a}y\u{2028}\u{2029}\u{202f}\u{205f}\u{3000}",
    "\u{200b}z\u{feff}",
    "   ",
    "#EXTINF:1,Dawid Podsiadło\n./ｘ.webm\n",
    "-12",
    "+12",
    "line one\r\nline two\nline three\r",
];

#[test]
fn chars_of_gives_every_character() {
    for s in SAMPLES {
        assert_eq!(chars_of(s), chars(s));
    }
}

#[test]
fn string_of_and_copy_range_take_the_range() {
    let v = chars("héllo wörld");
    assert_eq!(string_of(&v, 0, v.len()), "héllo wörld");
    assert_eq!(string_of(&v, 1, 5), "éllo");
    assert_eq!(string_of(&v, 4, 4), "");
    assert_eq!(string_of(&v, 11, 11), "");
    assert_eq!(copy_range(&v, 6, 11), chars("wörld"));
    assert_eq!(copy_range(&v, 0, 0), chars(""));
    let mut out = "=".to_owned();
    push_chars(&mut out, &v, 6, 8);
    assert_eq!(out, "=wö");
}

#[test]
fn split_lines_agrees_with_std() {
    for s in SAMPLES {
        let got: Vec<String> = split_lines(&chars(s)).iter().map(|l| text(l)).collect();
        let want: Vec<String> = s.lines().map(|l| l.to_owned()).collect();
        assert_eq!(got, want, "lines of {:?}", s);
    }
}

#[test]
fn split_lines_exact() {
    let got: Vec<String> = split_lines(&chars("a\r\n\nb\r\r\nc\r")).iter().map(|l| text(l)).collect();
    assert_eq!(got, vec!["a", "", "b\r", "c\r"]);
    assert_eq!(split_lines(&chars("")).len(), 0);
    assert_eq!(split_lines(&chars("\n")), vec![chars("")]);
}

#[test]
fn trim_bounds_agree_with_std() {
    for s in SAMPLES {
        let v = chars(s);
        let (a, b) = trim_bounds(&v);
        assert!(a <= b && b <= v.len());
        assert_eq!(text(&v[a..b]), s.trim(), "trim of {:?}", s);
    }
}

#[test]
fn trim_bounds_exact() {
    assert_eq!(trim_bounds(&chars("  ab c ")), (2, 6));
    assert_eq!(trim_bounds(&chars("abc")), (0, 3));
    assert_eq!(trim_bounds(&chars("")), (0, 0));
    assert_eq!(trim_bounds(&chars("   ")), (3, 3));
}

#[test]
fn white_space_agrees_with_std_on_every_character() {
    let mut n: u32 = 0;
    let mut count = 0;
    while n <= 0x10FFFF {
        if let Some(c) = char::from_u32(n) {
            assert_eq!(is_space_char(c), c.is_whitespace(), "U+{:04X}", n);
            if is_space_char(c) {
                count += 1;
            }
        }
        n += 1;
    }
    assert_eq!(count, 25);
}

#[test]
fn find_char_gives_the_first_index() {
    assert_eq!(find_char(&chars("#EXTINF:12,a:b,c"), ':'), Some(7));
    assert_eq!(find_char(&chars("#EXTINF:12,a:b,c"), ','), Some(10));
    assert_eq!(find_char(&chars("#EXTINF:12,a:b,c"), '='), None);
    assert_eq!(find_char(&chars(""), ':'), None);
    assert_eq!(find_char(&chars("ｘｙ:z"), ':'), Some(2));
    assert_eq!(find_char(&chars(":"), ':'), Some(0));
    for s in SAMPLES {
        for c in ['\n', ' ', 'a', ':', '1'] {
            assert_eq!(find_char(&chars(s), c), s.chars().position(|x| x == c));
        }
    }
}

#[test]
fn starts_with_tests_the_prefix() {
    assert!(starts_with(&chars("#EXTINF:1"), &chars("#EXTINF")));
    assert!(starts_with(&chars("#EXTINF"), &chars("#EXTINF")));
    assert!(starts_with(&chars("abc"), &chars("")));
    assert!(starts_with(&chars(""), &chars("")));
    assert!(!starts_with(&chars("#EXTIN"), &chars("#EXTINF")));
    assert!(!starts_with(&chars("#EXTVLCOPT"), &chars("#EXTINF")));
    assert!(!starts_with(&chars(" #EXTINF"), &chars("#EXTINF")));
    assert!(!starts_with(&chars(""), &chars("a")));
    for s in SAMPLES {
        for p in SAMPLES {
            assert_eq!(starts_with(&chars(s), &chars(p)), s.starts_with(p));
        }
    }
}

#[test]
fn digit_of_agrees_with_std() {
    let mut n: u32 = 0;
    while n <= 0x10FFFF {
        if let Some(c) = char::from_u32(n) {
            assert_eq!(digit_of(c).map(|d| d as u32), c.to_digit(10));
        }
        n += 1;
    }
    assert_eq!(digit_of('7'), Some(7));
    assert_eq!(digit_of('x'), None);
}

const NUMBERS: [i32; 17] = [
    0,
    1,
    -1,
    9,
    10,
    -10,
    99,
    100,
    419,
    -260,
    123456789,
    1000000000,
    -1000000000,
    i32::MAX,
    i32::MIN,
    i32::MAX - 1,
    i32::MIN + 1,
];

#[test]
fn push_decimal_agrees_with_std() {
    for n in NUMBERS {
        let mut out = String::new();
        push_decimal(&mut out, n);
        assert_eq!(out, n.to_string());
    }
    let mut out = "x".to_owned();
    push_decimal(&mut out, -305);
    push_decimal(&mut out, 7);
    assert_eq!(out, "x-3057");
}

#[test]
fn push_digits_exact() {
    let mut out = String::new();
    push_digits(&mut out, 0);
    push_digits(&mut out, 4294967295);
    push_digits(&mut out, 10);
    assert_eq!(out, "0429496729510");
}

#[test]
fn read_i32_reads_what_was_written() {
    for n in NUMBERS {
        let v = chars(&n.to_string());
        assert_eq!(read_i32(&v, 0, v.len()), Some(n));
    }
}

#[test]
fn read_i32_agrees_with_std() {
    for s in [
        "", "0", "-0", "+0", "00", "-", "+", "+-1", "-+1", "--1", "1-", "12a", "a12", " 12", "12 ",
        "1 2", "2147483647", "2147483648", "-2147483648", "-2147483649", "+2147483647",
        "+2147483648", "00000000002147483647", "-00000000002147483648", "4294967296",
        "99999999999999999999", "-99999999999999999999", "１２", "١٢", "1_000", "0x10", "1e3",
        "1.0", "٣", "-5", "+5", "5",
    ] {
        let v = chars(s);
        assert_eq!(read_i32(&v, 0, v.len()), s.parse::<i32>().ok(), "reading {:?}", s);
    }
}

#[test]
fn read_i32_reads_the_range_only() {
    let v = chars("#EXTINF:-17,title");
    assert_eq!(read_i32(&v, 8, 11), Some(-17));
    assert_eq!(read_i32(&v, 9, 11), Some(17));
    assert_eq!(read_i32(&v, 8, 9), None);
    assert_eq!(read_i32(&v, 8, 8), None);
    assert_eq!(read_i32(&v, 8, 12), None);
    assert_eq!(read_i32(&v, 7, 11), None);
}
