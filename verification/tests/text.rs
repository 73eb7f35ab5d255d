use gmcl_speech::text;

#[test]
fn norm_lowers_and_drops_punctuation() {
    assert_eq!(text::norm("Hello, World!"), "hello world");
    assert_eq!(text::norm("  Don't   STOP  "), "don t stop");
    assert_eq!(text::norm("R2-D2"), "r2 d2");
}

#[test]
fn norm_of_nothing_is_empty() {
    assert_eq!(text::norm(""), "");
    assert_eq!(text::norm("   "), "");
    assert_eq!(text::norm("?!...\t\n"), "");
}

#[test]
fn norm_beyond_ascii() {
    assert_eq!(text::norm("Ünïcödé — ÄÖÜ"), "ünïcödé äöü");
    assert_eq!(text::norm("ΟΔΥΣΣΕΥΣ"), "οδυσσευς");
    assert_eq!(text::norm("漢字、かな"), "漢字 かな");
    // Lower-casing yields a letter and a combining mark, and the mark is no letter.
    assert_eq!(text::norm("İx"), "i x");
}

#[test]
fn norm_lowered_leaves_capitals() {
    assert_eq!(text::norm_lowered("Ab,,cD"), "Ab cD");
    assert_eq!(text::norm_lowered(" a "), "a");
}

#[test]
fn norm_twice_is_norm_once() {
    for s in ["Hello, World!", "a--b", "", "Ünïcödé — ÄÖÜ", "ΑΣ ΣΑ", "İİ", "ǅ Ⅷ ﬀ"] {
        let once = text::norm(s);
        assert_eq!(text::norm(&once), once);
    }
}

#[test]
fn norm_ignores_case_of_ascii() {
    assert_eq!(text::norm("OPEN the DOOR"), text::norm("open THE door"));
}

#[test]
fn norm_is_the_words_with_single_spaces() {
    let s = "..one, two;;three--4 ";
    let words: Vec<String> = s
        .to_lowercase()
        .split(|c: char| !c.is_alphanumeric())
        .filter(|w| !w.is_empty())
        .map(|w| w.to_string())
        .collect();
    assert_eq!(text::norm(s), words.join(" "));
    assert_eq!(text::norm(s), "one two three 4");
}

#[test]
fn norm_of_two_texts_is_that_of_each() {
    let texts = ["", "?!", "Hello,", " World ", "R2-D2", "ΟΔΥΣΣΕΥΣ", "Σ", "ΑΣ", "İ", "漢字、"];
    for a in texts {
        for b in texts {
            let x = text::norm(a);
            let y = text::norm(b);
            let expected = if x.is_empty() {
                y
            } else if y.is_empty() {
                x
            } else {
                format!("{x} {y}")
            };
            assert_eq!(text::norm(&format!("{a} {b}")), expected, "{a:?} {b:?}");
        }
    }
}

#[test]
fn every_ascii_character_normalises_as_stated() {
    for n in 0u8..128 {
        let c = n as char;
        let expected = if c.is_ascii_alphanumeric() {
            c.to_ascii_lowercase().to_string()
        } else {
            String::new()
        };
        assert_eq!(text::norm(&c.to_string()), expected, "{n}");
    }
}

#[test]
fn white_space_is_the_unicode_property() {
    let listed: Vec<u32> = vec![
        0x9, 0xa, 0xb, 0xc, 0xd, 0x20, 0x85, 0xa0, 0x1680, 0x2000, 0x2001, 0x2002, 0x2003, 0x2004,
        0x2005, 0x2006, 0x2007, 0x2008, 0x2009, 0x200a, 0x2028, 0x2029, 0x202f, 0x205f, 0x3000,
    ];
    for n in 0u32..=0x10ffff {
        if let Some(c) = char::from_u32(n) {
            let s = format!("a{c}b");
            let pieces = text::split_whitespace(&s);
            if listed.contains(&n) {
                assert_eq!(pieces, vec!["a", "b"], "{n:x}");
                assert_eq!(text::norm_lowered(&s), "a b", "{n:x}");
            } else {
                assert_eq!(pieces, vec![s.clone()], "{n:x}");
            }
        }
    }
}

#[test]
fn split_whitespace_gives_the_pieces() {
    assert_eq!(text::split_whitespace("  one two\tthree\n"), vec!["one", "two", "three"]);
    assert!(text::split_whitespace(" \t ").is_empty());
    assert!(text::split_whitespace("").is_empty());
}

#[test]
fn tokens_are_normal_and_not_empty() {
    assert_eq!(text::tokens(" Hello,  -- World! it's"), vec!["hello", "world", "it s"]);
    assert!(text::tokens("... !?").is_empty());
}

#[test]
fn join_words_puts_one_space() {
    assert_eq!(text::join_words(&"a".to_string(), &"b c".to_string()), "a b c");
}

#[test]
fn contains_finds_texts() {
    assert!(text::contains("microphone array", "phone"));
    assert!(text::contains("abc", "abc"));
    assert!(text::contains("abc", ""));
    assert!(text::contains("", ""));
    assert!(text::contains("aab", "ab"));
    assert!(!text::contains("abc", "abcd"));
    assert!(!text::contains("abc", "ca"));
    assert!(text::contains("größe", "öß"));
}
