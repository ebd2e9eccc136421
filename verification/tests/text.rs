use fsgitwatch::matcher::RepositoryPattern;
use fsgitwatch::scanner::child_path;
use fsgitwatch::text::{
    char_code, char_is_whitespace, chars_of, drop_suffixes, ends_at_ignore_ascii_case, find_char,
    fold_char, matches_at, same_text, skip_prefixes, sub_vec, trim_range, vec_eq_ignore_ascii_case,
};

fn chars(text: &str) -> Vec<char> {
    text.chars().collect()
}

#[test]
fn whitespace_is_what_the_standard_library_calls_whitespace() {
    for code in 0..=0x10FFFFu32 {
        if let Some(c) = char::from_u32(code) {
            assert_eq!(char_is_whitespace(c), c.is_whitespace(), "U+{:04X}", code);
            assert_eq!(char_code(c), code);
        }
    }
}

#[test]
fn folding_is_ascii_lower_case() {
    for code in 0..=0x10FFFFu32 {
        if let Some(c) = char::from_u32(code) {
            assert_eq!(fold_char(c), c.to_ascii_lowercase() as u32, "U+{:04X}", code);
        }
    }
    assert_eq!(fold_char('A'), 'a' as u32);
    assert_eq!(fold_char('Z'), 'z' as u32);
    assert_eq!(fold_char('@'), '@' as u32);
    assert_eq!(fold_char('['), '[' as u32);
}

#[test]
fn equality_up_to_ascii_case_agrees_with_the_standard_library() {
    let samples = ["", "a", "A", "abc", "ABC", "aBc", "abd", "ab", "\u{e9}", "\u{c9}", "k", "\u{212a}", "a-b_c", "A-B_C"];
    for a in samples {
        for b in samples {
            assert_eq!(
                vec_eq_ignore_ascii_case(&chars(a), &chars(b)),
                a.eq_ignore_ascii_case(b),
                "{:?} {:?}",
                a,
                b
            );
            assert_eq!(same_text(a, b), a == b);
        }
    }
}

#[test]
fn chars_and_ranges() {
    assert_eq!(chars_of("h\u{e9}llo"), vec!['h', '\u{e9}', 'l', 'l', 'o']);
    assert_eq!(chars_of(""), Vec::<char>::new());
    let v = chars("abcdef");
    assert_eq!(sub_vec(&v, 1, 4), chars("bcd"));
    assert_eq!(sub_vec(&v, 2, 2), chars(""));
    assert_eq!(sub_vec(&v, 0, 6), v);
}

#[test]
fn find_char_gives_the_first_occurrence() {
    let v = chars("a/b/c");
    assert_eq!(find_char(&v, 0, '/'), 1);
    assert_eq!(find_char(&v, 1, '/'), 1);
    assert_eq!(find_char(&v, 2, '/'), 3);
    assert_eq!(find_char(&v, 4, '/'), 5);
    assert_eq!(find_char(&v, 5, '/'), 5);
    assert_eq!(find_char(&v, 0, ':'), 5);
    assert_eq!(find_char(&chars(""), 0, '/'), 0);
}

#[test]
fn matches_at_compares_in_place() {
    let v = chars("https://host");
    assert!(matches_at(&v, 0, &chars("https://")));
    assert!(!matches_at(&v, 1, &chars("https://")));
    assert!(matches_at(&v, 8, &chars("host")));
    assert!(!matches_at(&v, 9, &chars("host")));
    assert!(matches_at(&v, 12, &chars("")));
    assert!(!matches_at(&v, 0, &chars("HTTPS://")));
}

#[test]
fn trim_range_agrees_with_the_standard_library() {
    let samples = ["", " ", "a", " a", "a ", "  a b  ", "\t\n x \r\n", "\u{a0}x\u{3000}", "\u{200b}x", " \u{85}y\u{2028}"];
    for text in samples {
        let v = chars(text);
        let (a, b) = trim_range(&v, 0, v.len());
        let trimmed: String = v[a..b].iter().collect();
        assert_eq!(trimmed, text.trim(), "{:?}", text);
    }
    let v = chars("x  ab  y");
    assert_eq!(trim_range(&v, 1, 7), (3, 5));
    assert_eq!(trim_range(&v, 1, 3), (3, 3));
}

#[test]
fn skip_prefixes_agrees_with_the_standard_library() {
    for (text, pat) in [
        ("https://https://x", "https://"),
        ("http://x", "https://"),
        ("aaa", "a"),
        ("aab", "aa"),
        ("", "a"),
        ("git@git@", "git@"),
    ] {
        let v = chars(text);
        let k = skip_prefixes(&v, 0, &chars(pat));
        let rest: String = v[k..].iter().collect();
        assert_eq!(rest, text.trim_start_matches(pat), "{:?} {:?}", text, pat);
    }
    assert_eq!(skip_prefixes(&chars("xaab"), 1, &chars("a")), 3);
}

#[test]
fn drop_suffixes_removes_every_repetition_in_any_case() {
    for (text, kept) in [
        ("repo.git", "repo"),
        ("repo.git.git", "repo"),
        ("repo.GIT", "repo"),
        ("repo.Git.gIT", "repo"),
        ("repo", "repo"),
        ("repo.gi", "repo.gi"),
        (".git", ""),
        ("", ""),
        ("git", "git"),
        ("repo.git ", "repo.git "),
    ] {
        let v = chars(text);
        let k = drop_suffixes(&v, v.len(), &chars(".git"));
        let left: String = v[..k].iter().collect();
        assert_eq!(left, kept, "{:?}", text);
        if text.to_ascii_lowercase() == text {
            assert_eq!(left, text.trim_end_matches(".git"));
        }
    }
    let v = chars("a.git.git");
    assert_eq!(drop_suffixes(&v, 5, &chars(".git")), 1);
    assert!(ends_at_ignore_ascii_case(&v, 5, &chars(".GIT")));
    assert!(!ends_at_ignore_ascii_case(&v, 4, &chars(".git")));
    assert!(!ends_at_ignore_ascii_case(&v, 3, &chars(".git")));
}

#[test]
fn pattern_sides_are_trimmed_as_the_standard_library_trims() {
    for text in ["a/b", " a / b ", "\ta\n/\u{2003}b\u{a0}", "x y/ z\tw ", "\u{200b}/b", "a/\u{feff}"] {
        let pattern = RepositoryPattern::new(text).unwrap();
        let (owner, repo) = text.split_once('/').unwrap();
        assert_eq!(pattern.owner(), owner.trim());
        assert_eq!(pattern.repo(), repo.trim());
    }
}

#[test]
fn pattern_validity_is_one_slash_between_two_nonblank_sides() {
    let pieces = ["", " ", "a", "/", " a ", "b/", "/c", "\t"];
    for x in pieces {
        for y in pieces {
            for z in pieces {
                let text = format!("{}{}{}", x, y, z);
                let parts: Vec<&str> = text.split('/').collect();
                let valid = parts.len() == 2
                    && !parts[0].trim().is_empty()
                    && !parts[1].trim().is_empty();
                assert_eq!(RepositoryPattern::new(&text).is_ok(), valid, "{:?}", text);
            }
        }
    }
}

#[test]
fn child_path_agrees_with_path_join() {
    for dir in ["root", "/", "", "a/b", "dir/", "/abs/olute", ".", ".."] {
        for name in ["x", ".git", "with space", "\u{e9}"] {
            let joined = std::path::Path::new(dir).join(name);
            assert_eq!(child_path(dir, name), joined.to_str().unwrap(), "{:?} {:?}", dir, name);
        }
    }
}
