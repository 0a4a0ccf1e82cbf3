use strsplit::{until_char, Delimiter, StrSplit};

#[test]
fn until_char_test() {
    assert_eq!(until_char("hello world", 'o'), "hell");
    assert_eq!(until_char("hello world", 'x'), "hello world");
}

#[test]
fn it_works() {
    let haystack = "a b c";
    let letters: Vec<_> = StrSplit::new(haystack, " ").collect();
    assert_eq!(letters, vec!["a", "b", "c"]);
}

#[test]
fn tail() {
    let haystack = "a b c ";
    let letters: Vec<_> = StrSplit::new(haystack, " ").collect();
    assert_eq!(letters, vec!["a", "b", "c", ""]);
}

#[test]
fn double_delimiter() {
    let haystack = "a b  c";
    let letters: Vec<_> = StrSplit::new(haystack, " ").collect();
    assert_eq!(letters, vec!["a", "b", "", "c"]);
}

#[test]
fn no_occurrence_yields_whole_text_once() {
    let mut split = StrSplit::new("hello world", 'x');
    assert_eq!(split.next(), Some("hello world"));
    assert_eq!(split.next(), None);
    assert_eq!(StrSplit::new("hello world", 'x').collect(), vec!["hello world"]);
    assert_eq!(StrSplit::new("hello world", "xyz").collect(), vec!["hello world"]);
}

#[test]
fn exhausted_stays_exhausted() {
    let mut split = StrSplit::new("a,b", ',');
    assert_eq!(split.next(), Some("a"));
    assert_eq!(split.next(), Some("b"));
    assert_eq!(split.next(), None);
    assert_eq!(split.next(), None);
    assert_eq!(split.next(), None);
    assert_eq!(split.collect(), Vec::<&str>::new());
}

#[test]
fn empty_text_yields_one_empty_segment() {
    let mut split = StrSplit::new("", ' ');
    assert_eq!(split.next(), Some(""));
    assert_eq!(split.next(), None);
    assert_eq!(StrSplit::new("", "ab").collect(), vec![""]);
}

#[test]
fn leading_delimiter_yields_leading_empty_segment() {
    assert_eq!(StrSplit::new(" a", " ").collect(), vec!["", "a"]);
    assert_eq!(StrSplit::new(",", ',').collect(), vec!["", ""]);
}

#[test]
fn multi_byte_char_delimiter() {
    let haystack = "naïve→café→日本語";
    let parts = StrSplit::new(haystack, '→').collect();
    assert_eq!(parts, vec!["naïve", "café", "日本語"]);
    assert_eq!(parts[0].len(), 6);
    assert_eq!(parts[1].len(), 5);
    assert_eq!(parts[2].len(), 9);
    assert_eq!(parts[0].len() + parts[1].len() + parts[2].len() + 2 * '→'.len_utf8(), haystack.len());
    assert!(parts.iter().all(|part| !part.contains('→')));
}

#[test]
fn char_delimiters_of_every_width() {
    assert_eq!('a'.find_next("xxa"), Some((2, 3)));
    assert_eq!('é'.find_next("xxé"), Some((2, 4)));
    assert_eq!('→'.find_next("xx→"), Some((2, 5)));
    assert_eq!('😀'.find_next("xx😀"), Some((2, 6)));
    assert_eq!('é'.find_next("é→é"), Some((0, 2)));
    assert_eq!('→'.find_next("é😀→é"), Some((6, 9)));
    assert_eq!('x'.find_next("é😀→é"), None);
    assert_eq!('x'.find_next(""), None);
}

#[test]
fn multi_byte_pattern_delimiter() {
    assert_eq!("→→".find_next("a→b→→c"), Some((5, 11)));
    assert_eq!(StrSplit::new("a→b→→c", "→→").collect(), vec!["a→b", "c"]);
    assert_eq!(StrSplit::new("日本語", "本").collect(), vec!["日", "語"]);
}

#[test]
fn pattern_finds_first_of_overlapping_occurrences() {
    assert_eq!("aa".find_next("baaa"), Some((1, 3)));
    assert_eq!(StrSplit::new("baaa", "aa").collect(), vec!["b", "a"]);
    assert_eq!("ab".find_next("aab"), Some((1, 3)));
    assert_eq!("abc".find_next("ab"), None);
    assert_eq!("ab".find_next("ab"), Some((0, 2)));
}

#[test]
fn pattern_is_searched_in_the_remainder_only() {
    let mut split = StrSplit::new("ab--cd--ef", "--");
    assert_eq!(split.next(), Some("ab"));
    assert_eq!(split.next(), Some("cd"));
    assert_eq!(split.next(), Some("ef"));
    assert_eq!(split.next(), None);
}

#[test]
fn empty_pattern_matches_at_the_start_and_never_advances() {
    assert_eq!("".find_next("abc"), Some((0, 0)));
    assert_eq!("".find_next(""), Some((0, 0)));
    let mut split = StrSplit::new("abc", "");
    assert_eq!(split.next(), Some(""));
    assert_eq!(split.next(), Some(""));
    assert_eq!(split.next(), Some(""));
}

#[test]
fn until_char_edges() {
    assert_eq!(until_char("", 'o'), "");
    assert_eq!(until_char("o", 'o'), "");
    assert_eq!(until_char("héllo wörld", 'ö'), "héllo w");
    assert_eq!(until_char("héllo wörld", 'é'), "h");
    assert_eq!(until_char("hello", 'h'), "");
}

#[test]
fn segments_borrow_from_the_haystack() {
    let haystack = String::from("key=value");
    let (key, value) = {
        let mut split = StrSplit::new(&haystack, '=');
        (split.next(), split.next())
    };
    assert_eq!(key, Some("key"));
    assert_eq!(value, Some("value"));
    let start = haystack.as_ptr() as usize;
    assert_eq!(value.map(|v| v.as_ptr() as usize - start), Some(4));
}

#[test]
fn joining_the_segments_gives_the_text_back() {
    for text in ["a b c", " a  b ", "", "   ", "no-space", "é è"] {
        assert_eq!(StrSplit::new(text, ' ').collect().join(" "), text);
        assert_eq!(StrSplit::new(text, " ").collect().join(" "), text);
    }
}
