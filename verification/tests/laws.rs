use lib::names::Fail;
use lib::options::Options;
use lib::wrap::each_split_within;

fn words(v: &[&str]) -> Vec<String> {
    v.iter().map(|s| s.to_string()).collect()
}

fn opts() -> Options {
    let mut o = Options::new();
    o.optopt("o", "output", "output", "NAME");
    o.optflag("a", "all", "all");
    o.optflag("b", "", "b");
    o.optflagmulti("v", "verbose", "verbose");
    o
}

#[test]
fn law_long_equals_matches_space() {
    let o = opts();
    let x = o.parse(words(&["--output=f.txt", "rest"])).unwrap();
    let y = o.parse(words(&["--output", "f.txt", "rest"])).unwrap();
    assert!(x == y);
    assert_eq!(x.opt_str("o"), Some("f.txt".to_string()));
}

#[test]
fn law_short_attached_matches_space() {
    let o = opts();
    let x = o.parse(words(&["-af.txt"])).err();
    assert_eq!(x, Some(Fail::UnrecognizedOption("f".to_string())));
    let x = o.parse(words(&["-of.txt", "-a"])).unwrap();
    let y = o.parse(words(&["-o", "f.txt", "-a"])).unwrap();
    assert!(x == y);
}

#[test]
fn law_flags_cluster() {
    let o = opts();
    let x = o.parse(words(&["-ab", "z"])).unwrap();
    let y = o.parse(words(&["-a", "-b", "z"])).unwrap();
    assert!(x == y);
    assert!(x.opt_present("all") && x.opt_present("b"));
}

#[test]
fn law_double_dash_all_free() {
    let o = opts();
    let m = o.parse(words(&["--", "-a", "--output", "x"])).unwrap();
    assert_eq!(m.free, words(&["-a", "--output", "x"]));
    assert!(!m.opt_present("a") && !m.opt_present("o"));
    let mut r = Options::new();
    r.reqopt("r", "", "required", "R");
    assert_eq!(r.parse(words(&["--", "-r", "x"])).err(), Some(Fail::OptionMissing("r".to_string())));
}

#[test]
fn law_non_option_words_free() {
    let o = opts();
    let args = words(&["a", "-", "b c"]);
    let m = o.parse(args.clone()).unwrap();
    assert_eq!(m.free, args);
    assert_eq!(m.opt_count("verbose"), 0);
}

#[test]
fn law_occurrences_respected() {
    let o = opts();
    let m = o.parse(words(&["-v", "--verbose", "-vv"])).unwrap();
    assert_eq!(m.opt_count("v"), 4);
    assert_eq!(o.parse(words(&["-a", "--all"])).err(), Some(Fail::OptionDuplicated("all".to_string())));
    let mut r = Options::new();
    r.reqopt("r", "req", "required", "R");
    assert_eq!(r.parse(words(&[])).err(), Some(Fail::OptionMissing("req".to_string())));
    assert_eq!(r.parse(words(&["-r", "1"])).unwrap().opt_count("r"), 1);
}

#[test]
fn law_described_options_queryable() {
    let o = opts();
    let m = o.parse(words(&[])).unwrap();
    for nm in ["o", "output", "a", "all", "b", "v", "verbose"] {
        assert!(m.opt_defined(nm), "{}", nm);
    }
    assert!(!m.opt_defined("c"));
}

#[test]
fn law_split_pieces_trimmed() {
    let text = "  the quick\tbrown  fox jumps   over the lazy dog  ";
    for lim in [0usize, 1, 3, 5, 8, 13, 100] {
        for piece in each_split_within(text, lim) {
            assert!(!piece.is_empty());
            assert!(!piece.starts_with(char::is_whitespace));
            assert!(!piece.ends_with(char::is_whitespace));
        }
    }
}

#[test]
fn law_split_pieces_fit_ascii() {
    let text = "the quick brown fox jumps over the lazy dog, extraordinarily";
    for lim in [1usize, 4, 9, 10, 16, 30] {
        for piece in each_split_within(text, lim) {
            assert!(piece.len() <= lim || !piece.contains(char::is_whitespace), "{} {}", lim, piece);
        }
    }
    assert_eq!(
        each_split_within("the quick brown fox", 10),
        words(&["the quick", "brown fox"])
    );
}

#[test]
fn law_split_pieces_fit_multibyte() {
    assert_eq!(each_split_within("a \u{1F600}b", 3), words(&["a", "\u{1F600}b"]));
    assert_eq!(each_split_within("a €€", 3), words(&["a", "€€"]));
    let text = "été à la plage, où l’on a vu des œufs brûlés";
    for lim in [1usize, 3, 5, 8, 12, 20] {
        for piece in each_split_within(text, lim) {
            assert!(piece.len() <= lim || !piece.contains(char::is_whitespace), "{} {}", lim, piece);
        }
    }
}

#[test]
fn law_short_equals_matches_space() {
    let o = opts();
    let x = o.parse(words(&["-o=f.txt", "z"])).unwrap();
    let y = o.parse(words(&["-o", "f.txt", "z"])).unwrap();
    assert!(x == y);
    assert_eq!(x.opt_str("o"), Some("f.txt".to_string()));
    let e = o.parse(words(&["-o="])).unwrap();
    assert_eq!(e.opt_str("o"), Some(String::new()));
}

#[test]
fn law_names_select_same_option() {
    let o = opts();
    let m = o.parse(words(&["-v", "--verbose", "-o", "x"])).unwrap();
    assert_eq!(m.opt_count("v"), m.opt_count("verbose"));
    assert_eq!(m.opt_count("v"), 2);
    assert_eq!(m.opt_present("o"), m.opt_present("output"));
    assert_eq!(m.opt_count("a"), m.opt_count("all"));
    assert!(m.opt_count("all") <= 1);
}

#[test]
fn law_argument_values_per_occurrence() {
    let mut o = Options::new();
    o.optmulti("I", "include", "include", "DIR");
    let m = o.parse(words(&["-Ia", "--include=b", "-I", "c"])).unwrap();
    assert_eq!(m.opt_strs("I").len(), m.opt_count("I"));
    assert_eq!(m.opt_str("include"), Some(m.opt_strs("I")[0].clone()));
    assert_eq!(m.opt_strs("include"), words(&["a", "b", "c"]));
}

#[test]
fn law_split_pieces_cover_text() {
    let text = "  one two\tthree   four five six  seven ";
    let all_words: Vec<&str> = text.split_whitespace().collect();
    for lim in [0usize, 3, 7, 9, 14, 100] {
        let pieces = each_split_within(text, lim);
        let piece_words: Vec<String> = pieces
            .iter()
            .flat_map(|p| p.split_whitespace().map(|w| w.to_string()))
            .collect();
        assert_eq!(piece_words, all_words.iter().map(|w| w.to_string()).collect::<Vec<_>>());
        assert!(pieces.len() <= all_words.len());
        // pieces appear in the text in order
        let mut from = 0;
        for p in &pieces {
            let at = text[from..].find(p.as_str()).expect("piece is a slice of the text") + from;
            from = at + p.len();
        }
    }
    assert!(each_split_within(" \t ", 4).is_empty());
}

#[test]
fn law_split_pieces_greedy() {
    let pieces = each_split_within("aa bb cc dd", 5);
    assert_eq!(pieces, words(&["aa bb", "cc dd"]));
    // "aa bb" plus " cc" would be 8 bytes, beyond the limit of 5
    let pieces = each_split_within("aa bb cc dd", 8);
    assert_eq!(pieces, words(&["aa bb cc", "dd"]));
}

#[test]
fn law_group_with_unique_names_selected_by_both() {
    let mut o = Options::new();
    o.optflag("a", "", "first a");
    o.optflag("a", "all", "second a");
    o.optflagmulti("v", "verbose", "verbose");
    let m = o.parse(words(&["-a", "--verbose", "-v"])).unwrap();
    // the group with names v/verbose is the only one bearing them
    assert_eq!(m.opt_count("v"), m.opt_count("verbose"));
    assert_eq!(m.opt_present("v"), m.opt_present("verbose"));
    // "a" is shared: it selects the first group, "all" the second
    assert!(m.opt_present("a"));
    assert!(!m.opt_present("all"));
}

#[test]
fn law_opt_strs_bounds_and_first() {
    let mut o = Options::new();
    o.optflagopt("e", "enc", "encoding", "E");
    let m = o.parse(words(&["--enc", "x"])).unwrap();
    assert_eq!(m.opt_count("e"), 1);
    assert!(m.opt_strs("e").is_empty());
    assert_eq!(m.opt_str("e"), None);
    let m = o.parse(words(&["-ez"])).unwrap();
    assert!(m.opt_strs("enc").len() <= m.opt_count("enc"));
    assert_eq!(m.opt_str("enc"), Some(m.opt_strs("enc")[0].clone()));
    assert_eq!(m.opt_str("enc"), Some("z".to_string()));
}

#[test]
fn law_opt_str_first_occurrence() {
    let mut o = Options::new();
    o.optmulti("o", "output", "output", "F");
    o.optflag("q", "", "quiet");
    let m = o.parse(words(&["x", "y", "--output=first", "-q", "-o", "second"])).unwrap();
    assert_eq!(m.opt_str("o"), Some("first".to_string()));
    assert_eq!(m.free(), &words(&["x", "y"]));
}
