use lib::matches::Matches;
use lib::names::Fail;
use lib::options::Options;

fn words(v: &[&str]) -> Vec<String> {
    v.iter().map(|s| s.to_string()).collect()
}

fn sample() -> Options {
    let mut opts = Options::new();
    opts.optopt("o", "output", "set output file name", "NAME");
    opts.optflag("h", "help", "print this help menu");
    opts
}

fn parse_ok(opts: &Options, args: &[&str]) -> Matches {
    match opts.parse(words(args)) {
        Ok(m) => m,
        Err(f) => panic!("unexpected failure: {}", f.to_string()),
    }
}

#[test]
fn parse_short_value_and_flag() {
    let m = parse_ok(&sample(), &["-o", "out.txt", "input", "-h"]);
    assert_eq!(m.opt_str("o"), Some("out.txt".to_string()));
    assert_eq!(m.opt_str("output"), Some("out.txt".to_string()));
    assert!(m.opt_present("h"));
    assert!(m.opt_present("help"));
    assert_eq!(m.free, vec!["input".to_string()]);
}

#[test]
fn parse_long_forms() {
    let m = parse_ok(&sample(), &["--output=a.txt", "--help"]);
    assert_eq!(m.opt_str("o"), Some("a.txt".to_string()));
    assert!(m.opt_present("h"));
    let m = parse_ok(&sample(), &["--output", "b.txt"]);
    assert_eq!(m.opt_str("output"), Some("b.txt".to_string()));
    assert!(!m.opt_present("help"));
    assert!(m.free.is_empty());
}

#[test]
fn parse_short_attached_value() {
    let m = parse_ok(&sample(), &["-ofile"]);
    assert_eq!(m.opt_str("o"), Some("file".to_string()));
}

#[test]
fn parse_empty_command_line() {
    let m = parse_ok(&sample(), &[]);
    assert!(!m.opt_present("o"));
    assert_eq!(m.opt_str("o"), None);
    assert!(m.free.is_empty());
}

#[test]
fn parse_single_dash_is_free() {
    let m = parse_ok(&sample(), &["-", "x"]);
    assert_eq!(m.free, words(&["-", "x"]));
}

#[test]
fn parse_double_dash_ends_options() {
    let m = parse_ok(&sample(), &["a", "--", "-h", "--output=x"]);
    assert!(!m.opt_present("h"));
    assert_eq!(m.free, words(&["a", "-h", "--output=x"]));
}

#[test]
fn parse_argument_missing() {
    match sample().parse(words(&["-o"])) {
        Err(f) => {
            assert_eq!(f, Fail::ArgumentMissing("o".to_string()));
            assert_eq!(f.to_string(), "FATAL: Argument to option 'o' is missing");
            assert_eq!(f.description(), "missing argument");
        }
        Ok(_) => panic!("expected a failure"),
    }
}

#[test]
fn parse_unrecognized_short() {
    match sample().parse(words(&["-x"])) {
        Err(f) => {
            assert_eq!(f, Fail::UnrecognizedOption("x".to_string()));
            assert_eq!(f.to_string(), "Unrecognized option: 'x'");
            assert_eq!(f.description(), "unrecognized option");
        }
        Ok(_) => panic!("expected a failure"),
    }
}

#[test]
fn parse_unrecognized_long() {
    assert_eq!(
        sample().parse(words(&["--verbose"])).err(),
        Some(Fail::UnrecognizedOption("verbose".to_string()))
    );
}

#[test]
fn parse_required_missing() {
    let mut opts = Options::new();
    opts.reqopt("i", "input", "input file", "FILE");
    match opts.parse(words(&["free"])) {
        Err(f) => {
            assert_eq!(f, Fail::OptionMissing("input".to_string()));
            assert_eq!(f.to_string(), "Required option 'input' missing");
            assert_eq!(f.description(), "missing option");
        }
        Ok(_) => panic!("expected a failure"),
    }
    let m = opts.parse(words(&["-i", "f"])).unwrap();
    assert_eq!(m.opt_str("input"), Some("f".to_string()));
}

#[test]
fn parse_duplicated() {
    match sample().parse(words(&["-o", "a", "--output", "b"])) {
        Err(f) => {
            assert_eq!(f, Fail::OptionDuplicated("output".to_string()));
            assert_eq!(f.to_string(), "FATAL: Option 'output' was given more than once");
            assert_eq!(f.description(), "duplicated option");
        }
        Ok(_) => panic!("expected a failure"),
    }
}

#[test]
fn parse_unexpected_argument() {
    match sample().parse(words(&["--help=yes"])) {
        Err(f) => {
            assert_eq!(f, Fail::UnexpectedArgument("help".to_string()));
            assert_eq!(f.to_string(), "FATAL: Option 'help' does not take an argument");
            assert_eq!(f.description(), "unexpected argument");
        }
        Ok(_) => panic!("expected a failure"),
    }
}

#[test]
fn parse_optional_argument() {
    let mut opts = Options::new();
    opts.optflagopt("e", "encoding", "text encoding", "ENC");
    opts.optflag("q", "", "quiet");
    let m = opts.parse(words(&["-e", "utf8"])).unwrap();
    assert_eq!(m.opt_default("e", "ascii"), Some("utf8".to_string()));
    let m = opts.parse(words(&["-e", "-q"])).unwrap();
    assert_eq!(m.opt_default("e", "ascii"), Some("ascii".to_string()));
    assert_eq!(m.opt_str("e"), None);
    assert!(m.opt_present("q"));
    // the long form never takes the next word
    let m = opts.parse(words(&["--encoding", "utf8"])).unwrap();
    assert_eq!(m.opt_default("encoding", "ascii"), Some("ascii".to_string()));
    assert_eq!(m.free, words(&["utf8"]));
    let m = opts.parse(words(&["--encoding=latin1"])).unwrap();
    assert_eq!(m.opt_str("e"), Some("latin1".to_string()));
    let m = opts.parse(words(&["x"])).unwrap();
    assert_eq!(m.opt_default("e", "ascii"), None);
}

#[test]
fn parse_multi_values() {
    let mut opts = Options::new();
    opts.optmulti("I", "include", "include directory", "DIR");
    opts.optflagmulti("v", "verbose", "more output");
    let m = opts.parse(words(&["-Ia", "--include", "b", "-vvv", "-I", "c", "--verbose"])).unwrap();
    assert_eq!(m.opt_strs("I"), words(&["a", "b", "c"]));
    assert_eq!(m.opt_count("include"), 3);
    assert_eq!(m.opt_count("v"), 4);
    assert_eq!(m.opt_str("I"), Some("a".to_string()));
}

#[test]
fn parse_flag_cluster_with_value() {
    let mut opts = Options::new();
    opts.optflag("a", "", "a");
    opts.optflag("b", "", "b");
    opts.optopt("c", "", "c", "X");
    let m = opts.parse(words(&["-abcvalue"])).unwrap();
    assert!(m.opt_present("a"));
    assert!(m.opt_present("b"));
    assert_eq!(m.opt_str("c"), Some("value".to_string()));
    let m = opts.parse(words(&["-abc", "next"])).unwrap();
    assert_eq!(m.opt_str("c"), Some("next".to_string()));
}

#[test]
fn matches_queries_by_several_names() {
    let mut opts = sample();
    opts.optopt("", "level", "level", "N");
    let m = opts.parse(words(&["--level", "3", "-h"])).unwrap();
    assert!(m.opt_defined("level"));
    assert!(m.opt_defined("o"));
    assert!(!m.opt_defined("zzz"));
    let names = words(&["zzz", "help"]);
    assert!(m.opts_present(&names));
    assert!(!m.opts_present(&words(&["zzz", "output"])));
    assert_eq!(m.opts_str(&words(&["output", "level"])), Some("3".to_string()));
    assert_eq!(m.opts_str(&words(&["output", "help"])), None);
}

#[test]
fn options_validity_checks() {
    assert!(lib::options::validate_names("h", "help"));
    assert!(lib::options::validate_names("", ""));
    assert!(!lib::options::validate_names("hh", "help"));
    assert!(!lib::options::validate_names("h", "x"));
    assert!(lib::options::validate_names("", "é"));
    let mut opts = Options::new();
    opts.optflag("a", "", "a");
    assert!(opts.is_parseable());
    opts.optflag("", "", "nameless");
    assert!(!opts.is_parseable());
}

#[test]
fn short_usage_line() {
    let mut opts = Options::new();
    opts.reqopt("o", "", "output", "NAME");
    opts.optflag("h", "help", "help");
    opts.optflagmulti("v", "", "verbose");
    opts.optflagopt("e", "", "encoding", "X");
    opts.optmulti("", "include", "include", "DIR");
    assert_eq!(
        opts.short_usage("prog"),
        "Usage: prog -o NAME [-h] [-v].. [-e [X]] [--include DIR].."
    );
    assert_eq!(Options::new().short_usage("p"), "Usage: p ");
}
