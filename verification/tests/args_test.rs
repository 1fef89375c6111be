// Command-line argument tests

use path_generation::args::parse_seed;

fn args(list: &[&str]) -> Vec<String> {
    list.iter().map(|s| s.to_string()).collect()
}

#[test]
fn seed_is_read_after_flag() {
    assert_eq!(parse_seed(&args(&["sim", "--seed", "42"])), Some(42));
    assert_eq!(parse_seed(&args(&["sim", "-v", "--seed", "+7", "x"])), Some(7));
    assert_eq!(
        parse_seed(&args(&["sim", "--seed", "18446744073709551615"])),
        Some(u64::MAX)
    );
}

#[test]
fn seed_absent_or_invalid_gives_none() {
    assert_eq!(parse_seed(&args(&["sim"])), None);
    assert_eq!(parse_seed(&args(&["sim", "--seed"])), None);
    assert_eq!(parse_seed(&args(&["sim", "--seed", "abc"])), None);
    assert_eq!(parse_seed(&args(&["sim", "--seed", "-1"])), None);
    assert_eq!(parse_seed(&args(&["sim", "--seed", " 5"])), None);
    assert_eq!(parse_seed(&args(&["sim", "--seed", ""])), None);
    assert_eq!(parse_seed(&args(&["sim", "--seed", "18446744073709551616"])), None);
}

#[test]
fn program_name_is_not_an_option() {
    // args[0] is the program name, never read as the flag
    assert_eq!(parse_seed(&args(&["--seed", "3"])), None);
    // the first flag decides
    assert_eq!(parse_seed(&args(&["sim", "--seed", "x", "--seed", "9"])), None);
}

#[test]
fn seed_parsing_matches_std() {
    let cases = [
        "0", "007", "+", "+0", "++1", "1+", "12a", "٣", "99999999999999999999", "184467440737095516150",
        "18446744073709551614", "4684074858222377819", "1_000",
    ];
    for c in cases {
        assert_eq!(parse_seed(&args(&["sim", "--seed", c])), c.parse::<u64>().ok(), "{c:?}");
    }
}
