use lib::cli::{arg_value, has_arg, mode_arg, orientation_arg, parse_u64};
use lib::model::{ColorMode, Orientation};

fn args(v: &[&str]) -> Vec<String> {
    v.iter().map(|s| s.to_string()).collect()
}

#[test]
fn values_after_keys() {
    let a = args(&["prog", "--selftest", "5", "--orient", "h", "--log"]);
    assert_eq!(arg_value(&a, "--selftest").as_deref(), Some("5"));
    assert_eq!(arg_value(&a, "--orient").as_deref(), Some("h"));
    assert_eq!(arg_value(&a, "--log"), None);
    assert_eq!(arg_value(&a, "--mode"), None);
    assert!(has_arg(&a, "--log"));
    assert!(!has_arg(&a, "--flick"));
    let b = args(&["prog", "--mode", "black", "--mode", "white"]);
    assert_eq!(arg_value(&b, "--mode").as_deref(), Some("black"));
}

#[test]
fn orientation_and_mode_values() {
    assert_eq!(orientation_arg("h"), Orientation::Horizontal);
    assert_eq!(orientation_arg("horizontal"), Orientation::Horizontal);
    assert_eq!(orientation_arg("v"), Orientation::Vertical);
    assert_eq!(orientation_arg(""), Orientation::Vertical);
    assert_eq!(mode_arg("black"), ColorMode::Black);
    assert_eq!(mode_arg("white"), ColorMode::White);
    assert_eq!(mode_arg("Black"), ColorMode::Multi);
    assert_eq!(mode_arg("multi"), ColorMode::Multi);
}

#[test]
fn seconds_are_read_like_std() {
    for s in ["0", "5", "+7", "0012", "18446744073709551615", "", "+", "-1", "12a", " 5", "18446744073709551616", "99999999999999999999"] {
        assert_eq!(parse_u64(s), s.parse::<u64>().ok(), "{}", s);
    }
}
