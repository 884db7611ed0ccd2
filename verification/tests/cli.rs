use wordle_stuff::cli::{parse_cli, parse_u64, parse_usize, positional_args, seed_from_args, CliError, IntError};
use wordle_stuff::text::to_ascii_lowercase;

fn args(v: &[&str]) -> Vec<String> {
    v.iter().map(|s| s.to_string()).collect()
}

#[test]
fn positional_arguments_skip_flags_and_seed_values() {
    let a = args(&["party", "--seed", "7", "10", "--easy-mode", "-v", "--verbose", "x"]);
    assert_eq!(positional_args(&a), args(&["party", "10", "x"]));
    assert_eq!(positional_args(&args(&["--seed"])), Vec::<String>::new());
}

#[test]
fn seeds_come_from_the_flag_or_the_clock() {
    assert_eq!(seed_from_args(&args(&["a", "--seed", "42"]), None).unwrap(), 42);
    assert_eq!(seed_from_args(&args(&["--seed", "1", "--seed", "2"]), Some(5)).unwrap(), 1);
    assert_eq!(seed_from_args(&args(&["a"]), Some((1u128 << 64) + 9)).unwrap(), 9);
    assert!(matches!(seed_from_args(&args(&["a", "--seed"]), Some(1)), Err(CliError::MissingSeedValue)));
    assert!(matches!(seed_from_args(&args(&["--seed", "x"]), Some(1)), Err(CliError::Int(IntError::InvalidDigit))));
    assert!(matches!(seed_from_args(&args(&[]), None), Err(CliError::ClockBeforeEpoch)));
    assert_eq!(seed_from_args(&args(&[]), Some(77)).unwrap(), 77);
    assert_eq!(
        seed_from_args(&args(&["a", "--seed"]), Some(1)).unwrap_err().message(),
        "--seed requires a numeric value"
    );
}

#[test]
fn parses_numbers_like_from_str() {
    assert_eq!(parse_u64("0"), Ok(0));
    assert_eq!(parse_u64("+17"), Ok(17));
    assert_eq!(parse_u64("18446744073709551615"), Ok(u64::MAX));
    assert_eq!(parse_u64("18446744073709551616"), Err(IntError::PosOverflow));
    assert_eq!(parse_u64("99999999999999999999x"), Err(IntError::PosOverflow));
    assert_eq!(parse_u64("1x"), Err(IntError::InvalidDigit));
    assert_eq!(parse_u64(""), Err(IntError::Empty));
    assert_eq!(parse_u64("+"), Err(IntError::InvalidDigit));
    assert_eq!(parse_u64("-"), Err(IntError::InvalidDigit));
    assert_eq!(parse_u64("-1"), Err(IntError::InvalidDigit));
    assert_eq!(parse_u64(" 1"), Err(IntError::InvalidDigit));
    for s in ["0", "7", "+12", "", "+", "a", "123456789012345678901", "18446744073709551615"] {
        assert_eq!(parse_u64(s).ok(), s.parse::<u64>().ok());
        assert_eq!(parse_usize(s).ok(), s.parse::<usize>().ok());
    }
}

#[test]
fn reads_the_command_line() {
    let o = parse_cli(&args(&[]), Some(3)).unwrap();
    assert_eq!(o.answer, "fjord");
    assert_eq!(o.n_trials, 10);
    assert!(o.hard_mode);
    assert!(!o.verbose);
    assert_eq!(o.seed, 3);
    let o = parse_cli(&args(&["party", "4", "--easy-mode", "-v", "--seed", "9"]), None).unwrap();
    assert_eq!(o.answer, "party");
    assert_eq!(o.n_trials, 4);
    assert!(!o.hard_mode);
    assert!(o.verbose);
    assert_eq!(o.seed, 9);
    assert!(matches!(parse_cli(&args(&["party", "x", "--seed"]), None), Err(CliError::Int(IntError::InvalidDigit))));
    assert!(matches!(parse_cli(&args(&["party", "2", "--seed"]), None), Err(CliError::MissingSeedValue)));
    assert_eq!(
        parse_cli(&args(&["a", "99999999999999999999999"]), None).unwrap_err().message(),
        "number too large to fit in target type"
    );
}

#[test]
fn lower_cases_ascii_only() {
    assert_eq!(to_ascii_lowercase("FjOrD-É"), "fjord-É");
}
