//! The command line of the trial program: positional arguments, flags, and
//! decimal numbers.
use vstd::prelude::*;
use vstd::string::StringExecFns;

use crate::text::chars_of;

verus! {

/// Why a decimal number was refused, as `u64::from_str` refuses it.
#[derive(Clone, Copy, Debug, PartialEq, Eq)]
pub enum IntError {
    /// The text is empty.
    Empty,
    /// A character is not a decimal digit.
    InvalidDigit,
    /// The number does not fit.
    PosOverflow,
}

/// Why the command line was refused.
#[derive(Clone, Debug)]
pub enum CliError {
    /// `--seed` is the last argument.
    MissingSeedValue,
    /// The system clock is set before the Unix epoch.
    ClockBeforeEpoch,
    /// A number did not parse.
    Int(IntError),
}

/// The text that describes `e`.
pub open spec fn cli_message(e: CliError) -> Seq<char> {
    match e {
        CliError::MissingSeedValue => "--seed requires a numeric value"@,
        CliError::ClockBeforeEpoch => "second time provided was later than self"@,
        CliError::Int(IntError::Empty) => "cannot parse integer from empty string"@,
        CliError::Int(IntError::InvalidDigit) => "invalid digit found in string"@,
        CliError::Int(IntError::PosOverflow) => "number too large to fit in target type"@,
    }
}

impl CliError {
    /// The text that describes the error.
    pub fn message(&self) -> (m: String)
        ensures
            m@ == cli_message(*self),
    {
        match self {
            CliError::MissingSeedValue => String::from_str("--seed requires a numeric value"),
            CliError::ClockBeforeEpoch => String::from_str("second time provided was later than self"),
            CliError::Int(IntError::Empty) => String::from_str("cannot parse integer from empty string"),
            CliError::Int(IntError::InvalidDigit) => String::from_str("invalid digit found in string"),
            CliError::Int(IntError::PosOverflow) => String::from_str("number too large to fit in target type"),
        }
    }
}

/// `c` is a decimal digit.
pub open spec fn is_digit(c: char) -> bool {
    '0' <= c && c <= '9'
}

/// The value of the decimal digit `c`.
pub open spec fn digit_value(c: char) -> int {
    (c as u32) - ('0' as u32)
}

/// Reads the digits `d[i..]` on top of the value `acc`, refusing a
/// non-digit and a value above `max` at the first place where either occurs.
pub open spec fn scan_digits(d: Seq<char>, i: int, acc: int, max: int) -> Result<int, IntError>
    decreases d.len() - i,
{
    if i >= d.len() {
        Ok(acc)
    } else if !is_digit(d[i]) {
        Err(IntError::InvalidDigit)
    } else if acc * 10 + digit_value(d[i]) > max {
        Err(IntError::PosOverflow)
    } else {
        scan_digits(d, i + 1, acc * 10 + digit_value(d[i]), max)
    }
}

/// How an unsigned integer type whose largest value is `max` reads the text
/// `s`: an optional `+`, then decimal digits.
pub open spec fn parse_unsigned_spec(s: Seq<char>, max: int) -> Result<int, IntError> {
    if s.len() == 0 {
        Err(IntError::Empty)
    } else if s.len() == 1 && (s[0] == '+' || s[0] == '-') {
        Err(IntError::InvalidDigit)
    } else if s[0] == '+' {
        scan_digits(s.drop_first(), 0, 0, max)
    } else {
        scan_digits(s, 0, 0, max)
    }
}

proof fn lemma_scan_bound(d: Seq<char>, i: int, acc: int, max: int)
    requires
        0 <= acc <= max,
    ensures
        scan_digits(d, i, acc, max) matches Ok(v) ==> 0 <= v <= max,
    decreases d.len() - i,
{
    if i < d.len() && is_digit(d[i]) && acc * 10 + digit_value(d[i]) <= max {
        lemma_scan_bound(d, i + 1, acc * 10 + digit_value(d[i]), max);
    }
}

/// Reads `s` as an unsigned decimal number no greater than `max`.
fn parse_unsigned(s: &str, max: u64) -> (res: Result<u64, IntError>)
    requires
        max >= 9,
    ensures
        match parse_unsigned_spec(s@, max as int) {
            Ok(v) => 0 <= v <= max && res == Ok::<u64, IntError>(v as u64),
            Err(e) => res == Err::<u64, IntError>(e),
        },
{
    let chars = chars_of(s);
    let n = chars.len();
    if n == 0 {
        return Err(IntError::Empty);
    }
    if n == 1 && (chars[0] == '+' || chars[0] == '-') {
        return Err(IntError::InvalidDigit);
    }
    let ghost d = if s@[0] == '+' {
        s@.drop_first()
    } else {
        s@
    };
    let start: usize = if chars[0] == '+' {
        1
    } else {
        0
    };
    let mut acc: u64 = 0;
    let mut i = start;
    proof {
        assert(d =~= s@.skip(start as int));
        assert(parse_unsigned_spec(s@, max as int) == scan_digits(d, 0, 0, max as int));
        lemma_scan_bound(d, 0, 0, max as int);
    }
    while i < n
        invariant
            chars@ == s@,
            n == s@.len(),
            start <= i <= n,
            start == 0 || start == 1,
            d == s@.skip(start as int),
            acc <= max,
            max >= 9,
            parse_unsigned_spec(s@, max as int) == scan_digits(d, i - start, acc as int, max as int),
        decreases n - i,
    {
        let c = chars[i];
        assert(d[i - start] == c);
        if !('0' <= c && c <= '9') {
            return Err(IntError::InvalidDigit);
        }
        let digit: u64 = ((c as u32) - ('0' as u32)) as u64;
        if acc > (max - digit) / 10 {
            assert(acc * 10 + digit > max) by (nonlinear_arith)
                requires
                    acc > (max - digit) / 10,
                    digit <= 9,
                    digit <= max,
            ;
            return Err(IntError::PosOverflow);
        }
        assert(acc * 10 + digit <= max) by (nonlinear_arith)
            requires
                acc <= (max - digit) / 10,
                digit <= max,
        ;
        acc = acc * 10 + digit;
        i = i + 1;
    }
    assert(i - start == d.len());
    Ok(acc)
}

/// Reads `s` as a `u64`, as `u64::from_str` does.
pub fn parse_u64(s: &str) -> (res: Result<u64, IntError>)
    ensures
        match parse_unsigned_spec(s@, u64::MAX as int) {
            Ok(v) => 0 <= v <= u64::MAX && res == Ok::<u64, IntError>(v as u64),
            Err(e) => res == Err::<u64, IntError>(e),
        },
{
    parse_unsigned(s, u64::MAX)
}

/// Reads `s` as a `usize`, as `usize::from_str` does.
pub fn parse_usize(s: &str) -> (res: Result<usize, IntError>)
    ensures
        match parse_unsigned_spec(s@, usize::MAX as int) {
            Ok(v) => 0 <= v <= usize::MAX && res == Ok::<usize, IntError>(v as usize),
            Err(e) => res == Err::<usize, IntError>(e),
        },
{
    proof {
        lemma_scan_bound(if s@.len() > 0 && s@[0] == '+' { s@.drop_first() } else { s@ }, 0, 0, usize::MAX as int);
    }
    match parse_unsigned(s, usize::MAX as u64) {
        Ok(v) => Ok(v as usize),
        Err(e) => Err(e),
    }
}

/// Whether two strings hold the same characters.
fn same_text(a: &str, b: &str) -> (same: bool)
    ensures
        same == (a@ == b@),
{
    let ca = chars_of(a);
    let cb = chars_of(b);
    if ca.len() != cb.len() {
        return false;
    }
    for i in 0..ca.len()
        invariant
            ca@ == a@,
            cb@ == b@,
            ca@.len() == cb@.len(),
            forall|j: int| 0 <= j < i ==> #[trigger] ca@[j] == cb@[j],
    {
        if ca[i] != cb[i] {
            return false;
        }
    }
    assert(a@ =~= b@);
    true
}

/// `a` is a flag that takes no value.
pub open spec fn is_plain_flag(a: Seq<char>) -> bool {
    a == "--easy-mode"@ || a == "--verbose"@ || a == "-v"@
}

/// The positional arguments of `args`: those that are neither flags nor the
/// value after `--seed`. `skip` says the first argument is such a value.
pub open spec fn positional_spec(args: Seq<Seq<char>>, skip: bool) -> Seq<Seq<char>>
    decreases args.len(),
{
    if args.len() == 0 {
        Seq::empty()
    } else if skip {
        positional_spec(args.drop_first(), false)
    } else if args[0] == "--seed"@ {
        positional_spec(args.drop_first(), true)
    } else if is_plain_flag(args[0]) {
        positional_spec(args.drop_first(), false)
    } else {
        seq![args[0]] + positional_spec(args.drop_first(), false)
    }
}

/// The texts of a list of strings.
pub open spec fn texts(args: Seq<String>) -> Seq<Seq<char>> {
    args.map_values(|a: String| a@)
}

/// The positional arguments: every argument but the flags `--easy-mode`,
/// `--verbose`, `-v`, and `--seed` with the value after it.
pub fn positional_args(args: &[String]) -> (positionals: Vec<String>)
    ensures
        texts(positionals@) == positional_spec(texts(args@), false),
{
    let mut positionals: Vec<String> = Vec::new();
    let mut skip_next = false;
    let n = args.len();
    proof {
        assert(texts(args@).skip(0) =~= texts(args@));
        assert(texts(positionals@) =~= Seq::<Seq<char>>::empty());
        assert(Seq::<Seq<char>>::empty() + positional_spec(texts(args@), false) =~= positional_spec(texts(args@), false));
    }
    for i in 0..n
        invariant
            n == args@.len(),
            positional_spec(texts(args@), false) == texts(positionals@) + positional_spec(
                texts(args@).skip(i as int),
                skip_next,
            ),
    {
        let arg = &args[i];
        let ghost rest = texts(args@).skip(i as int);
        proof {
            assert(rest[0] == arg@);
            assert(rest.drop_first() =~= texts(args@).skip(i + 1));
        }
        if skip_next {
            skip_next = false;
        } else if same_text(arg.as_str(), "--seed") {
            skip_next = true;
        } else if same_text(arg.as_str(), "--easy-mode") || same_text(arg.as_str(), "--verbose")
            || same_text(arg.as_str(), "-v") {
        } else {
            let ghost before = positionals@;
            positionals.push(arg.clone());
            proof {
                assert(texts(positionals@) =~= texts(before) + seq![arg@]);
                assert(texts(positionals@) + positional_spec(texts(args@).skip(i + 1), false)
                    =~= texts(before) + (seq![arg@] + positional_spec(texts(args@).skip(i + 1), false)));
            }
        }
    }
    proof {
        assert(texts(args@).skip(n as int) =~= Seq::<Seq<char>>::empty());
        assert(texts(positionals@) + Seq::<Seq<char>>::empty() =~= texts(positionals@));
    }
    positionals
}

/// Position of the first argument equal to `flag`.
fn position_of(args: &[String], flag: &str) -> (pos: Option<usize>)
    ensures
        match pos {
            Some(p) => p < args@.len() && args@[p as int]@ == flag@ && forall|j: int|
                0 <= j < p ==> #[trigger] args@[j]@ != flag@,
            None => forall|j: int| 0 <= j < args@.len() ==> #[trigger] args@[j]@ != flag@,
        },
{
    for i in 0..args.len()
        invariant
            forall|j: int| 0 <= j < i ==> #[trigger] args@[j]@ != flag@,
    {
        if same_text(args[i].as_str(), flag) {
            return Some(i);
        }
    }
    None
}

/// Some argument equals `flag`.
pub open spec fn has_arg(args: Seq<String>, flag: Seq<char>) -> bool {
    exists|j: int| 0 <= j < args.len() && #[trigger] args[j]@ == flag
}

/// `res` is what the command line `args` gives as the seed: the number after
/// the first `--seed`, or else the clock's nanoseconds since the Unix epoch,
/// cut to 64 bits.
pub open spec fn seed_result(args: Seq<String>, clock_nanos: Option<u128>, res: Result<u64, CliError>) -> bool {
    match res {
        Ok(seed) => if has_arg(args, "--seed"@) {
            exists|p: int|
                0 <= p < args.len() - 1 && #[trigger] args[p]@ == "--seed"@ && (forall|j: int|
                    0 <= j < p ==> #[trigger] args[j]@ != "--seed"@) && parse_unsigned_spec(
                    args[p + 1]@,
                    u64::MAX as int,
                ) == Ok::<int, IntError>(seed as int)
        } else {
            clock_nanos matches Some(t) && seed == t as u64
        },
        Err(CliError::MissingSeedValue) => exists|p: int|
            0 <= p && p == args.len() - 1 && #[trigger] args[p]@ == "--seed"@ && (forall|j: int|
                0 <= j < p ==> #[trigger] args[j]@ != "--seed"@),
        Err(CliError::Int(e)) => exists|p: int|
            0 <= p < args.len() - 1 && #[trigger] args[p]@ == "--seed"@ && (forall|j: int|
                0 <= j < p ==> #[trigger] args[j]@ != "--seed"@) && parse_unsigned_spec(
                args[p + 1]@,
                u64::MAX as int,
            ) == Err::<int, IntError>(e),
        Err(CliError::ClockBeforeEpoch) => !has_arg(args, "--seed"@) && clock_nanos is None,
    }
}

/// The seed: the number after the first `--seed`, or else the clock's
/// nanoseconds since the Unix epoch, cut to 64 bits.
pub fn seed_from_args(args: &[String], clock_nanos: Option<u128>) -> (res: Result<u64, CliError>)
    ensures
        seed_result(args@, clock_nanos, res),
{
    match position_of(args, "--seed") {
        Some(p) => {
            assert(has_arg(args@, "--seed"@));
            if p >= args.len() - 1 {
                return Err(CliError::MissingSeedValue);
            }
            match parse_u64(args[p + 1].as_str()) {
                Ok(seed) => {
                    assert(parse_unsigned_spec(args@[p + 1]@, u64::MAX as int) == Ok::<int, IntError>(seed as int));
                    Ok(seed)
                },
                Err(e) => Err(CliError::Int(e)),
            }
        },
        None => {
            assert(!has_arg(args@, "--seed"@));
            match clock_nanos {
                Some(t) => Ok(t as u64),
                None => Err(CliError::ClockBeforeEpoch),
            }
        },
    }
}

/// Answer used when the command line names none.
pub const DEFAULT_ANSWER: &'static str = "fjord";

/// Number of games generated when the command line gives no number.
pub const DEFAULT_TRIALS: usize = 10;

/// What the command line asks for.
#[derive(Clone, Debug)]
pub struct CliOptions {
    pub answer: String,
    pub n_trials: usize,
    pub hard_mode: bool,
    pub verbose: bool,
    pub seed: u64,
}

/// Whether some argument equals `flag`.
fn has_flag(args: &[String], flag: &str) -> (found: bool)
    ensures
        found == has_arg(args@, flag@),
{
    match position_of(args, flag) {
        Some(p) => {
            assert(args@[p as int]@ == flag@);
            true
        },
        None => false,
    }
}

/// Reads the command line: the first positional argument is the answer
/// (`fjord` where there is none), the second the number of games (10 where
/// there is none); `--easy-mode` turns hard mode off, `--verbose` or `-v`
/// asks for progress, and the seed comes from `--seed` or the clock.
pub fn parse_cli(args: &[String], clock_nanos: Option<u128>) -> (res: Result<CliOptions, CliError>)
    ensures
        ({
            let pos = positional_spec(texts(args@), false);
            let trials = if pos.len() > 1 {
                parse_unsigned_spec(pos[1], usize::MAX as int)
            } else {
                Ok::<int, IntError>(DEFAULT_TRIALS as int)
            };
            match trials {
                Err(e) => res == Err::<CliOptions, CliError>(CliError::Int(e)),
                Ok(n) => match res {
                    Ok(o) => {
                        &&& o.answer@ == if pos.len() > 0 {
                            pos[0]
                        } else {
                            DEFAULT_ANSWER@
                        }
                        &&& o.n_trials == n
                        &&& o.hard_mode == !has_arg(args@, "--easy-mode"@)
                        &&& o.verbose == (has_arg(args@, "--verbose"@) || has_arg(args@, "-v"@))
                        &&& seed_result(args@, clock_nanos, Ok(o.seed))
                    },
                    Err(e) => seed_result(args@, clock_nanos, Err(e)),
                },
            }
        }),
{
    let positionals = positional_args(args);
    proof {
        assert(texts(positionals@).len() == positionals@.len());
    }
    let answer = if positionals.len() > 0 {
        positionals[0].clone()
    } else {
        String::from_str(DEFAULT_ANSWER)
    };
    let n_trials = if positionals.len() > 1 {
        assert(texts(positionals@)[1] == positionals@[1]@);
        match parse_usize(positionals[1].as_str()) {
            Ok(n) => n,
            Err(e) => {
                return Err(CliError::Int(e));
            },
        }
    } else {
        DEFAULT_TRIALS
    };
    let hard_mode = !has_flag(args, "--easy-mode");
    let verbose = has_flag(args, "--verbose") || has_flag(args, "-v");
    let seed = match seed_from_args(args, clock_nanos) {
        Ok(seed) => seed,
        Err(e) => {
            return Err(e);
        },
    };
    proof {
        if positionals@.len() > 0 {
            assert(texts(positionals@)[0] == positionals@[0]@);
        }
    }
    Ok(CliOptions { answer, n_trials, hard_mode, verbose, seed })
}

} // verus!
