//! The command line: which command is asked for and with what numbers.
//! Arguments are read as texts, one per argument, in their order.

use vstd::prelude::*;
use vstd::string::StrSliceExecFns;

verus! {

/// Whether `c` is one of the ten decimal digits.
pub open spec fn is_digit(c: char) -> bool {
    '0' <= c <= '9'
}

/// Whether every character of `text` is a decimal digit.
pub open spec fn all_digits(text: Seq<char>) -> bool {
    forall|i: int| 0 <= i < text.len() ==> is_digit(#[trigger] text[i])
}

/// The number that the digits of `text` write in base ten.
pub open spec fn digits_value(text: Seq<char>) -> nat
    decreases text.len(),
{
    if text.len() == 0 {
        0
    } else {
        (digits_value(text.drop_last()) * 10 + (text.last() as int - '0' as int)) as nat
    }
}

/// `text` without the plus sign that may stand before a number.
pub open spec fn unsigned(text: Seq<char>) -> Seq<char> {
    if text.len() > 0 && text[0] == '+' {
        text.skip(1)
    } else {
        text
    }
}

/// The number that `text` writes, if it writes one that is at most `max`:
/// one or more decimal digits, with or without a plus sign before them.
pub open spec fn number(text: Seq<char>, max: int) -> Option<int> {
    let digits = unsigned(text);
    if digits.len() > 0 && all_digits(digits) && digits_value(digits) <= max {
        Some(digits_value(digits) as int)
    } else {
        None
    }
}

/// A number grows with every digit written after it.
pub proof fn lemma_digits_value_grows(text: Seq<char>, k: int)
    requires
        all_digits(text),
        0 <= k <= text.len(),
    ensures
        digits_value(text.take(k)) <= digits_value(text),
    decreases text.len() - k,
{
    if k < text.len() {
        lemma_digits_value_grows(text, k + 1);
        assert(text.take(k + 1).drop_last() == text.take(k));
        assert(is_digit(text[k]));
    } else {
        assert(text.take(k) == text);
    }
}

/// The value of a decimal digit, or `None` for any other character.
pub fn digit_of(c: char) -> (value: Option<u64>)
    ensures
        value is Some == is_digit(c),
        value matches Some(d) ==> d == c as int - '0' as int,
{
    match c {
        '0' => Some(0),
        '1' => Some(1),
        '2' => Some(2),
        '3' => Some(3),
        '4' => Some(4),
        '5' => Some(5),
        '6' => Some(6),
        '7' => Some(7),
        '8' => Some(8),
        '9' => Some(9),
        _ => None,
    }
}

/// Reads `text` as a decimal number of at most `max`.
pub fn parse_number(text: &str, max: u64) -> (value: Option<u64>)
    ensures
        value matches Some(v) ==> number(text@, max as int) == Some(v as int),
        value is None ==> number(text@, max as int) is None,
{
    let len = text.unicode_len();
    let first: usize = if len > 0 && text.get_char(0) == '+' {
        1
    } else {
        0
    };
    if first == len {
        return None;
    }
    let ghost digits = unsigned(text@);
    let mut value: u64 = 0;
    let mut i: usize = first;
    while i < len
        invariant
            first <= i <= len,
            len == text@.len(),
            digits == text@.skip(first as int),
            digits == unsigned(text@),
            all_digits(digits.take(i - first)),
            value == digits_value(digits.take(i - first)),
            value <= max,
        decreases len - i,
    {
        let c = text.get_char(i);
        let ghost seen = digits.take(i - first);
        let ghost more = digits.take(i + 1 - first);
        proof {
            assert(more.drop_last() == seen);
            assert(more.last() == c);
        }
        match digit_of(c) {
            None => {
                proof {
                    assert(!is_digit(digits[i - first]));
                }
                return None;
            },
            Some(d) => {
                proof {
                    assert forall|j: int| 0 <= j < more.len() implies is_digit(
                        #[trigger] more[j],
                    ) by {
                        if j < seen.len() {
                            assert(seen[j] == more[j]);
                        }
                    }
                }
                if d > max || value > (max - d) / 10 {
                    proof {
                        assert(digits_value(more) > max);
                        if all_digits(digits) {
                            lemma_digits_value_grows(digits, i + 1 - first);
                        }
                    }
                    return None;
                }
                value = value * 10 + d;
            },
        }
        i += 1;
    }
    proof {
        assert(digits.take(len - first) == digits);
    }
    Some(value)
}

/// The texts of a list of arguments.
pub open spec fn texts(args: Seq<String>) -> Seq<Seq<char>> {
    Seq::new(args.len(), |i: int| args[i]@)
}

/// Whether two texts are the same.
pub fn same_text(a: &str, b: &str) -> (same: bool)
    ensures
        same == (a@ == b@),
{
    let len = a.unicode_len();
    if b.unicode_len() != len {
        return false;
    }
    let mut i: usize = 0;
    while i < len
        invariant
            i <= len,
            len == a@.len(),
            len == b@.len(),
            forall|j: int| 0 <= j < i ==> a@[j] == b@[j],
        decreases len - i,
    {
        if a.get_char(i) != b.get_char(i) {
            return false;
        }
        i += 1;
    }
    assert(a@ =~= b@);
    true
}

/// Whether two dots stand at `at` and `at + 1` in `text`.
pub open spec fn dots_at(text: Seq<char>, at: int) -> bool {
    0 <= at && at + 1 < text.len() && text[at] == '.' && text[at + 1] == '.'
}

/// Where the first pair of dots at or after `from` starts in `text`, or the
/// length of `text` where there is none.
pub open spec fn find_dots(text: Seq<char>, from: int) -> int
    decreases text.len() - from,
{
    if from < 0 || from + 1 >= text.len() {
        text.len() as int
    } else if dots_at(text, from) {
        from
    } else {
        find_dots(text, from + 1)
    }
}

/// Finds the first pair of dots in `text`.
pub fn first_dots(text: &str) -> (at: usize)
    ensures
        at == find_dots(text@, 0),
        at <= text@.len(),
        at < text@.len() ==> at + 2 <= text@.len(),
{
    let len = text.unicode_len();
    let mut i: usize = 0;
    while len - i > 1
        invariant
            len == text@.len(),
            i <= len,
            find_dots(text@, 0) == find_dots(text@, i as int),
        decreases len - i,
    {
        if text.get_char(i) == '.' && text.get_char(i + 1) == '.' {
            return i;
        }
        i += 1;
    }
    len
}

/// One of the two options of the count command.
#[derive(Clone, Copy, Debug, PartialEq, Eq)]
pub enum CountOption {
    /// `-t`: how many threads are to sieve.
    Threads,
    /// `-s`: how much cache a sieve is to use.
    Cache,
}

/// Why the arguments of the count command are refused.
#[derive(Clone, Copy, Debug, PartialEq, Eq)]
pub enum CountError {
    /// The option is given a second time.
    AlreadySet(CountOption),
    /// The option is the last argument and has no value.
    MissingValue(CountOption),
    /// The option's value is no number.
    InvalidValue(CountOption),
    /// The argument at this place begins with a dash and is no option.
    InvalidOption(usize),
    /// A second range or limit is given.
    LimitAlreadySet,
    /// The range holds more than one pair of dots.
    TooManyDelimiters,
    /// What stands before the dots is no number.
    InvalidStart,
    /// The limit is no number.
    InvalidLimit,
    /// The start is above the limit.
    StartAboveLimit,
    /// No range or limit is given.
    LimitMissing,
}

/// Why the argument of a command that takes one number is refused.
#[derive(Clone, Copy, Debug, PartialEq, Eq)]
pub enum NumberError {
    /// A second argument is given.
    AlreadySet,
    /// The argument is no number.
    Invalid,
    /// No argument is given.
    Missing,
}

/// Why the arguments of a command that takes two numbers are refused.
#[derive(Clone, Copy, Debug, PartialEq, Eq)]
pub enum PairError {
    /// A third argument is given.
    AlreadySet,
    /// One of the two arguments is no number.
    Invalid,
    /// No argument is given.
    Missing,
    /// Only one argument is given.
    SecondMissing,
}

/// Why a command line is refused.
#[derive(Clone, Copy, Debug, PartialEq, Eq)]
pub enum ArgError {
    Count(CountError),
    IsPrime(NumberError),
    Factors(NumberError),
    Gcd(PairError),
    Lcm(PairError),
    /// The first argument names no command.
    CommandNotFound,
}

/// Count the primes from `count_start`, or from 2, up to `count_limit`.
#[derive(Clone, Copy, Debug, PartialEq, Eq)]
pub struct Count {
    pub count_limit: usize,
    pub count_start: Option<usize>,
    pub threads: Option<usize>,
    pub cache: Option<usize>,
}

/// Check whether `num` is prime.
#[derive(Clone, Copy, Debug, PartialEq, Eq)]
pub struct IsPrime {
    pub num: u64,
}

/// Split `num` into its prime factors.
#[derive(Clone, Copy, Debug, PartialEq, Eq)]
pub struct Factors {
    pub num: u64,
}

/// The greatest common divisor of `x` and `y`.
#[derive(Clone, Copy, Debug, PartialEq, Eq)]
pub struct GCD {
    pub x: u64,
    pub y: u64,
}

/// The least common multiple of `x` and `y`.
#[derive(Clone, Copy, Debug, PartialEq, Eq)]
pub struct LCM {
    pub x: u64,
    pub y: u64,
}

/// What a command line asks for.
#[derive(Clone, Copy, Debug, PartialEq, Eq)]
pub enum Arguments {
    Help,
    Count(Count),
    IsPrime(IsPrime),
    Factors(Factors),
    GCD(GCD),
    LCM(LCM),
}

/// What the arguments of the count command have set so far.
#[derive(Clone, Copy, Debug, PartialEq, Eq)]
pub struct CountState {
    pub limit: Option<usize>,
    pub start: Option<usize>,
    pub threads: Option<usize>,
    pub cache: Option<usize>,
}

/// The start, if any, and the limit that one argument gives: a limit alone,
/// or a start and a limit with a pair of dots between them.
pub open spec fn range_of(text: Seq<char>) -> Result<(Option<usize>, usize), CountError> {
    let at = find_dots(text, 0);
    if at >= text.len() {
        match number(text, usize::MAX as int) {
            Some(limit) => Ok((None, limit as usize)),
            None => Err(CountError::InvalidLimit),
        }
    } else {
        let rest = text.skip(at + 2);
        if find_dots(rest, 0) < rest.len() {
            Err(CountError::TooManyDelimiters)
        } else {
            match number(text.take(at), usize::MAX as int) {
                None => Err(CountError::InvalidStart),
                Some(start) => match number(rest, usize::MAX as int) {
                    None => Err(CountError::InvalidLimit),
                    Some(limit) => if start > limit {
                        Err(CountError::StartAboveLimit)
                    } else {
                        Ok((Some(start as usize), limit as usize))
                    },
                },
            }
        }
    }
}

/// Reads an argument as a limit or as a range.
pub fn parse_range(text: &str) -> (range: Result<(Option<usize>, usize), CountError>)
    ensures
        range == range_of(text@),
{
    let len = text.unicode_len();
    let at = first_dots(text);
    if at >= len {
        return match parse_number(text, usize::MAX as u64) {
            Some(limit) => Ok((None, limit as usize)),
            None => Err(CountError::InvalidLimit),
        };
    }
    let rest = text.substring_char(at + 2, len);
    assert(rest@ == text@.skip(at + 2));
    if first_dots(rest) < rest.unicode_len() {
        return Err(CountError::TooManyDelimiters);
    }
    let before = text.substring_char(0, at);
    assert(before@ == text@.take(at as int));
    match parse_number(before, usize::MAX as u64) {
        None => Err(CountError::InvalidStart),
        Some(start) => match parse_number(rest, usize::MAX as u64) {
            None => Err(CountError::InvalidLimit),
            Some(limit) => if start > limit {
                Err(CountError::StartAboveLimit)
            } else {
                Ok((Some(start as usize), limit as usize))
            },
        },
    }
}

/// What the arguments from place `at` on make of `state`: each `-t` and
/// `-s` takes the argument after it as its value, any other argument that
/// begins with a dash is refused, and the one that is left is the limit or
/// the range.
pub open spec fn count_state(args: Seq<Seq<char>>, at: int, state: CountState) -> Result<
    CountState,
    CountError,
>
    decreases args.len() - at,
{
    if at < 0 || at >= args.len() {
        Ok(state)
    } else if args[at] == "-t"@ {
        if state.threads is Some {
            Err(CountError::AlreadySet(CountOption::Threads))
        } else if at + 1 >= args.len() {
            Err(CountError::MissingValue(CountOption::Threads))
        } else {
            match number(args[at + 1], usize::MAX as int) {
                None => Err(CountError::InvalidValue(CountOption::Threads)),
                Some(n) => count_state(
                    args,
                    at + 2,
                    CountState { threads: Some(n as usize), ..state },
                ),
            }
        }
    } else if args[at] == "-s"@ {
        if state.cache is Some {
            Err(CountError::AlreadySet(CountOption::Cache))
        } else if at + 1 >= args.len() {
            Err(CountError::MissingValue(CountOption::Cache))
        } else {
            match number(args[at + 1], usize::MAX as int) {
                None => Err(CountError::InvalidValue(CountOption::Cache)),
                Some(n) => count_state(
                    args,
                    at + 2,
                    CountState { cache: Some(n as usize), ..state },
                ),
            }
        }
    } else if args[at].len() > 0 && args[at][0] == '-' {
        Err(CountError::InvalidOption(at as usize))
    } else if state.limit is Some {
        Err(CountError::LimitAlreadySet)
    } else {
        match range_of(args[at]) {
            Err(e) => Err(e),
            Ok((start, limit)) => count_state(
                args,
                at + 1,
                CountState { limit: Some(limit), start: start, ..state },
            ),
        }
    }
}

/// What the arguments of the count command ask for.
pub open spec fn count_of(args: Seq<Seq<char>>) -> Result<Count, CountError> {
    let unset = CountState { limit: None, start: None, threads: None, cache: None };
    match count_state(args, 0, unset) {
        Err(e) => Err(e),
        Ok(state) => match state.limit {
            None => Err(CountError::LimitMissing),
            Some(limit) => Ok(
                Count {
                    count_limit: limit,
                    count_start: state.start,
                    threads: state.threads,
                    cache: state.cache,
                },
            ),
        },
    }
}

/// Reads the arguments of the count command.
pub fn parse_count(args: Vec<String>) -> (count: Result<Count, CountError>)
    ensures
        count == count_of(texts(args@)),
{
    let ghost all = texts(args@);
    let ghost unset = CountState { limit: None, start: None, threads: None, cache: None };
    let mut state = CountState { limit: None, start: None, threads: None, cache: None };
    let mut i: usize = 0;
    while i < args.len()
        invariant
            all == texts(args@),
            i <= args.len(),
            unset == (CountState { limit: None, start: None, threads: None, cache: None }),
            count_state(all, 0, unset) == count_state(all, i as int, state),
        decreases args.len() - i,
    {
        let arg: &str = args[i].as_str();
        assert(arg@ == all[i as int]);
        if same_text(arg, "-t") {
            if state.threads.is_some() {
                return Err(CountError::AlreadySet(CountOption::Threads));
            }
            if i + 1 >= args.len() {
                return Err(CountError::MissingValue(CountOption::Threads));
            }
            assert(args[i + 1]@ == all[i + 1]);
            match parse_number(args[i + 1].as_str(), usize::MAX as u64) {
                None => {
                    return Err(CountError::InvalidValue(CountOption::Threads));
                },
                Some(n) => {
                    state.threads = Some(n as usize);
                },
            }
            i += 1;
        } else if same_text(arg, "-s") {
            if state.cache.is_some() {
                return Err(CountError::AlreadySet(CountOption::Cache));
            }
            if i + 1 >= args.len() {
                return Err(CountError::MissingValue(CountOption::Cache));
            }
            assert(args[i + 1]@ == all[i + 1]);
            match parse_number(args[i + 1].as_str(), usize::MAX as u64) {
                None => {
                    return Err(CountError::InvalidValue(CountOption::Cache));
                },
                Some(n) => {
                    state.cache = Some(n as usize);
                },
            }
            i += 1;
        } else if arg.unicode_len() > 0 && arg.get_char(0) == '-' {
            return Err(CountError::InvalidOption(i));
        } else {
            if state.limit.is_some() {
                return Err(CountError::LimitAlreadySet);
            }
            match parse_range(arg) {
                Err(e) => {
                    return Err(e);
                },
                Ok((start, limit)) => {
                    state.limit = Some(limit);
                    state.start = start;
                },
            }
        }
        i += 1;
    }
    match state.limit {
        None => Err(CountError::LimitMissing),
        Some(limit) => Ok(
            Count {
                count_limit: limit,
                count_start: state.start,
                threads: state.threads,
                cache: state.cache,
            },
        ),
    }
}

/// What the arguments of a command that takes one number ask for: the
/// number that the one argument writes.
pub open spec fn single_number(args: Seq<Seq<char>>) -> Result<u64, NumberError> {
    if args.len() == 0 {
        Err(NumberError::Missing)
    } else {
        match number(args[0], u64::MAX as int) {
            None => Err(NumberError::Invalid),
            Some(n) => if args.len() > 1 {
                Err(NumberError::AlreadySet)
            } else {
                Ok(n as u64)
            },
        }
    }
}

/// What the arguments of a command that takes two numbers ask for: the
/// numbers that the two arguments write.
pub open spec fn number_pair(args: Seq<Seq<char>>) -> Result<(u64, u64), PairError> {
    if args.len() == 0 {
        Err(PairError::Missing)
    } else {
        match number(args[0], u64::MAX as int) {
            None => Err(PairError::Invalid),
            Some(x) => if args.len() == 1 {
                Err(PairError::SecondMissing)
            } else {
                match number(args[1], u64::MAX as int) {
                    None => Err(PairError::Invalid),
                    Some(y) => if args.len() > 2 {
                        Err(PairError::AlreadySet)
                    } else {
                        Ok((x as u64, y as u64))
                    },
                }
            },
        }
    }
}

/// Reads the one number that a command takes.
pub fn parse_single(args: &Vec<String>) -> (num: Result<u64, NumberError>)
    ensures
        num == single_number(texts(args@)),
{
    let mut num: Option<u64> = None;
    let mut i: usize = 0;
    while i < args.len()
        invariant
            i <= args.len(),
            i <= 1,
            i == 0 ==> num is None,
            i == 1 ==> (num matches Some(n) && number(texts(args@)[0], u64::MAX as int) == Some(
                n as int,
            )),
        decreases args.len() - i,
    {
        if num.is_some() {
            return Err(NumberError::AlreadySet);
        }
        assert(args[i as int]@ == texts(args@)[i as int]);
        match parse_number(args[i].as_str(), u64::MAX) {
            None => {
                return Err(NumberError::Invalid);
            },
            Some(n) => {
                num = Some(n);
            },
        }
        i += 1;
    }
    match num {
        None => Err(NumberError::Missing),
        Some(n) => Ok(n),
    }
}

/// Reads the two numbers that a command takes.
pub fn parse_pair(args: &Vec<String>) -> (pair: Result<(u64, u64), PairError>)
    ensures
        pair == number_pair(texts(args@)),
{
    let mut x: Option<u64> = None;
    let mut y: Option<u64> = None;
    let mut i: usize = 0;
    while i < args.len()
        invariant
            i <= args.len(),
            i <= 2,
            i == 0 ==> x is None && y is None,
            i >= 1 ==> (x matches Some(n) && number(texts(args@)[0], u64::MAX as int) == Some(
                n as int,
            )),
            i == 1 ==> y is None,
            i == 2 ==> (y matches Some(n) && number(texts(args@)[1], u64::MAX as int) == Some(
                n as int,
            )),
        decreases args.len() - i,
    {
        if x.is_some() && y.is_some() {
            return Err(PairError::AlreadySet);
        }
        assert(args[i as int]@ == texts(args@)[i as int]);
        match parse_number(args[i].as_str(), u64::MAX) {
            None => {
                return Err(PairError::Invalid);
            },
            Some(n) => {
                if x.is_none() {
                    x = Some(n);
                } else {
                    y = Some(n);
                }
            },
        }
        i += 1;
    }
    match (x, y) {
        (None, _) => Err(PairError::Missing),
        (Some(_), None) => Err(PairError::SecondMissing),
        (Some(a), Some(b)) => Ok((a, b)),
    }
}

/// Reads the argument of the `is_prime` command.
pub fn parse_is_prime(args: Vec<String>) -> (check: Result<IsPrime, NumberError>)
    ensures
        match check {
            Ok(is) => single_number(texts(args@)) == Ok::<u64, NumberError>(is.num),
            Err(e) => single_number(texts(args@)) == Err::<u64, NumberError>(e),
        },
{
    match parse_single(&args) {
        Ok(num) => Ok(IsPrime { num }),
        Err(e) => Err(e),
    }
}

/// Reads the argument of the `factors` command.
pub fn parse_factors(args: Vec<String>) -> (split: Result<Factors, NumberError>)
    ensures
        match split {
            Ok(fac) => single_number(texts(args@)) == Ok::<u64, NumberError>(fac.num),
            Err(e) => single_number(texts(args@)) == Err::<u64, NumberError>(e),
        },
{
    match parse_single(&args) {
        Ok(num) => Ok(Factors { num }),
        Err(e) => Err(e),
    }
}

/// Reads the arguments of the `gcd` command.
pub fn parse_gcd(args: Vec<String>) -> (pair: Result<GCD, PairError>)
    ensures
        match pair {
            Ok(gcd) => number_pair(texts(args@)) == Ok::<(u64, u64), PairError>((gcd.x, gcd.y)),
            Err(e) => number_pair(texts(args@)) == Err::<(u64, u64), PairError>(e),
        },
{
    match parse_pair(&args) {
        Ok((x, y)) => Ok(GCD { x, y }),
        Err(e) => Err(e),
    }
}

/// Reads the arguments of the `lcm` command.
pub fn parse_lcm(args: Vec<String>) -> (pair: Result<LCM, PairError>)
    ensures
        match pair {
            Ok(lcm) => number_pair(texts(args@)) == Ok::<(u64, u64), PairError>((lcm.x, lcm.y)),
            Err(e) => number_pair(texts(args@)) == Err::<(u64, u64), PairError>(e),
        },
{
    match parse_pair(&args) {
        Ok((x, y)) => Ok(LCM { x, y }),
        Err(e) => Err(e),
    }
}

/// What a command line asks for: help where it is empty or asks for it, and
/// otherwise what the arguments after the command's name say to the command.
pub open spec fn arguments_of(args: Seq<Seq<char>>) -> Result<Arguments, ArgError> {
    if args.len() == 0 {
        Ok(Arguments::Help)
    } else {
        let command = args[0];
        let rest = args.skip(1);
        if command == "help"@ || command == "--help"@ || command == "-h"@ {
            Ok(Arguments::Help)
        } else if command == "count"@ {
            match count_of(rest) {
                Ok(count) => Ok(Arguments::Count(count)),
                Err(e) => Err(ArgError::Count(e)),
            }
        } else if command == "is_prime"@ {
            match single_number(rest) {
                Ok(num) => Ok(Arguments::IsPrime(IsPrime { num })),
                Err(e) => Err(ArgError::IsPrime(e)),
            }
        } else if command == "factors"@ {
            match single_number(rest) {
                Ok(num) => Ok(Arguments::Factors(Factors { num })),
                Err(e) => Err(ArgError::Factors(e)),
            }
        } else if command == "gcd"@ {
            match number_pair(rest) {
                Ok((x, y)) => Ok(Arguments::GCD(GCD { x, y })),
                Err(e) => Err(ArgError::Gcd(e)),
            }
        } else if command == "lcm"@ {
            match number_pair(rest) {
                Ok((x, y)) => Ok(Arguments::LCM(LCM { x, y })),
                Err(e) => Err(ArgError::Lcm(e)),
            }
        } else {
            Err(ArgError::CommandNotFound)
        }
    }
}

/// Reads a command line: the command's name and its arguments.
pub fn parse_arguments(args: Vec<String>) -> (parsed: Result<Arguments, ArgError>)
    ensures
        parsed == arguments_of(texts(args@)),
{
    let ghost all = texts(args@);
    let mut args = args;
    if args.len() == 0 {
        return Ok(Arguments::Help);
    }
    let command: String = args.remove(0);
    assert(command@ == all[0]);
    assert(texts(args@) =~= all.skip(1));
    let name: &str = command.as_str();
    if same_text(name, "help") || same_text(name, "--help") || same_text(name, "-h") {
        Ok(Arguments::Help)
    } else if same_text(name, "count") {
        match parse_count(args) {
            Ok(count) => Ok(Arguments::Count(count)),
            Err(e) => Err(ArgError::Count(e)),
        }
    } else if same_text(name, "is_prime") {
        match parse_is_prime(args) {
            Ok(is) => Ok(Arguments::IsPrime(is)),
            Err(e) => Err(ArgError::IsPrime(e)),
        }
    } else if same_text(name, "factors") {
        match parse_factors(args) {
            Ok(fac) => Ok(Arguments::Factors(fac)),
            Err(e) => Err(ArgError::Factors(e)),
        }
    } else if same_text(name, "gcd") {
        match parse_gcd(args) {
            Ok(gcd) => Ok(Arguments::GCD(gcd)),
            Err(e) => Err(ArgError::Gcd(e)),
        }
    } else if same_text(name, "lcm") {
        match parse_lcm(args) {
            Ok(lcm) => Ok(Arguments::LCM(lcm)),
            Err(e) => Err(ArgError::Lcm(e)),
        }
    } else {
        Err(ArgError::CommandNotFound)
    }
}

} // verus!
