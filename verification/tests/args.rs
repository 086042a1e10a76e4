use primeutils::args::{
  digit_of, first_dots, parse_arguments, parse_count, parse_factors, parse_gcd, parse_is_prime,
  parse_lcm, parse_number, parse_pair, parse_range, parse_single, same_text, ArgError, Arguments,
  Count, CountError, CountOption, Factors, IsPrime, NumberError, PairError, GCD, LCM,
};

fn list(args: &[&str]) -> Vec<String> {
  let mut out: Vec<String> = Vec::new();
  for a in args {
    out.push(String::from(*a));
  }
  out
}

#[test]
fn test_digit_of() {
  assert_eq!(digit_of('0'), Some(0));
  assert_eq!(digit_of('7'), Some(7));
  assert_eq!(digit_of('9'), Some(9));
  assert_eq!(digit_of('a'), None);
  assert_eq!(digit_of('/'), None);
  assert_eq!(digit_of(':'), None);
  assert_eq!(digit_of('٣'), None);
}

#[test]
fn test_parse_number() {
  assert_eq!(parse_number("0", u64::MAX), Some(0));
  assert_eq!(parse_number("42", u64::MAX), Some(42));
  assert_eq!(parse_number("+42", u64::MAX), Some(42));
  assert_eq!(parse_number("0042", u64::MAX), Some(42));
  assert_eq!(parse_number("18446744073709551615", u64::MAX), Some(u64::MAX));
  assert_eq!(parse_number("18446744073709551616", u64::MAX), None);
  assert_eq!(parse_number("99999999999999999999999", u64::MAX), None);
  assert_eq!(parse_number("255", 255), Some(255));
  assert_eq!(parse_number("256", 255), None);
  assert_eq!(parse_number("", u64::MAX), None);
  assert_eq!(parse_number("+", u64::MAX), None);
  assert_eq!(parse_number("-", u64::MAX), None);
  assert_eq!(parse_number("-5", u64::MAX), None);
  assert_eq!(parse_number("++5", u64::MAX), None);
  assert_eq!(parse_number("5+", u64::MAX), None);
  assert_eq!(parse_number("1 ", u64::MAX), None);
  assert_eq!(parse_number(" 1", u64::MAX), None);
  assert_eq!(parse_number("1_000", u64::MAX), None);
  assert_eq!(parse_number("12a", u64::MAX), None);
  assert_eq!(parse_number("٣", u64::MAX), None);
}

#[test]
fn test_parse_number_agrees_with_std() {
  let texts = [
    "0", "1", "+1", "-1", "", "+", "007", "4294967295", "4294967296", "18446744073709551615",
    "18446744073709551616", "1e3", "0x10", "12 ", "٣",
  ];
  for text in texts {
    assert_eq!(parse_number(text, u64::MAX), text.parse::<u64>().ok());
    assert_eq!(
      parse_number(text, u32::MAX as u64),
      text.parse::<u32>().ok().map(|n| n as u64)
    );
  }
}

#[test]
fn test_same_text_and_first_dots() {
  assert!(same_text("count", "count"));
  assert!(!same_text("count", "counts"));
  assert!(!same_text("count", "coumt"));
  assert!(same_text("", ""));
  assert_eq!(first_dots("10..20"), 2);
  assert_eq!(first_dots("..20"), 0);
  assert_eq!(first_dots("10.."), 2);
  assert_eq!(first_dots("10.20"), 5);
  assert_eq!(first_dots("1020"), 4);
  assert_eq!(first_dots(""), 0);
  assert_eq!(first_dots("."), 1);
  assert_eq!(first_dots("1...5"), 1);
}

#[test]
fn test_parse_range() {
  assert_eq!(parse_range("100"), Ok((None, 100)));
  assert_eq!(parse_range("5..100"), Ok((Some(5), 100)));
  assert_eq!(parse_range("7..7"), Ok((Some(7), 7)));
  assert_eq!(parse_range("8..7"), Err(CountError::StartAboveLimit));
  assert_eq!(parse_range("..100"), Err(CountError::InvalidStart));
  assert_eq!(parse_range("a..100"), Err(CountError::InvalidStart));
  assert_eq!(parse_range("5.."), Err(CountError::InvalidLimit));
  assert_eq!(parse_range("5..b"), Err(CountError::InvalidLimit));
  assert_eq!(parse_range("5...9"), Err(CountError::InvalidLimit));
  assert_eq!(parse_range("5....9"), Err(CountError::TooManyDelimiters));
  assert_eq!(parse_range("1..2..3"), Err(CountError::TooManyDelimiters));
  assert_eq!(parse_range("x..y..z"), Err(CountError::TooManyDelimiters));
  assert_eq!(parse_range("abc"), Err(CountError::InvalidLimit));
  assert_eq!(parse_range(""), Err(CountError::InvalidLimit));
  assert_eq!(parse_range("5.9"), Err(CountError::InvalidLimit));
}

#[test]
fn test_parse_count() {
  assert_eq!(
    parse_count(list(&["100"])),
    Ok(Count { count_limit: 100, count_start: None, threads: None, cache: None })
  );
  assert_eq!(
    parse_count(list(&["-t", "4", "10..100", "-s", "2"])),
    Ok(Count { count_limit: 100, count_start: Some(10), threads: Some(4), cache: Some(2) })
  );
  assert_eq!(
    parse_count(list(&["-s", "32768", "-t", "0", "0"])),
    Ok(Count { count_limit: 0, count_start: None, threads: Some(0), cache: Some(32768) })
  );
  // A value is taken as it stands, even where it looks like an option.
  assert_eq!(parse_count(list(&["-t", "-s", "5"])), Err(CountError::InvalidValue(CountOption::Threads)));
}

#[test]
fn test_parse_count_errors() {
  assert_eq!(parse_count(list(&[])), Err(CountError::LimitMissing));
  assert_eq!(parse_count(list(&["-t", "4"])), Err(CountError::LimitMissing));
  assert_eq!(
    parse_count(list(&["-t", "4", "-t", "5", "10"])),
    Err(CountError::AlreadySet(CountOption::Threads))
  );
  assert_eq!(
    parse_count(list(&["-s", "4", "10", "-s"])),
    Err(CountError::AlreadySet(CountOption::Cache))
  );
  assert_eq!(parse_count(list(&["10", "-t"])), Err(CountError::MissingValue(CountOption::Threads)));
  assert_eq!(parse_count(list(&["-s"])), Err(CountError::MissingValue(CountOption::Cache)));
  assert_eq!(parse_count(list(&["-t", "x", "10"])), Err(CountError::InvalidValue(CountOption::Threads)));
  assert_eq!(parse_count(list(&["-s", "", "10"])), Err(CountError::InvalidValue(CountOption::Cache)));
  assert_eq!(parse_count(list(&["10", "-x"])), Err(CountError::InvalidOption(1)));
  assert_eq!(parse_count(list(&["-5"])), Err(CountError::InvalidOption(0)));
  assert_eq!(parse_count(list(&["--t", "4", "10"])), Err(CountError::InvalidOption(0)));
  assert_eq!(parse_count(list(&["-"])), Err(CountError::InvalidOption(0)));
  assert_eq!(parse_count(list(&["10", "20"])), Err(CountError::LimitAlreadySet));
  assert_eq!(parse_count(list(&["10", "x"])), Err(CountError::LimitAlreadySet));
  assert_eq!(parse_count(list(&["1..2..3"])), Err(CountError::TooManyDelimiters));
  assert_eq!(parse_count(list(&["x..3"])), Err(CountError::InvalidStart));
  assert_eq!(parse_count(list(&["3..x"])), Err(CountError::InvalidLimit));
  assert_eq!(parse_count(list(&["x"])), Err(CountError::InvalidLimit));
  assert_eq!(parse_count(list(&["4..3"])), Err(CountError::StartAboveLimit));
  // The first fault in reading order is the one reported.
  assert_eq!(parse_count(list(&["x", "-t"])), Err(CountError::InvalidLimit));
}

#[test]
fn test_parse_single_number_commands() {
  assert_eq!(parse_is_prime(list(&["97"])), Ok(IsPrime { num: 97 }));
  assert_eq!(parse_factors(list(&["18446744073709551615"])), Ok(Factors { num: u64::MAX }));
  assert_eq!(parse_is_prime(list(&[])), Err(NumberError::Missing));
  assert_eq!(parse_factors(list(&[])), Err(NumberError::Missing));
  assert_eq!(parse_is_prime(list(&["x"])), Err(NumberError::Invalid));
  assert_eq!(parse_factors(list(&["18446744073709551616"])), Err(NumberError::Invalid));
  assert_eq!(parse_is_prime(list(&["1", "2"])), Err(NumberError::AlreadySet));
  assert_eq!(parse_factors(list(&["1", "x"])), Err(NumberError::AlreadySet));
  assert_eq!(parse_is_prime(list(&["x", "2"])), Err(NumberError::Invalid));
  assert_eq!(parse_single(&list(&["12"])), Ok(12));
}

#[test]
fn test_parse_pair_commands() {
  assert_eq!(parse_gcd(list(&["12", "18"])), Ok(GCD { x: 12, y: 18 }));
  assert_eq!(parse_lcm(list(&["0", "18446744073709551615"])), Ok(LCM { x: 0, y: u64::MAX }));
  assert_eq!(parse_gcd(list(&[])), Err(PairError::Missing));
  assert_eq!(parse_lcm(list(&["12"])), Err(PairError::SecondMissing));
  assert_eq!(parse_gcd(list(&["x"])), Err(PairError::Invalid));
  assert_eq!(parse_lcm(list(&["12", "x"])), Err(PairError::Invalid));
  assert_eq!(parse_gcd(list(&["12", "18", "24"])), Err(PairError::AlreadySet));
  assert_eq!(parse_lcm(list(&["12", "18", "x"])), Err(PairError::AlreadySet));
  assert_eq!(parse_gcd(list(&["12", "x", "24"])), Err(PairError::Invalid));
  assert_eq!(parse_pair(&list(&["3", "4"])), Ok((3, 4)));
}

#[test]
fn test_parse_arguments() {
  assert_eq!(parse_arguments(list(&[])), Ok(Arguments::Help));
  assert_eq!(parse_arguments(list(&["help"])), Ok(Arguments::Help));
  assert_eq!(parse_arguments(list(&["--help", "whatever"])), Ok(Arguments::Help));
  assert_eq!(parse_arguments(list(&["-h"])), Ok(Arguments::Help));
  assert_eq!(
    parse_arguments(list(&["count", "5..10", "-t", "2"])),
    Ok(Arguments::Count(Count { count_limit: 10, count_start: Some(5), threads: Some(2), cache: None }))
  );
  assert_eq!(parse_arguments(list(&["is_prime", "7"])), Ok(Arguments::IsPrime(IsPrime { num: 7 })));
  assert_eq!(parse_arguments(list(&["factors", "12"])), Ok(Arguments::Factors(Factors { num: 12 })));
  assert_eq!(parse_arguments(list(&["gcd", "4", "6"])), Ok(Arguments::GCD(GCD { x: 4, y: 6 })));
  assert_eq!(parse_arguments(list(&["lcm", "4", "6"])), Ok(Arguments::LCM(LCM { x: 4, y: 6 })));
}

#[test]
fn test_parse_arguments_errors() {
  assert_eq!(parse_arguments(list(&["primes"])), Err(ArgError::CommandNotFound));
  assert_eq!(parse_arguments(list(&[""])), Err(ArgError::CommandNotFound));
  assert_eq!(parse_arguments(list(&["Count", "10"])), Err(ArgError::CommandNotFound));
  assert_eq!(parse_arguments(list(&["count"])), Err(ArgError::Count(CountError::LimitMissing)));
  assert_eq!(
    parse_arguments(list(&["count", "10", "-q"])),
    Err(ArgError::Count(CountError::InvalidOption(1)))
  );
  assert_eq!(parse_arguments(list(&["is_prime"])), Err(ArgError::IsPrime(NumberError::Missing)));
  assert_eq!(parse_arguments(list(&["factors", "x"])), Err(ArgError::Factors(NumberError::Invalid)));
  assert_eq!(parse_arguments(list(&["gcd", "1"])), Err(ArgError::Gcd(PairError::SecondMissing)));
  assert_eq!(parse_arguments(list(&["lcm", "1", "2", "3"])), Err(ArgError::Lcm(PairError::AlreadySet)));
}
