use prime_prefix::argument::{count_from_args, parse_count, CountError};
use prime_prefix::generate::first_n_primes;

#[test]
fn count_plain_digits() {
    assert_eq!(parse_count("10"), Ok(10));
    assert_eq!(parse_count("1"), Ok(1));
    assert_eq!(parse_count("007"), Ok(7));
}

#[test]
fn count_with_plus_sign() {
    assert_eq!(parse_count("+42"), Ok(42));
}

#[test]
fn count_not_an_integer() {
    assert_eq!(parse_count("abc"), Err(CountError::NotAnInteger));
    assert_eq!(parse_count(""), Err(CountError::NotAnInteger));
    assert_eq!(parse_count("+"), Err(CountError::NotAnInteger));
    assert_eq!(parse_count("-3"), Err(CountError::NotAnInteger));
    assert_eq!(parse_count(" 5"), Err(CountError::NotAnInteger));
    assert_eq!(parse_count("5x"), Err(CountError::NotAnInteger));
    assert_eq!(parse_count("1.5"), Err(CountError::NotAnInteger));
    assert_eq!(parse_count("٣"), Err(CountError::NotAnInteger));
}

#[test]
fn count_zero_is_not_positive() {
    assert_eq!(parse_count("0"), Err(CountError::NotPositive));
    assert_eq!(parse_count("+000"), Err(CountError::NotPositive));
}

#[test]
fn count_at_the_limit() {
    let max = usize::MAX.to_string();
    assert_eq!(parse_count(&max), Ok(usize::MAX));
    let over = format!("{}0", max);
    assert_eq!(parse_count(&over), Err(CountError::NotAnInteger));
    let one_more = (usize::MAX as u128 + 1).to_string();
    assert_eq!(parse_count(&one_more), Err(CountError::NotAnInteger));
}

#[test]
fn count_agrees_with_std() {
    for text in ["0", "9", "+9", "12345", "-0", "++1", "1_000", "99999999999999999999999"] {
        let ours = parse_count(text);
        match text.parse::<usize>() {
            Ok(0) => assert_eq!(ours, Err(CountError::NotPositive)),
            Ok(v) => assert_eq!(ours, Ok(v)),
            Err(_) => assert_eq!(ours, Err(CountError::NotAnInteger)),
        }
    }
}

fn command_line(words: &[&str]) -> Vec<String> {
    words.iter().map(|w| w.to_string()).collect()
}

#[test]
fn args_without_count() {
    assert_eq!(count_from_args(&command_line(&["primes"])), Err(CountError::MissingArgument));
    assert_eq!(count_from_args(&Vec::new()), Err(CountError::MissingArgument));
}

#[test]
fn args_with_two_counts() {
    assert_eq!(
        count_from_args(&command_line(&["primes", "3", "4"])),
        Err(CountError::MissingArgument)
    );
}

#[test]
fn args_with_bad_count() {
    assert_eq!(count_from_args(&command_line(&["primes", "abc"])), Err(CountError::NotAnInteger));
    assert_eq!(count_from_args(&command_line(&["primes", "0"])), Err(CountError::NotPositive));
}

#[test]
fn args_ten_prints_ten_lines() {
    let n = count_from_args(&command_line(&["primes", "10"])).unwrap();
    let mut out = String::new();
    for p in first_n_primes(n) {
        out.push_str(&format!("{}\n", p));
    }
    assert_eq!(out, "2\n3\n5\n7\n11\n13\n17\n19\n23\n29\n");
}
