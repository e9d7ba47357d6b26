use protohackers::prime_time::{
    handle, is_integer_text, is_prime, remainder, Frame, HandleError, Request, Response,
};

#[test]
fn test_parse_frame() {
    let mut buffer = Vec::new();

    buffer.extend_from_slice(&b"{\"method\":\"isPrime\","[..]);
    assert!(Frame::parse(&buffer).is_none());

    buffer.extend_from_slice(&b"\"number\":1}\n"[..]);
    let (frame, _) = Frame::parse(&buffer).unwrap();
    assert_eq!(frame, Frame(b"{\"method\":\"isPrime\",\"number\":1}".to_vec()));
}

#[test]
fn parse_frame_takes_the_first_line() {
    assert_eq!(Frame::parse(b"one\ntwo\n"), Some((Frame(b"one".to_vec()), 4)));
    assert_eq!(Frame::parse(b"\nrest"), Some((Frame(vec![]), 1)));
    assert_eq!(Frame::parse(b""), None);
    assert_eq!(Frame::parse(b"no end"), None);
}

#[test]
fn test_is_prime() {
    assert!(!is_prime(b"1"));
    assert!(is_prime(b"2"));
    assert!(is_prime(b"3"));
    assert!(!is_prime(b"21"));
    assert!(is_prime(b"23"));
}

#[test]
fn primes_below_a_hundred() {
    let primes = [2, 3, 5, 7, 11, 13, 17, 19, 23, 29, 31, 37, 41, 43, 47, 53, 59, 61, 67, 71, 73, 79, 83, 89, 97];
    for n in 0..100 {
        let text = format!("{}", n);
        assert_eq!(is_prime(text.as_bytes()), primes.contains(&n), "{}", n);
    }
}

#[test]
fn numbers_that_are_not_positive() {
    assert!(!is_prime(b"0"));
    assert!(!is_prime(b"-0"));
    assert!(!is_prime(b"-1"));
    assert!(!is_prime(b"-2"));
    assert!(!is_prime(b"-3"));
    assert!(!is_prime(b"-7919"));
    assert!(!is_prime(b"000"));
}

#[test]
fn leading_zeros_do_not_count() {
    assert!(is_prime(b"0002"));
    assert!(is_prime(b"007"));
    assert!(!is_prime(b"0009"));
}

#[test]
fn larger_numbers() {
    assert!(is_prime(b"7919"));
    assert!(!is_prime(b"7917"));
    assert!(is_prime(b"104729"));
    assert!(!is_prime(b"1000000"));
    assert!(is_prime(b"2147483647"));
    assert!(!is_prime(b"2147483649"));
    assert!(!is_prime(b"4294967297"));
    assert!(!is_prime(b"25"));
    assert!(!is_prime(b"49"));
    assert!(!is_prime(b"10403"));
}

#[test]
fn test_handler_bigint() {
    let request = Request {
        method: "isPrime".to_string(),
        number: b"33373922058321534863170207542241913960201772570479492638113619".to_vec(),
    };
    assert_eq!(handle(&request), Ok(Response { method: "isPrime".to_string(), prime: false }));
}

#[test]
fn test_invalid_method() {
    let request = Request { method: "isPrime".to_string(), number: b"13".to_vec() };
    assert_eq!(handle(&request), Ok(Response { method: "isPrime".to_string(), prime: true }));
    let request = Request { method: "notPrime".to_string(), number: b"1".to_vec() };
    assert_eq!(handle(&request), Err(HandleError::InvalidMethod));
    let request = Request { method: "isprime".to_string(), number: b"13".to_vec() };
    assert_eq!(handle(&request), Err(HandleError::InvalidMethod));
    let request = Request { method: String::new(), number: b"13".to_vec() };
    assert_eq!(handle(&request), Err(HandleError::InvalidMethod));
}

#[test]
fn integer_text() {
    assert!(is_integer_text(b"0"));
    assert!(is_integer_text(b"-3"));
    assert!(is_integer_text(b"33373922058321534863170207542241913960201772570479492638113619"));
    assert!(!is_integer_text(b""));
    assert!(!is_integer_text(b"-"));
    assert!(!is_integer_text(b"+3"));
    assert!(!is_integer_text(b"1.5"));
    assert!(!is_integer_text(b"1e10"));
    assert!(!is_integer_text(b"--1"));
    assert!(!is_integer_text(b" 1"));
}

#[test]
fn remainder_of_long_numbers() {
    assert_eq!(remainder(b"0", 7), 0);
    assert_eq!(remainder(b"100", 7), 2);
    assert_eq!(
        remainder(b"123456789012345678901234567890", 97),
        (123456789012345678901234567890u128 % 97) as u64
    );
    assert_eq!(remainder(b"18446744073709551616", u64::MAX), 1);
    assert_eq!(remainder(b"340282366920938463463374607431768211455", 1 << 32), (1u64 << 32) - 1);
    assert_eq!(remainder(b"12345", 1), 0);
}
