use protohackers::mob_in_the_middle::{rewrite_boguscoin_address, RewriteError, TONY_ADDRESS};

#[test]
fn test_rewrite() {
    let input = "Please send the payment of 750 Boguscoins to 7OchKZQaPhMmEqFozQONUv8eJTFH";
    let output = rewrite_boguscoin_address(input).unwrap();
    assert_eq!(
        "Please send the payment of 750 Boguscoins to 7YWHMfk9JZe0LM0g1ZauHuiSxhI",
        output,
    );

    let input = "7huzN5goJ9RzEPw2RXtHrJb1STG 76cxq1UBIH65j5MVMz8WbfoCe7mZyf22QN 7gMK6ZtnJe9jtvkk36pLii3VCr";
    let output = rewrite_boguscoin_address(input).unwrap();
    assert_eq!(
        output,
        "7YWHMfk9JZe0LM0g1ZauHuiSxhI 7YWHMfk9JZe0LM0g1ZauHuiSxhI 7YWHMfk9JZe0LM0g1ZauHuiSxhI",
    );

    let input = "7YIdMCoDobwYMNnKCuNY3jsHlVODM-MuuHTkrmzDvcqUZqRBiBCxjooXyqQEWK5IJ-1234";
    assert_eq!(input, rewrite_boguscoin_address(input).unwrap());
}

#[test]
fn address_before_a_line_feed() {
    assert_eq!(
        rewrite_boguscoin_address("pay 7F1u3wSD5RbOHQmupo9nx4TnhQ\n").unwrap(),
        "pay 7YWHMfk9JZe0LM0g1ZauHuiSxhI\n"
    );
    assert_eq!(rewrite_boguscoin_address("7F1u3wSD5RbOHQmupo9nx4TnhQ\n").unwrap(), format!("{}\n", TONY_ADDRESS));
}

#[test]
fn length_decides() {
    // 26 characters is the least, 35 the most.
    assert_eq!(rewrite_boguscoin_address("7aaaaaaaaaaaaaaaaaaaaaaaaa").unwrap(), TONY_ADDRESS);
    assert_eq!(
        rewrite_boguscoin_address("7aaaaaaaaaaaaaaaaaaaaaaaa").unwrap(),
        "7aaaaaaaaaaaaaaaaaaaaaaaa"
    );
    assert_eq!(rewrite_boguscoin_address("7aaaaaaaaaaaaaaaaaaaaaaaaaaaaaaaaaa").unwrap(), TONY_ADDRESS);
    assert_eq!(
        rewrite_boguscoin_address("7aaaaaaaaaaaaaaaaaaaaaaaaaaaaaaaaaaa").unwrap(),
        "7aaaaaaaaaaaaaaaaaaaaaaaaaaaaaaaaaaa"
    );
}

#[test]
fn text_without_an_address_stays() {
    assert_eq!(rewrite_boguscoin_address("").unwrap(), "");
    assert_eq!(rewrite_boguscoin_address("hello there\n").unwrap(), "hello there\n");
    assert_eq!(
        rewrite_boguscoin_address("x7F1u3wSD5RbOHQmupo9nx4TnhQ").unwrap(),
        "x7F1u3wSD5RbOHQmupo9nx4TnhQ"
    );
    assert_eq!(
        rewrite_boguscoin_address("8F1u3wSD5RbOHQmupo9nx4TnhQa").unwrap(),
        "8F1u3wSD5RbOHQmupo9nx4TnhQa"
    );
}

#[test]
fn search_that_is_given_up() {
    // Each of these looks like an address at first and is too long to be one.
    let line = " 7aaaaaaaaaaaaaaaaaaaaaaaaaaaaaaaaaaaaaaaaaaaaaaaaa".repeat(70_000);
    assert_eq!(rewrite_boguscoin_address(&line), Err(RewriteError::Expression));
}
