use tic_tac_toe::input::parse_move;

#[test]
fn parses_simple_pairs() {
    assert!(parse_move("1,2") == Some((1, 2)));
    assert!(parse_move("0,0") == Some((0, 0)));
    assert!(parse_move("12,34") == Some((12, 34)));
}

#[test]
fn leading_zeros_are_plain_decimal() {
    assert!(parse_move("007,3") == Some((7, 3)));
}

#[test]
fn rejects_missing_or_extra_parts() {
    assert!(parse_move("") == None);
    assert!(parse_move("1") == None);
    assert!(parse_move("1,") == None);
    assert!(parse_move(",1") == None);
    assert!(parse_move("1,2,3") == None);
    assert!(parse_move(",") == None);
}

#[test]
fn rejects_non_digits() {
    assert!(parse_move("a,2") == None);
    assert!(parse_move("1,b") == None);
    assert!(parse_move("1 ,2") == None);
    assert!(parse_move("1, 2") == None);
    assert!(parse_move("-1,2") == None);
    assert!(parse_move("+1,2") == None);
}

#[test]
fn rejects_numbers_beyond_the_machine_word() {
    assert!(parse_move("99999999999999999999999999,1") == None);
    assert!(parse_move("1,99999999999999999999999999") == None);
}

#[test]
fn parses_the_largest_machine_word() {
    let max = usize::MAX.to_string();
    let line = format!("{},{}", max, max);
    assert!(parse_move(&line) == Some((usize::MAX, usize::MAX)));
}
