use seats::analysis::{collect_ids, Analysis};
use seats::error::ErrorKind;
use seats::seat::read_seats;
use seats::survey::survey;

fn lines_of(texts: &[&str]) -> Vec<Result<String, String>> {
    texts.iter().map(|t| Ok(t.to_string())).collect()
}

#[test]
fn every_line_becomes_a_seat() {
    let seats = read_seats(lines_of(&["FBFBBFFRLR", "BFFFBBFRRR", "FFFBBBFRRR", "BBFFBBFRLL"]))
        .unwrap();
    assert_eq!(collect_ids(&seats), vec![357, 567, 119, 820]);
    assert_eq!(seats[0].code(), "FBFBBFFRLR");
    assert_eq!(seats[3].code(), "BBFFBBFRLL");
}

#[test]
fn no_lines_give_no_seats() {
    let seats = read_seats(Vec::new()).unwrap();
    assert!(seats.is_empty());
}

#[test]
fn the_first_bad_line_ends_the_run() {
    let e = read_seats(lines_of(&["FBFBBFFRLR", "FBFBBFFRLx", "yBFBBFFRLR"])).unwrap_err();
    assert_eq!(e.kind, ErrorKind::Decode);
    assert_eq!(e.message, "x is an illegal character");
    let e = read_seats(lines_of(&["FBFBBFFRLRFF", "FBFBBFFRLx"])).unwrap_err();
    assert_eq!(e.message, "code is longer than 10 characters");
}

#[test]
fn a_line_that_could_not_be_read_is_reported() {
    let lines = vec![
        Ok("FBFBBFFRLR".to_string()),
        Err("stream did not contain valid UTF-8".to_string()),
        Ok("not a code".to_string()),
    ];
    let e = read_seats(lines).unwrap_err();
    assert_eq!(e.kind, ErrorKind::Io);
    assert_eq!(e.message, "bad line: stream did not contain valid UTF-8");
}

#[test]
fn an_undecodable_line_before_an_unreadable_one_wins() {
    let lines = vec![Ok("not a code".to_string()), Err("broken pipe".to_string())];
    let e = read_seats(lines).unwrap_err();
    assert_eq!(e.kind, ErrorKind::Decode);
    assert_eq!(e.message, "n is an illegal character");
}

#[test]
fn a_run_finds_the_three_ids() {
    let found = survey(lines_of(&["FFFFFFFLLR", "FFFFFFFLRL", "FFFFFFFRLL", "FFFFFFFRLR"]))
        .unwrap();
    assert_eq!(found, Analysis { lowest: 1, highest: 5, missing: 3 });
}

#[test]
fn a_run_does_not_depend_on_the_order_of_the_lines() {
    let a = survey(lines_of(&["FFFFFFFLLR", "FFFFFFFLRL", "FFFFFFFRLL", "FFFFFFFRLR"])).unwrap();
    let b = survey(lines_of(&["FFFFFFFRLR", "FFFFFFFLLR", "FFFFFFFRLL", "FFFFFFFLRL"])).unwrap();
    let c = survey(lines_of(&["FFFFFFFRLL", "FFFFFFFRLR", "FFFFFFFLRL", "FFFFFFFLLR"])).unwrap();
    assert_eq!(a, b);
    assert_eq!(a, c);
    let e1 = survey(lines_of(&["FFFFFFFLLR", "FFFFFFFLRL", "FFFFFFFLRR"])).unwrap_err();
    let e2 = survey(lines_of(&["FFFFFFFLRR", "FFFFFFFLLR", "FFFFFFFLRL"])).unwrap_err();
    assert_eq!(e1.kind, ErrorKind::Analysis);
    assert_eq!(e1.message, e2.message);
}

#[test]
fn a_run_fails_with_the_error_of_its_stage() {
    let e = survey(Vec::new()).unwrap_err();
    assert_eq!(e.kind, ErrorKind::Analysis);
    assert_eq!(e.message, "no seats to analyze");
    let e = survey(lines_of(&["FFFFFFFLLR", "FFFFFFFLRL"])).unwrap_err();
    assert_eq!(e.kind, ErrorKind::Analysis);
    assert_eq!(e.message, "no missing seat id found");
    let e = survey(lines_of(&["FFFFFFFLLR", "FFFFFFFL?L"])).unwrap_err();
    assert_eq!(e.kind, ErrorKind::Decode);
    assert_eq!(e.message, "? is an illegal character");
    let e = survey(vec![Err("unexpected end of file".to_string())]).unwrap_err();
    assert_eq!(e.kind, ErrorKind::Io);
    assert_eq!(e.message, "bad line: unexpected end of file");
}
