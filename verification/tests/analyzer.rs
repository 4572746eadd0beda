use seats::analysis::{analyze, analyze_sorted, collect_ids, sort_ids, Analysis};
use seats::error::ErrorKind;
use seats::seat::Seat;

fn code_of(id: u32) -> String {
    let mut code = String::new();
    for i in 0..10 {
        let set = (id >> (9 - i)) & 1 == 1;
        code.push(match (i < 7, set) {
            (true, false) => 'F',
            (true, true) => 'B',
            (false, false) => 'L',
            (false, true) => 'R',
        });
    }
    code
}

fn seats_of(ids: &[u32]) -> Vec<Seat> {
    ids.iter().map(|id| Seat::new_for_code(code_of(*id)).unwrap()).collect()
}

#[test]
fn the_gap_between_lowest_and_highest_is_found() {
    let seats = seats_of(&[1, 2, 4, 5]);
    let found = analyze(&seats).unwrap();
    assert_eq!(found.lowest, 1);
    assert_eq!(found.highest, 5);
    assert_eq!(found.missing, 3);
    assert_eq!(found, Analysis { lowest: 1, highest: 5, missing: 3 });
}

#[test]
fn a_range_without_a_gap_is_reported() {
    let seats = seats_of(&[1, 2, 3]);
    let e = analyze(&seats).unwrap_err();
    assert_eq!(e.kind, ErrorKind::Analysis);
    assert_eq!(e.message, "no missing seat id found");
}

#[test]
fn a_single_seat_has_no_gap() {
    let seats = seats_of(&[77]);
    let e = analyze(&seats).unwrap_err();
    assert_eq!(e.kind, ErrorKind::Analysis);
    assert_eq!(e.message, "no missing seat id found");
}

#[test]
fn an_empty_collection_is_reported() {
    let seats: Vec<Seat> = Vec::new();
    let e = analyze(&seats).unwrap_err();
    assert_eq!(e.kind, ErrorKind::Analysis);
    assert_eq!(e.message, "no seats to analyze");
    let e = analyze_sorted(&Vec::new()).unwrap_err();
    assert_eq!(e.kind, ErrorKind::Analysis);
    assert_eq!(e.message, "no seats to analyze");
}

#[test]
fn the_order_of_the_seats_does_not_matter() {
    let expected = Analysis { lowest: 1, highest: 5, missing: 3 };
    let orders: [[u32; 4]; 6] =
        [[1, 2, 4, 5], [5, 4, 2, 1], [2, 5, 1, 4], [4, 1, 5, 2], [5, 1, 4, 2], [2, 1, 5, 4]];
    for order in orders {
        assert_eq!(analyze(&seats_of(&order)).unwrap(), expected);
    }
    assert!(analyze(&seats_of(&[3, 1, 2])).is_err());
    assert!(analyze(&seats_of(&[2, 3, 1])).is_err());
}

#[test]
fn the_analysis_leaves_the_seats_as_they_were() {
    let seats = seats_of(&[5, 1, 4, 2]);
    analyze(&seats).unwrap();
    assert_eq!(collect_ids(&seats), vec![5, 1, 4, 2]);
}

#[test]
fn the_extremes_of_the_id_range_are_handled() {
    let seats = seats_of(&[1023, 0]);
    assert_eq!(analyze(&seats).unwrap(), Analysis { lowest: 0, highest: 1023, missing: 1 });
    let all_but_one: Vec<u32> = (0..1024).filter(|id| *id != 1022).rev().collect();
    assert_eq!(
        analyze(&seats_of(&all_but_one)).unwrap(),
        Analysis { lowest: 0, highest: 1023, missing: 1022 }
    );
    let all: Vec<u32> = (0..1024).collect();
    assert!(analyze(&seats_of(&all)).is_err());
}

#[test]
fn of_several_gaps_the_first_is_found() {
    let seats = seats_of(&[9, 1, 7, 3, 5]);
    assert_eq!(analyze(&seats).unwrap(), Analysis { lowest: 1, highest: 9, missing: 2 });
}

#[test]
fn a_repeated_id_shifts_the_places_after_it() {
    assert_eq!(
        analyze(&seats_of(&[1, 2, 1])).unwrap(),
        Analysis { lowest: 1, highest: 2, missing: 2 }
    );
    let e = analyze(&seats_of(&[4, 4])).unwrap_err();
    assert_eq!(e.message, "no missing seat id found");
    assert_eq!(
        analyze(&seats_of(&[1, 2, 2, 3])).unwrap(),
        Analysis { lowest: 1, highest: 3, missing: 3 }
    );
}

#[test]
fn ids_are_put_in_ascending_order() {
    let mut ids = vec![5, 3, 9, 1, 3, 0, 1023, 7];
    sort_ids(&mut ids);
    assert_eq!(ids, vec![0, 1, 3, 3, 5, 7, 9, 1023]);
    let mut ids: Vec<u32> = Vec::new();
    sort_ids(&mut ids);
    assert!(ids.is_empty());
    let mut ids = vec![u32::MAX, 0, u32::MAX - 1];
    sort_ids(&mut ids);
    assert_eq!(ids, vec![0, u32::MAX - 1, u32::MAX]);
    let mut ids: Vec<u32> = (0..200).rev().collect();
    sort_ids(&mut ids);
    assert_eq!(ids, (0..200).collect::<Vec<u32>>());
}

#[test]
fn sorted_ids_are_analyzed_up_to_the_largest_number() {
    assert_eq!(
        analyze_sorted(&vec![u32::MAX - 2, u32::MAX]).unwrap(),
        Analysis { lowest: u32::MAX - 2, highest: u32::MAX, missing: u32::MAX - 1 }
    );
    assert!(analyze_sorted(&vec![u32::MAX - 1, u32::MAX]).is_err());
    assert_eq!(
        analyze_sorted(&vec![0, u32::MAX]).unwrap(),
        Analysis { lowest: 0, highest: u32::MAX, missing: 1 }
    );
}

#[test]
fn the_ids_of_seats_come_in_the_order_of_the_seats() {
    let seats = seats_of(&[820, 119, 567, 357]);
    assert_eq!(collect_ids(&seats), vec![820, 119, 567, 357]);
}
