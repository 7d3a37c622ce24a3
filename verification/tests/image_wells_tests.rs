use stream_depletion::ImageWells;
use stream_depletion::Step;

#[test]
fn image_wells_stand_by_turns_behind_boundary_and_stream() {
    let mut wells = ImageWells::new(4_000, 10_000);
    let mut distances = Vec::new();
    for _ in 0..6 {
        match wells.action() {
            Step::Evaluate(distance) => distances.push(distance),
            Step::Done(_) => panic!("the series ended early"),
        }
        wells.accept(1);
    }
    assert_eq!(distances, vec![4_000, 16_000, 24_000, 36_000, 44_000, 56_000]);
}

#[test]
fn terms_count_with_alternating_sign_by_pairs() {
    let mut wells = ImageWells::new(4_000, 10_000);
    for term in [500u32, 300, 200, 100, 50, 20] {
        assert!(matches!(wells.action(), Step::Evaluate(_)));
        wells.accept(term);
    }
    wells.accept(0);
    assert_eq!(wells.action(), Step::Done(500 + 300 - 200 - 100 + 50 + 20));
}

#[test]
fn the_series_ends_at_the_first_vanished_term() {
    let mut wells = ImageWells::new(1, 2);
    assert_eq!(wells.action(), Step::Evaluate(1));
    wells.accept(700);
    assert_eq!(wells.action(), Step::Evaluate(3));
    wells.accept(0);
    assert_eq!(wells.action(), Step::Done(700));
    let mut at_once = ImageWells::new(1, 2);
    at_once.accept(0);
    assert_eq!(at_once.action(), Step::Done(0));
}

#[test]
fn the_series_ends_when_no_wells_are_left() {
    let mut wells = ImageWells::new(5, 7);
    let mut taken = 0;
    while let Step::Evaluate(_) = wells.action() {
        wells.accept(1);
        taken += 1;
    }
    assert_eq!(taken, 10_000);
    assert_eq!(wells.action(), Step::Done(0));
}
