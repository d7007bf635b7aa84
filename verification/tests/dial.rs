use advent::dial::{wrap_number, Rotation, RotationSequence};

const SAMPLE: &str = "L68\nL30\nR48\nL5\nR60\nL55\nL1\nL99\nR14\nL82\n";

#[test]
fn sample_turns() {
    let turns = RotationSequence::parse(SAMPLE).unwrap();
    assert_eq!(turns.turns().len(), 10);
    assert_eq!(turns.turns()[0], Rotation::Left(68));
    assert_eq!(turns.turns()[2], Rotation::Right(48));
    assert_eq!(turns.get_full_rotation_zero_count(), 3);
    assert_eq!(turns.get_partial_rotation_zero_count(), Some(6));
}

#[test]
fn wrapping() {
    assert_eq!(wrap_number(245, 0, 99), 45);
    assert_eq!(wrap_number(-1, 0, 99), 99);
    assert_eq!(wrap_number(100, 0, 99), 0);
    assert_eq!(wrap_number(0, 0, 99), 0);
    assert_eq!(wrap_number(99, 0, 99), 99);
    assert_eq!(wrap_number(-100, 0, 99), 0);
    assert_eq!(wrap_number(-250, 0, 99), 50);
    assert_eq!(wrap_number(7, 5, 5), 5);
    assert_eq!(wrap_number(12, 10, 13), 12);
    assert_eq!(wrap_number(9, 10, 13), 13);
    assert_eq!(wrap_number(i16::MAX, i16::MIN, i16::MAX), i16::MAX);
    assert_eq!(wrap_number(i16::MIN, 0, 99), 32);
    assert_eq!(wrap_number(i16::MAX, -5, 4), -3);
}

#[test]
fn signed_amounts() {
    assert_eq!(Rotation::Left(7).as_signed_int(), 7);
    assert_eq!(Rotation::Right(7).as_signed_int(), -7);
    assert_eq!(Rotation::Right(0).as_signed_int(), 0);
    assert_eq!(Rotation::Left(i16::MAX).as_signed_int(), i16::MAX);
    assert_eq!(Rotation::Right(i16::MAX).as_signed_int(), -i16::MAX);
}

#[test]
fn stops_and_clicks() {
    let turns = RotationSequence::new(vec![Rotation::Left(50)]).unwrap();
    assert_eq!(turns.get_full_rotation_zero_count(), 1);
    assert_eq!(turns.get_partial_rotation_zero_count(), Some(1));

    let turns = RotationSequence::new(vec![Rotation::Right(250)]).unwrap();
    assert_eq!(turns.get_full_rotation_zero_count(), 1);
    assert_eq!(turns.get_partial_rotation_zero_count(), Some(3));

    let turns = RotationSequence::new(vec![Rotation::Left(1000)]).unwrap();
    assert_eq!(turns.get_full_rotation_zero_count(), 0);
    assert_eq!(turns.get_partial_rotation_zero_count(), Some(10));

    let turns = RotationSequence::new(vec![Rotation::Left(i16::MAX), Rotation::Left(i16::MAX)])
        .unwrap();
    assert_eq!(turns.get_full_rotation_zero_count(), 0);
    assert_eq!(turns.get_partial_rotation_zero_count(), Some(655));

    let turns = RotationSequence::new(vec![Rotation::Left(0), Rotation::Right(0)]).unwrap();
    assert_eq!(turns.get_full_rotation_zero_count(), 0);
    assert_eq!(turns.get_partial_rotation_zero_count(), Some(0));

    let turns = RotationSequence::new(Vec::new()).unwrap();
    assert_eq!(turns.get_full_rotation_zero_count(), 0);
    assert_eq!(turns.get_partial_rotation_zero_count(), Some(0));
}

#[test]
fn left_and_right_mirror_each_other() {
    let left = RotationSequence::parse("L50\nL100\nR200\n").unwrap();
    let right = RotationSequence::parse("R50\nR100\nL200\n").unwrap();
    assert_eq!(left.get_full_rotation_zero_count(), 3);
    assert_eq!(right.get_full_rotation_zero_count(), 3);
    assert_eq!(left.get_partial_rotation_zero_count(), Some(4));
    assert_eq!(right.get_partial_rotation_zero_count(), Some(4));
}

#[test]
fn texts_that_are_no_turns() {
    assert!(RotationSequence::parse("").is_some());
    assert!(RotationSequence::parse("L+5\nR-0\n").is_some());
    assert!(RotationSequence::parse("X5\n").is_none());
    assert!(RotationSequence::parse("L\n").is_none());
    assert!(RotationSequence::parse("L5\n\nR5\n").is_none());
    assert!(RotationSequence::parse("L-5\n").is_none());
    assert!(RotationSequence::parse("L5 \n").is_none());
    assert!(RotationSequence::parse("L32767\n").is_some());
    assert!(RotationSequence::parse("L32768\n").is_none());
    assert!(RotationSequence::parse("l5\n").is_none());
    assert!(RotationSequence::new(vec![Rotation::Left(1), Rotation::Right(-1)]).is_none());
}
