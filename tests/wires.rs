use aoc2019::wires::{
    cross, inside, minimum_cross_distance, parse_move, parse_moves, Move, MoveParseError, Moves,
    MovesParseError, Path, Position,
};
use Move::{D, L, R, U};

#[test]
fn apply_moves_in_each_direction() {
    let p = Position(1, -2);
    assert_eq!(p.apply(R(3)), Position(4, -2));
    assert_eq!(p.apply(L(3)), Position(-2, -2));
    assert_eq!(p.apply(U(3)), Position(1, 1));
    assert_eq!(p.apply(D(3)), Position(1, -5));
}

#[test]
fn manhattan_distance() {
    assert_eq!(Position(3, -4).manathan_distance(Position(0, 0)), 7);
    assert_eq!(Position(-3, 4).manathan_distance(Position(-3, 4)), 0);
    assert_eq!(Position(-5, 2).manathan_distance(Position(1, -1)), 9);
}

#[test]
fn path_from_moves() {
    let path = Path::from_moves(Moves(vec![R(8), U(5), L(5), D(3)]), Position(0, 0));
    assert_eq!(
        path,
        Path(vec![
            (Position(0, 0), R(8)),
            (Position(8, 0), U(5)),
            (Position(8, 5), L(5)),
            (Position(3, 5), D(3)),
        ])
    );
}

#[test]
fn segments_cross() {
    let a = (Position(0, 0), R(8));
    let b = (Position(3, -2), U(5));
    assert!(inside(&a, Position(3, 0)));
    assert!(inside(&b, Position(3, 0)));
    assert!(!inside(&a, Position(9, 0)));
    assert_eq!(cross(&a, &b), Some(Position(3, 0)));
    let c = (Position(9, -2), U(5));
    assert_eq!(cross(&a, &c), None);
}

#[test]
fn return_minimum_distance_first() {
    let first = Moves(vec![R(8), U(5), L(5), D(3)]);
    let second = Moves(vec![U(7), R(6), D(4), L(4)]);
    assert_eq!(minimum_cross_distance(first, second), Some(6));
}

#[test]
fn return_minimum_distance_second() {
    let first = Moves(vec![R(75), D(30), R(83), U(83), L(12), D(49), R(71), U(7), L(72)]);
    let second = Moves(vec![U(62), R(66), U(55), R(34), D(71), R(55), D(58), R(83)]);
    assert_eq!(minimum_cross_distance(first, second), Some(159));
}

#[test]
fn return_minimum_distance_third() {
    let first = Moves(vec![R(98), U(47), R(26), D(63), R(33), U(87), L(62), D(20), R(33), U(53), R(51)]);
    let second = Moves(vec![U(98), R(91), D(20), R(16), D(67), R(40), U(7), R(15), U(6), R(7)]);
    assert_eq!(minimum_cross_distance(first, second), Some(135));
}

#[test]
fn wires_that_never_cross() {
    let first = Moves(vec![R(5), U(5)]);
    let second = Moves(vec![L(5), D(5)]);
    assert_eq!(minimum_cross_distance(first, second), None);
}

#[test]
fn parse_input_string() {
    let expected = Moves(vec![R(75), D(30), L(12), U(7)]);
    assert_eq!(expected, "R75,D30,L12,U7".parse::<Moves>().unwrap());
}

#[test]
fn parse_invalid_input() {
    assert_eq!(
        parse_moves(""),
        Err(MovesParseError { index: 0, error: MoveParseError::Empty })
    );
    assert_eq!(
        parse_moves("Pippo"),
        Err(MovesParseError { index: 0, error: MoveParseError::UnknownDirection })
    );
    assert_eq!(
        parse_moves("U-10"),
        Err(MovesParseError { index: 0, error: MoveParseError::InvalidLength })
    );
    assert_eq!(
        parse_moves("Uciao"),
        Err(MovesParseError { index: 0, error: MoveParseError::InvalidLength })
    );
    assert_eq!(
        parse_moves("D10,U,L10"),
        Err(MovesParseError { index: 1, error: MoveParseError::InvalidLength })
    );
    assert!("R5,".parse::<Moves>().is_err());
}

#[test]
fn parse_single_move() {
    assert_eq!("L12".parse::<Move>(), Ok(L(12)));
    assert_eq!(parse_move("U+7"), Ok(U(7)));
    assert_eq!(parse_move("D18446744073709551616"), Err(MoveParseError::InvalidLength));
    assert_eq!(parse_move("X1"), Err(MoveParseError::UnknownDirection));
    assert_eq!(parse_move("R"), Err(MoveParseError::InvalidLength));
}

#[test]
fn return_minimum_distance_parsed() {
    let cases = [
        ("R8,U5,L5,D3", "U7,R6,D4,L4", 6),
        ("R75,D30,R83,U83,L12,D49,R71,U7,L72", "U62,R66,U55,R34,D71,R55,D58,R83", 159),
        ("R98,U47,R26,D63,R33,U87,L62,D20,R33,U53,R51", "U98,R91,D20,R16,D67,R40,U7,R15,U6,R7", 135),
    ];
    for (first, second, expected) in cases {
        let distance = minimum_cross_distance(first.parse().unwrap(), second.parse().unwrap()).unwrap();
        assert_eq!(distance, expected);
    }
}
