//! Two wires laid out on a grid from a shared origin, as runs of moves, and
//! the crossing nearest to the origin.
use vstd::prelude::*;
use vstd::string::StringSliceAdditionalSpecFns;
use crate::text::{field_end, fields, fields_from, parse_unsigned, unsigned_value};

verus! {

/// One straight run of a wire: a direction and a length.
#[derive(Debug, Clone, Copy, PartialEq, Eq, Structural)]
pub enum Move {
    R(usize),
    L(usize),
    D(usize),
    U(usize),
}

/// The runs of one wire, in order.
#[derive(Debug, PartialEq)]
pub struct Moves(pub Vec<Move>);

/// A point of the grid; x grows to the right, y upwards.
#[derive(Debug, Clone, Copy, PartialEq, Eq, Structural)]
pub struct Position(pub isize, pub isize);

/// A run that starts at a position.
pub type Segment = (Position, Move);

/// The runs of a wire, each with the position where it starts.
#[derive(Debug, PartialEq)]
pub struct Path(pub Vec<Segment>);

impl View for Position {
    type V = (int, int);

    open spec fn view(&self) -> (int, int) {
        (self.0 as int, self.1 as int)
    }
}

/// A coordinate whose absolute value fits in an `isize`.
pub open spec fn coord_ok(v: int) -> bool {
    -(isize::MAX as int) <= v <= isize::MAX as int
}

pub open spec fn point_ok(p: (int, int)) -> bool {
    coord_ok(p.0) && coord_ok(p.1)
}

/// The length of a run.
pub open spec fn run_len(m: Move) -> int {
    match m {
        Move::R(l) | Move::L(l) | Move::U(l) | Move::D(l) => l as int,
    }
}

/// A run whose length fits in an `isize`.
pub open spec fn run_ok(m: Move) -> bool {
    run_len(m) <= isize::MAX
}

/// The point reached from `p` by the run `m`.
pub open spec fn moved(p: (int, int), m: Move) -> (int, int) {
    match m {
        Move::R(l) => (p.0 + l, p.1),
        Move::L(l) => (p.0 - l, p.1),
        Move::U(l) => (p.0, p.1 + l),
        Move::D(l) => (p.0, p.1 - l),
    }
}

/// The point reached from `start` after the runs `ms`.
pub open spec fn pos_after(start: (int, int), ms: Seq<Move>) -> (int, int)
    decreases ms.len(),
{
    if ms.len() == 0 {
        start
    } else {
        moved(pos_after(start, ms.drop_last()), ms.last())
    }
}

/// Every run of `ms` has a length in range, and every point where one of
/// them, laid from `start`, begins or ends is in range.
pub open spec fn path_ok(start: (int, int), ms: Seq<Move>) -> bool {
    &&& forall|i: int| 0 <= i < ms.len() ==> #[trigger] run_ok(ms[i])
    &&& forall|i: int| 0 <= i <= ms.len() ==> #[trigger] point_ok(pos_after(start, ms.take(i)))
}

/// The segment's run, start and end are in range.
pub open spec fn segment_ok(s: Segment) -> bool {
    run_ok(s.1) && point_ok(s.0@) && point_ok(moved(s.0@, s.1))
}

/// `p` lies on the segment, ends included.
pub open spec fn inside_spec(s: Segment, p: (int, int)) -> bool {
    let start = s.0@;
    let end = moved(start, s.1);
    match s.1 {
        Move::R(_) => p.0 >= start.0 && p.0 <= end.0 && p.1 == start.1 && p.1 == end.1,
        Move::L(_) => p.0 <= start.0 && p.0 >= end.0 && p.1 == start.1 && p.1 == end.1,
        Move::U(_) => p.0 == start.0 && p.0 <= end.0 && p.1 >= start.1 && p.1 <= end.1,
        Move::D(_) => p.0 == start.0 && p.0 <= end.0 && p.1 <= start.1 && p.1 >= end.1,
    }
}

/// The only point where `b` can cross `a` at a right angle: `a`'s line
/// taken at `b`'s start across it.
pub open spec fn candidate_spec(a: Segment, b: Segment) -> Position {
    match a.1 {
        Move::R(_) | Move::L(_) => Position((b.0).0, (a.0).1),
        Move::D(_) | Move::U(_) => Position((a.0).0, (b.0).1),
    }
}

/// Where the two segments cross, if the candidate point lies on both.
pub open spec fn cross_spec(a: Segment, b: Segment) -> Option<Position> {
    let c = candidate_spec(a, b);
    if inside_spec(a, c@) && inside_spec(b, c@) {
        Some(c)
    } else {
        None
    }
}

pub open spec fn abs(v: int) -> int {
    if v < 0 {
        -v
    } else {
        v
    }
}

/// Manhattan distance between two points.
pub open spec fn distance(p: (int, int), q: (int, int)) -> int {
    abs(p.0 - q.0) + abs(p.1 - q.1)
}

impl Position {
    /// The position reached by the run `m`.
    pub fn apply(self, m: Move) -> (r: Self)
        requires
            run_ok(m),
            point_ok(self@),
            point_ok(moved(self@, m)),
        ensures
            r@ == moved(self@, m),
    {
        match m {
            Move::R(l) => Position(self.0 + l as isize, self.1),
            Move::L(l) => Position(self.0 - l as isize, self.1),
            Move::U(l) => Position(self.0, self.1 + l as isize),
            Move::D(l) => Position(self.0, self.1 - l as isize),
        }
    }

    /// Manhattan distance to `other`.
    pub fn manathan_distance(self, other: Self) -> (r: usize)
        requires
            coord_ok(self.0 - other.0),
            coord_ok(self.1 - other.1),
            distance(self@, other@) <= usize::MAX,
        ensures
            r == distance(self@, other@),
    {
        let dx = self.0 - other.0;
        let dy = self.1 - other.1;
        let ax: usize = if dx < 0 { (-dx) as usize } else { dx as usize };
        let ay: usize = if dy < 0 { (-dy) as usize } else { dy as usize };
        ax + ay
    }
}

impl Path {
    /// Lays the runs of `moves` end to end from `start`, each with the
    /// position where it begins.
    pub fn from_moves(moves: Moves, start: Position) -> (r: Self)
        requires
            path_ok(start@, moves.0@),
        ensures
            r.0@.len() == moves.0@.len(),
            forall|i: int|
                0 <= i < moves.0@.len() ==> (#[trigger] r.0@[i]).0@ == pos_after(start@, moves.0@.take(i))
                    && r.0@[i].1 == moves.0@[i],
    {
        let ms = moves.0;
        let mut segments: Vec<Segment> = Vec::new();
        let mut position = start;
        let mut i: usize = 0;
        proof {
            assert(ms@.take(0) =~= Seq::<Move>::empty());
            assert(point_ok(pos_after(start@, ms@.take(0))));
        }
        while i < ms.len()
            invariant
                path_ok(start@, ms@),
                i <= ms@.len(),
                position@ == pos_after(start@, ms@.take(i as int)),
                segments@.len() == i,
                forall|k: int|
                    0 <= k < i ==> (#[trigger] segments@[k]).0@ == pos_after(start@, ms@.take(k))
                        && segments@[k].1 == ms@[k],
            decreases ms@.len() - i,
        {
            let m = ms[i];
            proof {
                assert(ms@.take(i + 1).drop_last() =~= ms@.take(i as int));
                assert(point_ok(pos_after(start@, ms@.take(i as int))));
                assert(point_ok(pos_after(start@, ms@.take(i + 1))));
                assert(run_ok(ms@[i as int]));
            }
            segments.push((position, m));
            position = position.apply(m);
            i = i + 1;
        }
        Path(segments)
    }
}

/// Whether `p` lies on `segment`, ends included.
pub fn inside(segment: &Segment, p: Position) -> (r: bool)
    requires
        segment_ok(*segment),
    ensures
        r == inside_spec(*segment, p@),
{
    let start = segment.0;
    let end = start.apply(segment.1);
    match segment.1 {
        Move::R(_) => p.0 >= start.0 && p.0 <= end.0 && p.1 == start.1 && p.1 == end.1,
        Move::L(_) => p.0 <= start.0 && p.0 >= end.0 && p.1 == start.1 && p.1 == end.1,
        Move::U(_) => p.0 == start.0 && p.0 <= end.0 && p.1 >= start.1 && p.1 <= end.1,
        Move::D(_) => p.0 == start.0 && p.0 <= end.0 && p.1 <= start.1 && p.1 >= end.1,
    }
}

/// The point where the two segments cross, if any.
pub fn cross(a: &Segment, b: &Segment) -> (r: Option<Position>)
    requires
        segment_ok(*a),
        segment_ok(*b),
    ensures
        r == cross_spec(*a, *b),
{
    let candidate = match a.1 {
        Move::R(_) | Move::L(_) => Position((b.0).0, (a.0).1),
        Move::D(_) | Move::U(_) => Position((a.0).0, (b.0).1),
    };
    if inside(a, candidate) && inside(b, candidate) {
        Some(candidate)
    } else {
        None
    }
}

/// The `i`-th segment of the wire `ms` laid from the origin.
pub open spec fn segment_at(ms: Seq<Move>, i: int) -> Segment {
    let p = pos_after((0, 0), ms.take(i));
    (Position(p.0 as isize, p.1 as isize), ms[i])
}

/// Distance from the origin of the crossing of the `a`-th segment of `ms1`
/// with the `b`-th segment of `ms2`, if they cross.
pub open spec fn crossing_distance(ms1: Seq<Move>, ms2: Seq<Move>, a: int, b: int) -> Option<int> {
    match cross_spec(segment_at(ms1, a), segment_at(ms2, b)) {
        Some(p) => Some(distance(p@, (0, 0))),
        None => None,
    }
}

/// The pair of segments (`a`, `b`) comes before (`i`, `j`) in the scan,
/// which skips the first segment of each wire.
pub open spec fn scanned(a: int, b: int, i: int, j: int, n2: int) -> bool {
    &&& 1 <= a
    &&& 1 <= b < n2
    &&& a < i || (a == i && b < j)
}

/// `best` is the least crossing distance over the pairs scanned before
/// (`i`, `j`), or `None` when none of them cross.
pub open spec fn least_so_far(best: Option<usize>, ms1: Seq<Move>, ms2: Seq<Move>, i: int, j: int) -> bool {
    match best {
        None => forall|a: int, b: int|
            scanned(a, b, i, j, ms2.len() as int) ==> #[trigger] crossing_distance(ms1, ms2, a, b)
                is None,
        Some(d) => {
            &&& exists|a: int, b: int|
                scanned(a, b, i, j, ms2.len() as int) && #[trigger] crossing_distance(ms1, ms2, a, b)
                    == Some(d as int)
            &&& forall|a: int, b: int|
                scanned(a, b, i, j, ms2.len() as int) ==> (#[trigger] crossing_distance(
                    ms1,
                    ms2,
                    a,
                    b,
                ) matches Some(e) ==> d <= e)
        },
    }
}

/// The laid-out segment is the `i`-th segment of the wire, and in range.
proof fn lemma_path_segment(path: Seq<Segment>, ms: Seq<Move>, i: int)
    requires
        path_ok((0, 0), ms),
        0 <= i < ms.len(),
        path.len() == ms.len(),
        path[i].0@ == pos_after((0, 0), ms.take(i)),
        path[i].1 == ms[i],
    ensures
        path[i] == segment_at(ms, i),
        segment_ok(path[i]),
{
    assert(ms.take(i + 1).drop_last() =~= ms.take(i));
    assert(point_ok(pos_after((0, 0), ms.take(i))));
    assert(point_ok(pos_after((0, 0), ms.take(i + 1))));
    assert(run_ok(ms[i]));
}

/// The least distance from the origin of a point where the two wires cross,
/// leaving out the first run of each; `None` when they do not cross there.
pub fn minimum_cross_distance(first: Moves, second: Moves) -> (r: Option<usize>)
    requires
        first.0@.len() >= 1,
        second.0@.len() >= 1,
        path_ok((0, 0), first.0@),
        path_ok((0, 0), second.0@),
    ensures
        match r {
            None => forall|a: int, b: int|
                1 <= a < first.0@.len() && 1 <= b < second.0@.len() ==> #[trigger] crossing_distance(
                    first.0@,
                    second.0@,
                    a,
                    b,
                ) is None,
            Some(d) => {
                &&& exists|a: int, b: int|
                    1 <= a < first.0@.len() && 1 <= b < second.0@.len() && #[trigger] crossing_distance(
                        first.0@,
                        second.0@,
                        a,
                        b,
                    ) == Some(d as int)
                &&& forall|a: int, b: int|
                    1 <= a < first.0@.len() && 1 <= b < second.0@.len() ==> (
                    #[trigger] crossing_distance(first.0@, second.0@, a, b) matches Some(e) ==> d <= e)
            },
        },
{
    let ghost ms1 = first.0@;
    let ghost ms2 = second.0@;
    let first = Path::from_moves(first, Position(0, 0));
    let second = Path::from_moves(second, Position(0, 0));
    let n1 = first.0.len();
    let n2 = second.0.len();
    let mut best: Option<usize> = None;
    let mut i: usize = 1;
    while i < n1
        invariant
            1 <= i <= n1,
            n1 == ms1.len(),
            n2 == ms2.len(),
            n1 >= 1,
            n2 >= 1,
            path_ok((0, 0), ms1),
            path_ok((0, 0), ms2),
            first.0@.len() == n1,
            second.0@.len() == n2,
            forall|k: int|
                0 <= k < n1 ==> (#[trigger] first.0@[k]).0@ == pos_after((0, 0), ms1.take(k))
                    && first.0@[k].1 == ms1[k],
            forall|k: int|
                0 <= k < n2 ==> (#[trigger] second.0@[k]).0@ == pos_after((0, 0), ms2.take(k))
                    && second.0@[k].1 == ms2[k],
            least_so_far(best, ms1, ms2, i as int, 1),
        decreases n1 - i,
    {
        let mut j: usize = 1;
        while j < n2
            invariant
                1 <= i < n1,
                1 <= j <= n2,
                n1 == ms1.len(),
                n2 == ms2.len(),
                path_ok((0, 0), ms1),
                path_ok((0, 0), ms2),
                first.0@.len() == n1,
                second.0@.len() == n2,
                forall|k: int|
                    0 <= k < n1 ==> (#[trigger] first.0@[k]).0@ == pos_after((0, 0), ms1.take(k))
                        && first.0@[k].1 == ms1[k],
                forall|k: int|
                    0 <= k < n2 ==> (#[trigger] second.0@[k]).0@ == pos_after((0, 0), ms2.take(k))
                        && second.0@[k].1 == ms2[k],
                least_so_far(best, ms1, ms2, i as int, j as int),
            decreases n2 - j,
        {
            let seg1 = &first.0[i];
            let seg2 = &second.0[j];
            proof {
                lemma_path_segment(first.0@, ms1, i as int);
                lemma_path_segment(second.0@, ms2, j as int);
            }
            let crossing = cross(seg1, seg2);
            let ghost before = best;
            match crossing {
                Some(p) => {
                    let dist = p.manathan_distance(Position(0, 0));
                    best = match best {
                        None => Some(dist),
                        Some(b) => if dist < b {
                            Some(dist)
                        } else {
                            Some(b)
                        },
                    };
                },
                None => {},
            }
            proof {
                assert(crossing_distance(ms1, ms2, i as int, j as int) == match crossing {
                    Some(p) => Some(distance(p@, (0, 0))),
                    None => None::<int>,
                });
                assert forall|a: int, b: int|
                    scanned(a, b, i as int, j + 1, n2 as int) implies scanned(a, b, i as int, j as int, n2 as int)
                        || (a == i && b == j) by {}
                if let Some(d) = best {
                    if before == Some(d) {
                        let (wa, wb) = choose|a: int, b: int|
                            scanned(a, b, i as int, j as int, ms2.len() as int) && #[trigger] crossing_distance(ms1, ms2, a, b)
                                == Some(d as int);
                        assert(scanned(wa, wb, i as int, j + 1, n2 as int));
                    } else {
                        assert(scanned(i as int, j as int, i as int, j + 1, n2 as int));
                    }
                }
            }
            j = j + 1;
        }
        proof {
            assert forall|a: int, b: int|
                scanned(a, b, i + 1, 1, n2 as int) <==> scanned(a, b, i as int, n2 as int, n2 as int) by {}
        }
        i = i + 1;
    }
    proof {
        assert forall|a: int, b: int|
            1 <= a < n1 && 1 <= b < n2 <==> scanned(a, b, i as int, 1, n2 as int) by {}
    }
    best
}

pub const RIGHT: u8 = 82;

pub const LEFT: u8 = 76;

pub const UP: u8 = 85;

pub const DOWN: u8 = 68;

/// Why a field does not write a move.
#[derive(Debug, Clone, Copy, PartialEq, Eq, Structural)]
pub enum MoveParseError {
    /// The field is empty.
    Empty,
    /// The field does not start with `R`, `L`, `U` or `D`.
    UnknownDirection,
    /// What follows the direction is not an unsigned number that fits a `usize`.
    InvalidLength,
}

/// The first field of a wire's text that does not write a move.
#[derive(Debug, Clone, Copy, PartialEq, Eq, Structural)]
pub struct MovesParseError {
    /// Which field, counting from 0.
    pub index: usize,
    pub error: MoveParseError,
}

/// The move a field writes: a direction letter, then its length.
pub open spec fn move_spec(f: Seq<u8>) -> Result<Move, MoveParseError> {
    if f.len() == 0 {
        Err(MoveParseError::Empty)
    } else if f[0] != RIGHT && f[0] != LEFT && f[0] != UP && f[0] != DOWN {
        Err(MoveParseError::UnknownDirection)
    } else {
        match unsigned_value(f.drop_first(), usize::MAX as int) {
            None => Err(MoveParseError::InvalidLength),
            Some(l) => Ok(
                if f[0] == RIGHT {
                    Move::R(l as usize)
                } else if f[0] == LEFT {
                    Move::L(l as usize)
                } else if f[0] == UP {
                    Move::U(l as usize)
                } else {
                    Move::D(l as usize)
                },
            ),
        }
    }
}

/// Reads the move written in `s[start..end]`.
fn parse_move_field(s: &[u8], start: usize, end: usize) -> (r: Result<Move, MoveParseError>)
    requires
        start <= end <= s@.len(),
    ensures
        r == move_spec(s@.subrange(start as int, end as int)),
{
    let ghost f = s@.subrange(start as int, end as int);
    if start == end {
        return Err(MoveParseError::Empty);
    }
    let dir = s[start];
    if dir != RIGHT && dir != LEFT && dir != UP && dir != DOWN {
        return Err(MoveParseError::UnknownDirection);
    }
    assert(f.drop_first() =~= s@.subrange(start + 1, end as int));
    match parse_unsigned(s, start + 1, end) {
        None => Err(MoveParseError::InvalidLength),
        Some(l) => Ok(
            if dir == RIGHT {
                Move::R(l)
            } else if dir == LEFT {
                Move::L(l)
            } else if dir == UP {
                Move::U(l)
            } else {
                Move::D(l)
            },
        ),
    }
}

/// Reads one move, such as `R75`.
pub fn parse_move(input: &str) -> (r: Result<Move, MoveParseError>)
    ensures
        r == move_spec(input.spec_bytes()),
{
    let s = input.as_bytes();
    assert(s@.subrange(0, s@.len() as int) =~= s@);
    parse_move_field(s, 0, s.len())
}

/// Reads a wire written as moves separated by commas, failing at the first
/// field that is not a move.
pub fn parse_moves(input: &str) -> (r: Result<Moves, MovesParseError>)
    ensures
        match r {
            Ok(m) => m.0@.len() == fields(input.spec_bytes()).len() && forall|i: int|
                0 <= i < m.0@.len() ==> move_spec(#[trigger] fields(input.spec_bytes())[i]) == Ok::<
                    Move,
                    MoveParseError,
                >(m.0@[i]),
            Err(e) => {
                &&& e.index < fields(input.spec_bytes()).len()
                &&& move_spec(fields(input.spec_bytes())[e.index as int]) == Err::<Move, MoveParseError>(
                    e.error,
                )
                &&& forall|j: int|
                    0 <= j < e.index ==> move_spec(#[trigger] fields(input.spec_bytes())[j]) is Ok
            },
        },
{
    let s = input.as_bytes();
    let ghost all = fields(s@);
    let mut moves: Vec<Move> = Vec::new();
    let ghost mut done: Seq<Seq<u8>> = Seq::empty();
    let mut start: usize = 0;
    assert(all == done + fields_from(s@, 0));
    loop
        invariant
            start <= s@.len(),
            s@ == input.spec_bytes(),
            all == fields(s@),
            all == done + fields_from(s@, start as int),
            moves@.len() == done.len(),
            forall|i: int|
                0 <= i < done.len() ==> move_spec(#[trigger] done[i]) == Ok::<Move, MoveParseError>(
                    moves@[i],
                ),
        decreases s@.len() - start,
    {
        let end = field_end(s, start);
        let ghost field = s@.subrange(start as int, end as int);
        assert(fields_from(s@, start as int)[0] == field);
        assert(all[done.len() as int] == field);
        match parse_move_field(s, start, end) {
            Ok(m) => {
                moves.push(m);
            },
            Err(error) => {
                assert forall|j: int| 0 <= j < done.len() implies move_spec(#[trigger] all[j]) is Ok by {
                    assert(all[j] == done[j]);
                }
                return Err(MovesParseError { index: moves.len(), error });
            },
        }
        proof {
            done = done.push(field);
        }
        if end == s.len() {
            assert(fields_from(s@, start as int) =~= seq![field]);
            assert(all =~= done);
            assert forall|i: int| 0 <= i < moves@.len() implies move_spec(#[trigger] all[i]) == Ok::<
                Move,
                MoveParseError,
            >(moves@[i]) by {
                assert(all[i] == done[i]);
            }
            return Ok(Moves(moves));
        }
        assert(fields_from(s@, start as int) =~= seq![field] + fields_from(s@, end + 1));
        assert(all =~= done + fields_from(s@, end + 1));
        start = end + 1;
    }
}

impl core::str::FromStr for Moves {
    type Err = MovesParseError;

    fn from_str(input: &str) -> Result<Moves, MovesParseError> {
        parse_moves(input)
    }
}

impl core::str::FromStr for Move {
    type Err = MoveParseError;

    fn from_str(input: &str) -> Result<Move, MoveParseError> {
        parse_move(input)
    }
}

} // verus!
