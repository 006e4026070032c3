//! The seven tetromino shapes and how they turn.

use vstd::prelude::*;
use crate::coord::Coord;

verus! {

/// The seven shapes.
#[derive(PartialEq, Eq, Structural, Debug, Clone, Copy, Hash)]
pub enum Type {
    I,
    J,
    L,
    O,
    S,
    T,
    Z,
}

/// The cell in column `x` of row `y`.
pub open spec fn cell(x: int, y: int) -> Coord {
    Coord { x: x as i32, y: y as i32 }
}

/// The cell `c` moved by `dx` columns and `dy` rows.
pub open spec fn displace(c: Coord, dx: int, dy: int) -> Coord {
    Coord { x: (c.x + dx) as i32, y: (c.y + dy) as i32 }
}

/// Every cell of `cs` moved by `dx` columns and `dy` rows.
pub open spec fn displaced(cs: Seq<Coord>, dx: int, dy: int) -> Seq<Coord> {
    Seq::new(cs.len(), |i: int| displace(cs[i], dx, dy))
}

/// A quarter turn clockwise about the origin.
pub open spec fn spec_cw(a: Coord) -> Coord {
    Coord { x: a.y, y: (-a.x) as i32 }
}

/// A quarter turn counterclockwise about the origin.
pub open spec fn spec_ccw(a: Coord) -> Coord {
    Coord { x: (-a.y) as i32, y: a.x }
}

/// Moves a nonnegative coordinate one step away from zero, so that the
/// pivot comes to lie on a corner between four cells.
pub open spec fn spread(v: int) -> int {
    if v >= 0 {
        v + 1
    } else {
        v
    }
}

/// Undoes `spread`.
pub open spec fn gather(v: int) -> int {
    if v > 0 {
        v - 1
    } else {
        v
    }
}

/// Where a quarter turn takes the offset `a` of a block of shape `t`:
/// clockwise if `clockwise`, else counterclockwise. `O` does not turn, `I`
/// turns about the corner right above its centre, the others about their
/// centre.
#[verifier::opaque]
pub open spec fn turn(t: Type, clockwise: bool, a: Coord) -> Coord {
    match t {
        Type::O => a,
        Type::I => {
            let wide = Coord { x: spread(a.x as int) as i32, y: spread(a.y as int) as i32 };
            let turned = if clockwise {
                spec_cw(wide)
            } else {
                spec_ccw(wide)
            };
            Coord { x: gather(turned.x as int) as i32, y: gather(turned.y as int) as i32 }
        },
        _ => if clockwise {
            spec_cw(a)
        } else {
            spec_ccw(a)
        },
    }
}

/// The offsets `offsets` of a piece of shape `t` after a quarter turn.
pub open spec fn rotated(t: Type, clockwise: bool, offsets: Seq<Coord>) -> Seq<Coord> {
    Seq::new(offsets.len(), |i: int| turn(t, clockwise, offsets[i]))
}

/// The offsets of the four blocks of a new piece from its centre.
pub open spec fn spawn_offsets(t: Type) -> Seq<Coord> {
    match t {
        Type::I => seq![
            cell(-2, 0),
            cell(-1, 0),
            cell(0, 0),
            cell(1, 0),
        ],
        Type::O => seq![
            cell(-1, -1),
            cell(-1, 0),
            cell(0, -1),
            cell(0, 0),
        ],
        Type::L => seq![
            cell(-1, 0),
            cell(0, 0),
            cell(1, 0),
            cell(1, 1),
        ],
        Type::J => seq![
            cell(-1, 0),
            cell(-1, 1),
            cell(0, 0),
            cell(1, 0),
        ],
        Type::S => seq![
            cell(-1, 0),
            cell(0, 1),
            cell(0, 0),
            cell(1, 1),
        ],
        Type::Z => seq![
            cell(-1, 1),
            cell(0, 1),
            cell(0, 0),
            cell(1, 0),
        ],
        Type::T => seq![
            cell(-1, 0),
            cell(0, 1),
            cell(0, 0),
            cell(1, 0),
        ],
    }
}

/// The centre of a new piece.
pub open spec fn spawn_center(t: Type) -> Coord {
    match t {
        Type::I => Coord { x: 5, y: 20 },
        Type::O => Coord { x: 5, y: 21 },
        _ => Coord { x: 4, y: 20 },
    }
}

/// The offsets of shape `t` after `k` quarter turns clockwise.
#[verifier::opaque]
pub open spec fn orientation(t: Type, k: nat) -> Seq<Coord>
    decreases k,
{
    if k == 0 {
        spawn_offsets(t)
    } else {
        rotated(t, true, orientation(t, (k - 1) as nat))
    }
}

/// Whether `offsets` is the shape `t` in one of its four orientations.
pub open spec fn is_orientation(t: Type, offsets: Seq<Coord>) -> bool {
    ||| offsets == orientation(t, 0)
    ||| offsets == orientation(t, 1)
    ||| offsets == orientation(t, 2)
    ||| offsets == orientation(t, 3)
}

/// No two of the cells are the same.
pub open spec fn distinct(cs: Seq<Coord>) -> bool {
    forall|i: int, j: int| 0 <= i < j < cs.len() ==> cs[i] != cs[j]
}

/// Every offset is at most two cells away from the centre on each axis.
pub open spec fn near(offsets: Seq<Coord>) -> bool {
    forall|i: int|
        0 <= i < offsets.len() ==> -2 <= (#[trigger] offsets[i]).x <= 2 && -2 <= offsets[i].y <= 2
}

/// The blocks of `I` stay left of and below the corner that it turns about.
pub open spec fn tight(t: Type, offsets: Seq<Coord>) -> bool {
    t == Type::I ==> forall|i: int|
        0 <= i < offsets.len() ==> (#[trigger] offsets[i]).x <= 1 && offsets[i].y <= 1
}

/// The square of the distance between two cells.
pub open spec fn distance2(a: Coord, b: Coord) -> int {
    (a.x - b.x) * (a.x - b.x) + (a.y - b.y) * (a.y - b.y)
}

/// The two rows of cells have the same distances between their cells, pair
/// by pair: they are the same figure, turned or moved.
pub open spec fn congruent(a: Seq<Coord>, b: Seq<Coord>) -> bool {
    &&& a.len() == b.len()
    &&& forall|i: int, j: int|
        0 <= i < j < a.len() ==> distance2(a[i], a[j]) == distance2(b[i], b[j])
}

/// A quarter turn one way undoes a quarter turn the other way.
pub proof fn turn_back(t: Type, clockwise: bool, a: Coord)
    requires
        -1000 <= a.x <= 1000,
        -1000 <= a.y <= 1000,
    ensures
        turn(t, !clockwise, turn(t, clockwise, a)) == a,
{
    reveal(turn);
}

/// A quarter turn keeps a block within two cells of the centre.
pub proof fn turn_stays_near(t: Type, clockwise: bool, a: Coord)
    requires
        -2 <= a.x <= 2,
        -2 <= a.y <= 2,
        t == Type::I ==> a.x <= 1 && a.y <= 1,
    ensures
        -2 <= turn(t, clockwise, a).x <= 2,
        -2 <= turn(t, clockwise, a).y <= 2,
        t == Type::I ==> turn(t, clockwise, a).x <= 1 && turn(t, clockwise, a).y <= 1,
{
    reveal(turn);
}

/// Four quarter turns the same way bring a block back to where it was.
pub proof fn four_turns(t: Type, clockwise: bool, a: Coord)
    requires
        -1000 <= a.x <= 1000,
        -1000 <= a.y <= 1000,
    ensures
        turn(t, clockwise, turn(t, clockwise, turn(t, clockwise, turn(t, clockwise, a)))) == a,
{
    reveal(turn);
}

/// A quarter turn keeps four different blocks near the centre four
/// different blocks near the centre, and the opposite turn undoes it.
pub proof fn rotated_facts(t: Type, clockwise: bool, offsets: Seq<Coord>)
    requires
        offsets.len() == 4,
        near(offsets),
        tight(t, offsets),
        distinct(offsets),
    ensures
        rotated(t, clockwise, offsets).len() == 4,
        near(rotated(t, clockwise, offsets)),
        tight(t, rotated(t, clockwise, offsets)),
        distinct(rotated(t, clockwise, offsets)),
        rotated(t, !clockwise, rotated(t, clockwise, offsets)) == offsets,
{
    let r = rotated(t, clockwise, offsets);
    assert forall|i: int| 0 <= i < 4 implies -2 <= (#[trigger] r[i]).x <= 2 && -2 <= r[i].y <= 2 && (t
        == Type::I ==> r[i].x <= 1 && r[i].y <= 1) && turn(t, !clockwise, r[i]) == offsets[i] by {
        turn_stays_near(t, clockwise, offsets[i]);
        turn_back(t, clockwise, offsets[i]);
    }
    assert forall|i: int, j: int| 0 <= i < j < 4 implies r[i] != r[j] by {
        assert(turn(t, !clockwise, r[i]) == offsets[i]);
        assert(turn(t, !clockwise, r[j]) == offsets[j]);
    }
    assert(rotated(t, !clockwise, r) =~= offsets);
}

/// Every orientation of a shape has four different blocks near the centre.
pub proof fn orientation_facts(t: Type, k: nat)
    ensures
        orientation(t, k).len() == 4,
        near(orientation(t, k)),
        tight(t, orientation(t, k)),
        distinct(orientation(t, k)),
    decreases k,
{
    reveal(orientation);
    if k == 0 {
        let o = spawn_offsets(t);
        assert(o.len() == 4);
        assert(near(o));
        assert(tight(t, o));
        assert(distinct(o));
    } else {
        orientation_facts(t, (k - 1) as nat);
        rotated_facts(t, true, orientation(t, (k - 1) as nat));
    }
}

/// The fourth quarter turn brings a shape back to how it spawns.
pub proof fn orientation_cycle(t: Type)
    ensures
        orientation(t, 4) == orientation(t, 0),
{
    reveal_with_fuel(orientation, 5);
    let o = spawn_offsets(t);
    assert(o.len() == 4);
    assert forall|i: int| 0 <= i < 4 implies (#[trigger] orientation(t, 4)[i]) == o[i] by {
        four_turns(t, true, o[i]);
    }
    assert(orientation(t, 4) =~= orientation(t, 0));
}

/// The quarter turns keep a shape among its four orientations.
pub proof fn rotation_closed(t: Type, clockwise: bool, offsets: Seq<Coord>)
    requires
        is_orientation(t, offsets),
    ensures
        is_orientation(t, rotated(t, clockwise, offsets)),
        rotated(t, !clockwise, rotated(t, clockwise, offsets)) == offsets,
        offsets.len() == 4,
        near(offsets),
        distinct(offsets),
        near(rotated(t, clockwise, offsets)),
{
    orientation_facts(t, 0);
    orientation_facts(t, 1);
    orientation_facts(t, 2);
    orientation_facts(t, 3);
    orientation_cycle(t);
    rotated_facts(t, clockwise, offsets);
    rotated_facts(t, true, orientation(t, 0));
    rotated_facts(t, true, orientation(t, 1));
    rotated_facts(t, true, orientation(t, 2));
    rotated_facts(t, true, orientation(t, 3));
    assert(orientation(t, 1) == rotated(t, true, orientation(t, 0))) by {
        reveal_with_fuel(orientation, 2);
    }
    assert(orientation(t, 2) == rotated(t, true, orientation(t, 1))) by {
        reveal_with_fuel(orientation, 2);
    }
    assert(orientation(t, 3) == rotated(t, true, orientation(t, 2))) by {
        reveal_with_fuel(orientation, 2);
    }
    assert(orientation(t, 4) == rotated(t, true, orientation(t, 3))) by {
        reveal_with_fuel(orientation, 2);
    }
}

/// A quarter turn about the centre keeps the distance between two blocks.
proof fn lemma_turn_distance(t: Type, clockwise: bool, a: Coord, b: Coord)
    requires
        t != Type::I,
        -2 <= a.x <= 2,
        -2 <= a.y <= 2,
        -2 <= b.x <= 2,
        -2 <= b.y <= 2,
    ensures
        distance2(turn(t, clockwise, a), turn(t, clockwise, b)) == distance2(a, b),
{
    reveal(turn);
    assert((b.x - a.x) * (b.x - a.x) == (a.x - b.x) * (a.x - b.x)) by (nonlinear_arith);
    assert((b.y - a.y) * (b.y - a.y) == (a.y - b.y) * (a.y - b.y)) by (nonlinear_arith);
}

/// In a row of four cells, each one step along an axis from the one before,
/// the cells number `i` and `j` are `j - i` steps apart.
proof fn lemma_row(o: Seq<Coord>, dx: int, dy: int)
    requires
        o.len() == 4,
        (dx == 0 && (dy == 1 || dy == -1)) || (dy == 0 && (dx == 1 || dx == -1)),
        forall|i: int| 0 <= i < 4 ==> (#[trigger] o[i]).x == o[0].x + i * dx && o[i].y == o[0].y + i * dy,
    ensures
        forall|i: int, j: int| 0 <= i < j < 4 ==> distance2(o[i], o[j]) == (j - i) * (j - i),
{
    assert forall|i: int, j: int| 0 <= i < j < 4 implies distance2(o[i], o[j]) == (j - i) * (j
        - i) by {
        let u = o[i].x - o[j].x;
        let v = o[i].y - o[j].y;
        assert(u == i * dx - j * dx);
        assert(v == i * dy - j * dy);
        assert(u * u + v * v == (j - i) * (j - i)) by (nonlinear_arith)
            requires
                u == i * dx - j * dx,
                v == i * dy - j * dy,
                (dx == 0 && (dy == 1 || dy == -1)) || (dy == 0 && (dx == 1 || dx == -1)),
        ;
    }
}

/// The four orientations of `I`: lying and standing in turn, four blocks in
/// a row each time.
proof fn lemma_orientations_of_i()
    ensures
        orientation(Type::I, 0) == seq![cell(-2, 0), cell(-1, 0), cell(0, 0), cell(1, 0)],
        orientation(Type::I, 1) == seq![cell(0, 1), cell(0, 0), cell(0, -1), cell(0, -2)],
        orientation(Type::I, 2) == seq![cell(1, -1), cell(0, -1), cell(-1, -1), cell(-2, -1)],
        orientation(Type::I, 3) == seq![cell(-1, -2), cell(-1, -1), cell(-1, 0), cell(-1, 1)],
{
    reveal(turn);
    let o0 = seq![cell(-2, 0), cell(-1, 0), cell(0, 0), cell(1, 0)];
    let o1 = seq![cell(0, 1), cell(0, 0), cell(0, -1), cell(0, -2)];
    let o2 = seq![cell(1, -1), cell(0, -1), cell(-1, -1), cell(-2, -1)];
    let o3 = seq![cell(-1, -2), cell(-1, -1), cell(-1, 0), cell(-1, 1)];
    assert(orientation(Type::I, 0) =~= o0) by {
        reveal_with_fuel(orientation, 1);
    }
    assert(rotated(Type::I, true, o0) =~= o1);
    assert(orientation(Type::I, 1) == o1) by {
        reveal_with_fuel(orientation, 2);
    }
    assert(rotated(Type::I, true, o1) =~= o2);
    assert(orientation(Type::I, 2) == rotated(Type::I, true, orientation(Type::I, 1))) by {
        reveal_with_fuel(orientation, 2);
    }
    assert(rotated(Type::I, true, o2) =~= o3);
    assert(orientation(Type::I, 3) == rotated(Type::I, true, orientation(Type::I, 2))) by {
        reveal_with_fuel(orientation, 2);
    }
}

/// Every orientation of a shape is the figure that the shape starts as.
pub proof fn orientation_congruent(t: Type, k: nat)
    requires
        k < 4,
    ensures
        congruent(orientation(t, k), spawn_offsets(t)),
    decreases k,
{
    orientation_facts(t, k);
    let o = orientation(t, k);
    let start = spawn_offsets(t);
    if t == Type::I {
        lemma_orientations_of_i();
        reveal_with_fuel(orientation, 1);
        lemma_row(start, 1, 0);
        if k == 0 {
            lemma_row(o, 1, 0);
        } else if k == 1 {
            lemma_row(o, 0, -1);
        } else if k == 2 {
            lemma_row(o, -1, 0);
        } else {
            lemma_row(o, 0, 1);
        }
    } else if k == 0 {
        reveal(orientation);
    } else {
        let before = orientation(t, (k - 1) as nat);
        orientation_congruent(t, (k - 1) as nat);
        orientation_facts(t, (k - 1) as nat);
        assert(o == rotated(t, true, before)) by {
            reveal_with_fuel(orientation, 2);
        }
        assert forall|i: int, j: int| 0 <= i < j < 4 implies distance2(o[i], o[j]) == distance2(
            start[i],
            start[j],
        ) by {
            lemma_turn_distance(t, true, before[i], before[j]);
        }
    }
}

/// A quarter turn leaves the figure of a piece as it is: the distances
/// between its blocks are what they were, pair by pair, and what they were
/// when the piece came in. `O` does not change at all.
pub proof fn turns_keep_the_figure(t: Type, clockwise: bool, offsets: Seq<Coord>)
    requires
        is_orientation(t, offsets),
    ensures
        congruent(rotated(t, clockwise, offsets), offsets),
        congruent(offsets, spawn_offsets(t)),
        distinct(rotated(t, clockwise, offsets)),
        t == Type::O ==> rotated(t, clockwise, offsets) == offsets,
{
    rotation_closed(t, clockwise, offsets);
    let turned = rotated(t, clockwise, offsets);
    rotation_closed(t, clockwise, turned);
    orientation_congruent(t, 0);
    orientation_congruent(t, 1);
    orientation_congruent(t, 2);
    orientation_congruent(t, 3);
    if t == Type::O {
        reveal(turn);
        assert(turned =~= offsets);
    }
}

/// Four quarter turns the same way bring a shape back to where it was.
pub proof fn four_rotations(t: Type, clockwise: bool, offsets: Seq<Coord>)
    requires
        is_orientation(t, offsets),
    ensures
        rotated(t, clockwise, rotated(t, clockwise, rotated(t, clockwise, rotated(t, clockwise, offsets))))
            == offsets,
{
    rotation_closed(t, clockwise, offsets);
    let back = rotated(
        t,
        clockwise,
        rotated(t, clockwise, rotated(t, clockwise, rotated(t, clockwise, offsets))),
    );
    assert forall|i: int| 0 <= i < 4 implies back[i] == offsets[i] by {
        four_turns(t, clockwise, offsets[i]);
    }
    assert(back =~= offsets);
}

} // verus!
