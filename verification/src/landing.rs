//! Pieces in the playfield itself: when a piece can lock there, and what
//! falling, dropping and turning come to.

use vstd::prelude::*;
use crate::coord::Coord;
use crate::field::{
    full_rows, lemma_filter_keeps_all, lemma_settled_without_row, set_keeps_shape, settled, Field,
    Grid, HEIGHT, WIDTH,
};
use crate::piece::{
    all_free, free, insert_top_down, lemma_fall, lemma_moved_down, lockable, locked_in, top_down,
    IField, Input, PieceState,
};
use crate::shape::{
    cell, congruent, displaced, distance2, distinct, four_rotations, is_orientation, orientation,
    rotation_closed, spawn_center, turns_keep_the_figure, Type,
};

verus! {

/// The cells come from the highest row down.
pub open spec fn descending(cs: Seq<Coord>) -> bool {
    forall|i: int, j: int| 0 <= i < j < cs.len() ==> cs[i].y >= cs[j].y
}

/// Every cell of `a` is a cell of `b`.
pub open spec fn within(a: Seq<Coord>, b: Seq<Coord>) -> bool {
    forall|i: int| 0 <= i < a.len() ==> b.contains(#[trigger] a[i])
}

/// The rows of `g` with the cells of `cs` occupied as well.
pub open spec fn with_blocks(g: Grid, cs: Seq<Coord>) -> Seq<Seq<bool>> {
    Seq::new(
        HEIGHT as nat,
        |y: int| Seq::new(WIDTH as nat, |x: int| g.rows[y][x] || cs.contains(cell(x, y))),
    )
}

/// The row of the centre of a piece of shape `t` whose lowest blocks lie on
/// the floor, in the orientation in which it starts.
pub open spec fn floor_row(t: Type) -> int {
    if t == Type::O {
        1
    } else {
        0
    }
}

/// A new piece is well formed.
pub proof fn new_piece_is_well_formed(t: Type, d: nat)
    requires
        d <= u32::MAX,
    ensures
        PieceState::spawn(t, d).wf(),
{
    reveal(orientation);
}

/// The four blocks of a piece are four different cells, and they form the
/// shape of the piece in one of its four orientations.
pub proof fn blocks_form_the_shape(s: PieceState)
    requires
        s.wf(),
    ensures
        s.blocks().len() == 4,
        distinct(s.blocks()),
        is_orientation(s.shape, s.offsets),
        s.blocks() == displaced(s.offsets, s.center.x as int, s.center.y as int),
{
    rotation_closed(s.shape, true, s.offsets);
    let cs = s.blocks();
    assert forall|i: int, j: int| 0 <= i < j < cs.len() implies cs[i] != cs[j] by {
        assert(s.offsets[i] != s.offsets[j]);
    }
}

/// Whatever a piece does, it stays well formed: steps of time and inputs
/// lead from one orientation of its shape to another.
pub proof fn piece_stays_well_formed<F: IField + ?Sized>(
    s: PieceState,
    m: F::Model,
    input: Input,
    g: nat,
)
    requires
        s.wf(),
    ensures
        s.stepped::<F>(m, g).wf(),
        s.after_input::<F>(m, input).wf(),
        s.stepped::<F>(m, g).shape == s.shape,
        s.after_input::<F>(m, input).shape == s.shape,
{
    lemma_stepped_wf::<F>(s, m, g);
    lemma_stepped_wf::<F>(s, m, s.hard_drop_steps());
    rotation_closed(s.shape, true, s.offsets);
    rotation_closed(s.shape, false, s.offsets);
    if s.can_shift::<F>(m, -1, 0) {
        assert(free::<F>(m, displaced(s.blocks(), -1, 0)[0]));
    }
    if s.can_shift::<F>(m, 1, 0) {
        assert(free::<F>(m, displaced(s.blocks(), 1, 0)[0]));
    }
}

/// A piece that covers free cells keeps doing so, whatever it does.
pub proof fn piece_keeps_fitting<F: IField + ?Sized>(
    s: PieceState,
    m: F::Model,
    input: Input,
    g: nat,
)
    requires
        s.wf(),
        s.fits::<F>(m),
    ensures
        s.stepped::<F>(m, g).fits::<F>(m),
        s.after_input::<F>(m, input).fits::<F>(m),
{
    lemma_stepped_wf::<F>(s, m, g);
    lemma_stepped_wf::<F>(s, m, s.hard_drop_steps());
    rotation_closed(s.shape, true, s.offsets);
    assert(s.moved(-1, 0).blocks() =~= displaced(s.blocks(), -1, 0));
    assert(s.moved(1, 0).blocks() =~= displaced(s.blocks(), 1, 0));
}

/// A quarter turn and then a quarter turn back leave the piece as it was,
/// given that nothing is in the way of either.
pub proof fn turn_and_back<F: IField + ?Sized>(s: PieceState, m: F::Model, clockwise: bool)
    requires
        s.wf(),
        s.fits::<F>(m),
        all_free::<F>(
            m,
            displaced(s.turned_offsets(clockwise), s.center.x as int, s.center.y as int),
        ),
    ensures
        s.turned::<F>(m, clockwise).turned::<F>(m, !clockwise) == s,
        clockwise ==> s.after_input::<F>(m, Input::RotateCW).after_input::<F>(m, Input::RotateCCW)
            == s,
        !clockwise ==> s.after_input::<F>(m, Input::RotateCCW).after_input::<F>(m, Input::RotateCW)
            == s,
{
    rotation_closed(s.shape, clockwise, s.offsets);
}

/// A quarter turn with nothing in its way: the piece has turned, it still
/// has four different blocks, and they are the figure that they were, with
/// the same distances between them pair by pair. `O` does not change.
pub proof fn free_turn<F: IField + ?Sized>(s: PieceState, m: F::Model, clockwise: bool)
    requires
        s.wf(),
        all_free::<F>(
            m,
            displaced(s.turned_offsets(clockwise), s.center.x as int, s.center.y as int),
        ),
    ensures
        s.turned::<F>(m, clockwise) == (PieceState { offsets: s.turned_offsets(clockwise), ..s }),
        s.turned::<F>(m, clockwise).wf(),
        distinct(s.turned::<F>(m, clockwise).blocks()),
        congruent(s.turned::<F>(m, clockwise).blocks(), s.blocks()),
        s.shape == Type::O ==> s.turned::<F>(m, clockwise) == s,
{
    rotation_closed(s.shape, clockwise, s.offsets);
    turns_keep_the_figure(s.shape, clockwise, s.offsets);
    let after = s.turned::<F>(m, clockwise);
    blocks_form_the_shape(after);
    rotation_closed(s.shape, clockwise, after.offsets);
    assert forall|i: int, j: int| 0 <= i < j < 4 implies distance2(
        after.blocks()[i],
        after.blocks()[j],
    ) == distance2(s.blocks()[i], s.blocks()[j]) by {
        assert(distance2(after.blocks()[i], after.blocks()[j]) == distance2(
            after.offsets[i],
            after.offsets[j],
        ));
        assert(distance2(s.blocks()[i], s.blocks()[j]) == distance2(s.offsets[i], s.offsets[j]));
    }
}

/// Four quarter turns the same way, with nothing in the way of any of the
/// four orientations: after each turn the piece has four different blocks
/// in the figure that it had before, and after the fourth it is as it was
/// at first.
pub proof fn four_turns_of_a_piece<F: IField + ?Sized>(s: PieceState, m: F::Model, clockwise: bool)
    requires
        s.wf(),
        forall|k: nat|
            k < 4 ==> all_free::<F>(
                m,
                displaced(#[trigger] orientation(s.shape, k), s.center.x as int, s.center.y as int),
            ),
    ensures
        ({
            let once = s.turned::<F>(m, clockwise);
            let twice = once.turned::<F>(m, clockwise);
            let thrice = twice.turned::<F>(m, clockwise);
            &&& distinct(once.blocks()) && congruent(once.blocks(), s.blocks())
            &&& distinct(twice.blocks()) && congruent(twice.blocks(), s.blocks())
            &&& distinct(thrice.blocks()) && congruent(thrice.blocks(), s.blocks())
            &&& thrice.turned::<F>(m, clockwise) == s
            &&& s.shape == Type::O ==> once == s
        }),
{
    let once = s.turned::<F>(m, clockwise);
    rotation_closed(s.shape, clockwise, s.offsets);
    free_turn::<F>(s, m, clockwise);
    let twice = once.turned::<F>(m, clockwise);
    rotation_closed(s.shape, clockwise, once.offsets);
    free_turn::<F>(once, m, clockwise);
    let thrice = twice.turned::<F>(m, clockwise);
    rotation_closed(s.shape, clockwise, twice.offsets);
    free_turn::<F>(twice, m, clockwise);
    rotation_closed(s.shape, clockwise, thrice.offsets);
    free_turn::<F>(thrice, m, clockwise);
    four_rotations(s.shape, clockwise, s.offsets);
}

/// One step of time: a piece that can fall goes down by exactly one row; a
/// piece that rests, or comes to rest by this step, locks if its lock delay
/// is used up and uses up one step of it otherwise.
pub proof fn one_step<F: IField + ?Sized>(s: PieceState, m: F::Model)
    requires
        s.wf(),
        !s.locked,
    ensures
        s.stepped::<F>(m, 1).center.x == s.center.x,
        s.stepped::<F>(m, 1).center.y == s.center.y - (if s.can_fall::<F>(m, 1) {
            1int
        } else {
            0int
        }),
        s.stepped::<F>(m, 1).offsets == s.offsets,
        s.can_fall::<F>(m, 1) && s.can_fall::<F>(m, 2) ==> !s.stepped::<F>(m, 1).locked && s.stepped::<
            F,
        >(m, 1).lock_delay == s.lock_delay,
        !(s.can_fall::<F>(m, 1) && s.can_fall::<F>(m, 2)) ==> (s.stepped::<F>(m, 1).locked <==> s.lock_delay
            == 0),
        !(s.can_fall::<F>(m, 1) && s.can_fall::<F>(m, 2)) && s.lock_delay > 0 ==> s.stepped::<F>(
            m,
            1,
        ).lock_delay == s.lock_delay - 1,
{
    lemma_fall::<F>(s, m);
    lemma_moved_down::<F>(s, m, 0);
    lemma_moved_down::<F>(s, m, 1);
    let d = s.fall::<F>(m);
    if d >= 2 {
        assert(s.can_fall::<F>(m, 1));
        assert(s.can_fall::<F>(m, 2));
    } else if d == 1 {
        assert(s.can_fall::<F>(m, 1));
    }
}

/// Steps of time add up: as long as the piece is not locked, `b` steps
/// after `a` steps come to the same as `a + b` steps at once. So a piece in
/// the air goes down by exactly one row with each step until it rests, and
/// a piece that rests locks after exactly as many further steps as its lock
/// delay grants.
pub proof fn steps_add_up<F: IField + ?Sized>(s: PieceState, m: F::Model, a: nat, b: nat)
    requires
        s.wf(),
        !s.stepped::<F>(m, a).locked,
    ensures
        s.stepped::<F>(m, a).stepped::<F>(m, b) == s.stepped::<F>(m, a + b),
{
    lemma_fall::<F>(s, m);
    let d = s.fall::<F>(m);
    let k: nat = if a < d {
        a
    } else {
        d
    };
    lemma_fall_moved::<F>(s, m, k);
    lemma_moved_down::<F>(s, m, k as int);
    let mid = s.stepped::<F>(m, a);
    let low = s.moved(0, -(k as int));
    assert(mid.blocks() == low.blocks());
    assert(mid.fall::<F>(m) == low.fall::<F>(m)) by {
        lemma_same_fall::<F>(mid, low, m, 0);
    }
    let e = mid.fall::<F>(m);
    assert(e == d - k);
    let j: nat = if b < e {
        b
    } else {
        e
    };
    lemma_moved_down::<F>(s, m, (k + j) as int);
}

/// A hard drop always locks the piece, as far down as it can fall.
pub proof fn hard_drop_locks<F: IField + ?Sized>(s: PieceState, m: F::Model)
    requires
        s.wf(),
    ensures
        s.after_input::<F>(m, Input::HardDrop).locked,
        s.after_input::<F>(m, Input::HardDrop).center.x == s.center.x,
        s.after_input::<F>(m, Input::HardDrop).center.y == s.center.y - s.fall::<F>(m),
        s.after_input::<F>(m, Input::HardDrop).offsets == s.offsets,
        !s.after_input::<F>(m, Input::HardDrop).can_fall::<F>(m, 1),
{
    lemma_fall::<F>(s, m);
    lemma_moved_down::<F>(s, m, s.fall::<F>(m) as int);
    let e = s.after_input::<F>(m, Input::HardDrop);
    assert(e.blocks() == s.moved(0, -(s.fall::<F>(m) as int)).blocks());
}

/// In the empty playfield every new piece can be dropped. The drop locks it
/// in its column with its lowest blocks in row 0.
pub proof fn hard_drop_in_empty_field(t: Type, d: nat)
    requires
        d <= u32::MAX,
    ensures
        PieceState::spawn(t, d).may_handle::<Field>(Grid::empty(), Input::HardDrop),
        PieceState::spawn(t, d).fall::<Field>(Grid::empty()) == 20,
        PieceState::spawn(t, d).after_input::<Field>(Grid::empty(), Input::HardDrop)
            == (PieceState {
            center: Coord { x: spawn_center(t).x, y: floor_row(t) as i32 },
            lock_delay: 0,
            locked: true,
            ..PieceState::spawn(t, d)
        }),
        forall|i: int|
            0 <= i < 4 ==> (#[trigger] PieceState::spawn(t, d).after_input::<Field>(
                Grid::empty(),
                Input::HardDrop,
            ).blocks()[i]).y >= 0,
        exists|i: int|
            0 <= i < 4 && (#[trigger] PieceState::spawn(t, d).after_input::<Field>(
                Grid::empty(),
                Input::HardDrop,
            ).blocks()[i]).y == 0,
{
    let s = PieceState::spawn(t, d);
    let g = Grid::empty();
    new_piece_is_well_formed(t, d);
    lemma_spawn_fall(t, d);
    let e = s.after_input::<Field>(g, Input::HardDrop);
    hard_drop_locks::<Field>(s, g);
    piece_stays_well_formed::<Field>(s, g, Input::HardDrop, 0);
    lemma_moved_down::<Field>(s, g, 20);
    lemma_spawn_cells(t, d);
    assert(e.blocks() == displaced(s.blocks(), 0, -20));
    assert(e.fits::<Field>(g)) by {
        lemma_fall::<Field>(s, g);
        assert(s.can_fall::<Field>(g, 20));
    }
    fitting_piece_can_lock(g, e);
    assert(e.blocks()[2].y == 0);
}

/// In the empty playfield a new piece with lock delay `d` falls for twenty
/// steps and locks at step `20 + d`, neither sooner nor later. Its four
/// blocks then lie in the field where they landed, and no line is cleared.
pub proof fn new_piece_in_empty_field(t: Type, d: nat, g: nat)
    requires
        d <= u32::MAX,
    ensures
        PieceState::spawn(t, d).stepped::<Field>(Grid::empty(), g).locked <==> g >= 20 + d,
        g < 20 ==> PieceState::spawn(t, d).stepped::<Field>(Grid::empty(), g).center.y
            == spawn_center(t).y - g,
        g >= 20 ==> PieceState::spawn(t, d).stepped::<Field>(Grid::empty(), g).center.y
            == spawn_center(t).y - 20,
        g >= 20 + d ==> PieceState::spawn(t, d).stepped::<Field>(Grid::empty(), g).field_after::<
            Field,
        >(Grid::empty()) == (Grid {
            rows: with_blocks(Grid::empty(), displaced(PieceState::spawn(t, d).blocks(), 0, -20)),
            score: 0,
        }),
{
    let s = PieceState::spawn(t, d);
    let e = Grid::empty();
    new_piece_is_well_formed(t, d);
    lemma_spawn_fall(t, d);
    lemma_spawn_cells(t, d);
    lemma_moved_down::<Field>(s, e, 20);
    if g >= 20 + d {
        let landed = s.stepped::<Field>(e, g);
        let cells = displaced(s.blocks(), 0, -20);
        assert(landed.blocks() == cells);
        piece_stays_well_formed::<Field>(s, e, Input::HardDrop, g);
        crate::field::empty_field_reads_free(Coord { x: 0, y: 0 });
        assert(landed.fits::<Field>(e)) by {
            lemma_fall::<Field>(s, e);
            assert(s.can_fall::<Field>(e, 20));
        }
        locked_piece_settles(e, landed);
        let all = with_blocks(e, cells);
        assert forall|y: int| 0 <= y < all.len() implies !Grid::row_full(#[trigger] all[y]) by {
            if cells.contains(cell(0, y)) {
                let w = choose|w: int| 0 <= w < cells.len() && cells[w] == cell(0, y);
                assert(cells[w].x == s.blocks()[w].x);
            }
            assert(!all[y][0]);
        }
        lemma_filter_keeps_all(all);
        assert(settled(all) =~= all);
    }
}

/// A piece whose cells are free in the playfield leaves a well-formed
/// field behind when it locks, with four lines more on the score at most.
/// It can lock there whenever the score can count the lines that it clears.
pub proof fn fitting_piece_can_lock(g: Grid, s: PieceState)
    requires
        g.wf(),
        s.wf(),
        s.fits::<Field>(g),
    ensures
        locked_in::<Field>(g, s.lock_order()).wf(),
        g.score <= locked_in::<Field>(g, s.lock_order()).score <= g.score + 4,
        locked_in::<Field>(g, s.lock_order()).score <= u32::MAX ==> lockable::<Field>(
            g,
            s.lock_order(),
        ),
{
    lemma_lock_order(g, s);
    lemma_descending_locked(g, s.lock_order());
    if locked_in::<Field>(g, s.lock_order()).score <= u32::MAX {
        lemma_descending_lockable(g, s.lock_order());
    }
}

/// A piece that covers free cells of the playfield can take any number of
/// steps and any input, as long as the score can count the lines that are
/// cleared; four lines of room are always enough. Whatever it does, the
/// field stays well formed.
pub proof fn fitting_piece_can_move(g: Grid, s: PieceState, steps: nat, input: Input)
    requires
        g.wf(),
        s.wf(),
        s.fits::<Field>(g),
    ensures
        s.stepped::<Field>(g, steps).field_after::<Field>(g).wf(),
        s.after_input::<Field>(g, input).field_after::<Field>(g).wf(),
        g.score <= s.stepped::<Field>(g, steps).field_after::<Field>(g).score <= g.score + 4,
        g.score <= s.after_input::<Field>(g, input).field_after::<Field>(g).score <= g.score + 4,
        s.stepped::<Field>(g, steps).field_after::<Field>(g).score <= u32::MAX ==> s.may_step::<
            Field,
        >(g, steps),
        s.after_input::<Field>(g, input).field_after::<Field>(g).score <= u32::MAX
            ==> s.may_handle::<Field>(g, input),
{
    piece_keeps_fitting::<Field>(s, g, input, steps);
    piece_keeps_fitting::<Field>(s, g, input, s.hard_drop_steps());
    piece_stays_well_formed::<Field>(s, g, input, steps);
    piece_stays_well_formed::<Field>(s, g, input, s.hard_drop_steps());
    fitting_piece_can_lock(g, s.stepped::<Field>(g, steps));
    fitting_piece_can_lock(g, s.stepped::<Field>(g, s.hard_drop_steps()));
    fitting_piece_can_lock(g, s.after_input::<Field>(g, input));
    hard_drop_locks::<Field>(s, g);
}

/// The score has no say in what a piece does: in two fields that hold the
/// same blocks it fits alike, moves alike and clears the same lines.
pub proof fn score_is_blind(s: PieceState, a: Grid, b: Grid, steps: nat, input: Input)
    requires
        a.rows == b.rows,
    ensures
        s.fits::<Field>(a) == s.fits::<Field>(b),
        s.stepped::<Field>(a, steps) == s.stepped::<Field>(b, steps),
        s.after_input::<Field>(a, input) == s.after_input::<Field>(b, input),
        s.stepped::<Field>(a, steps).field_after::<Field>(a).rows == s.stepped::<Field>(
            b,
            steps,
        ).field_after::<Field>(b).rows,
        s.after_input::<Field>(a, input).field_after::<Field>(a).rows == s.after_input::<Field>(
            b,
            input,
        ).field_after::<Field>(b).rows,
        s.stepped::<Field>(a, steps).field_after::<Field>(a).score - a.score == s.stepped::<Field>(
            b,
            steps,
        ).field_after::<Field>(b).score - b.score,
        s.after_input::<Field>(a, input).field_after::<Field>(a).score - a.score
            == s.after_input::<Field>(b, input).field_after::<Field>(b).score - b.score,
{
    lemma_fall_blind(s, a, b, 0);
    assert(s.turned::<Field>(a, true) == s.turned::<Field>(b, true));
    assert(s.turned::<Field>(a, false) == s.turned::<Field>(b, false));
    assert(s.shifted::<Field>(a, -1) == s.shifted::<Field>(b, -1));
    assert(s.shifted::<Field>(a, 1) == s.shifted::<Field>(b, 1));
    lemma_locked_in_blind(a, b, s.stepped::<Field>(a, steps).lock_order());
    lemma_locked_in_blind(a, b, s.after_input::<Field>(a, input).lock_order());
}

/// What the playfield holds after blocks went into the free cells `cs`,
/// from the highest row down: the blocks are all in, every row that they
/// filled is cleared and counted, and the other rows have moved down into
/// the gaps.
pub proof fn locking_settles(g: Grid, cs: Seq<Coord>)
    requires
        g.wf(),
        descending(cs),
        distinct(cs),
        all_free::<Field>(g, cs),
    ensures
        locked_in::<Field>(g, cs) == (Grid {
            rows: settled(with_blocks(g, cs)),
            score: g.score + full_rows(with_blocks(g, cs)),
        }),
    decreases cs.len(),
{
    let all = with_blocks(g, cs);
    if cs.len() == 0 {
        assert(all =~~= g.rows);
        lemma_filter_keeps_all(g.rows);
        assert(settled(g.rows) =~= g.rows);
    } else {
        let first = cs[0];
        let rest = cs.skip(1);
        let y = first.y as int;
        let next = g.after_set(first);
        lemma_first_block(g, cs);
        locking_settles(next, rest);
        let onward = with_blocks(next, rest);
        assert forall|c: Coord| cs.contains(c) <==> (c == first || rest.contains(c)) by {
            if cs.contains(c) {
                let w = choose|w: int| 0 <= w < cs.len() && cs[w] == c;
                if w > 0 {
                    assert(rest[w - 1] == c);
                }
            }
            if rest.contains(c) {
                let w = choose|w: int| 0 <= w < rest.len() && rest[w] == c;
                assert(cs[w + 1] == c);
            }
            if c == first {
                assert(cs[0] == c);
            }
        }
        assert forall|c: Coord| rest.contains(c) implies c.y <= first.y && (g.completes_row(first)
            ==> c.y < first.y) by {
            let w = choose|w: int| 0 <= w < rest.len() && rest[w] == c;
            assert(rest[w] == c);
        }
        if g.completes_row(first) {
            let marked = g.mark(first);
            assert(next == marked.clear_row(y));
            assert forall|k: int| 0 <= k < HEIGHT implies onward[k] == all.remove(y).push(
                Grid::empty_row(),
            )[k] by {
                if k < y {
                    assert(next.rows[k] == g.rows[k]);
                    assert(onward[k] =~= all[k]);
                } else if k < HEIGHT - 1 {
                    assert(next.rows[k] == g.rows[k + 1]);
                    assert(onward[k] =~= all[k + 1]);
                } else {
                    assert(next.rows[k] == Grid::empty_row());
                    assert(onward[k] =~= Grid::empty_row());
                }
            }
            assert(onward =~= all.remove(y).push(Grid::empty_row()));
            assert(all[y] =~= marked.rows[y]);
            lemma_settled_without_row(all, y);
        } else {
            assert(next == g.mark(first));
            assert forall|k: int| 0 <= k < HEIGHT implies onward[k] == all[k] by {
                assert(onward[k] =~= all[k]);
            }
            assert(onward =~= all);
        }
    }
}

/// What the playfield holds after a piece that covered free cells locked:
/// its four blocks are in, every row that they filled is cleared and
/// counted, and the rows above have moved down.
pub proof fn locked_piece_settles(g: Grid, s: PieceState)
    requires
        g.wf(),
        s.wf(),
        s.fits::<Field>(g),
    ensures
        locked_in::<Field>(g, s.lock_order()) == (Grid {
            rows: settled(with_blocks(g, s.blocks())),
            score: g.score + full_rows(with_blocks(g, s.blocks())),
        }),
        full_rows(with_blocks(g, s.blocks())) <= 4,
{
    lemma_lock_order(g, s);
    locking_settles(g, s.lock_order());
    assert(with_blocks(g, s.lock_order()) =~~= with_blocks(g, s.blocks()));
    lemma_descending_locked(g, s.lock_order());
}

/// Putting one more cell into cells that come from the highest row down
/// keeps them so, adds that cell and no other, and brings in no cell twice.
pub proof fn lemma_insert_top_down(sorted: Seq<Coord>, c: Coord)
    requires
        descending(sorted),
    ensures
        insert_top_down(sorted, c).len() == sorted.len() + 1,
        descending(insert_top_down(sorted, c)),
        within(insert_top_down(sorted, c), sorted.push(c)),
        within(sorted.push(c), insert_top_down(sorted, c)),
        distinct(sorted) && !sorted.contains(c) ==> distinct(insert_top_down(sorted, c)),
    decreases sorted.len(),
{
    let r = insert_top_down(sorted, c);
    if sorted.len() == 0 || sorted.last().y >= c.y {
        assert forall|i: int| 0 <= i < sorted.push(c).len() implies r.contains(
            #[trigger] sorted.push(c)[i],
        ) by {
            assert(r[i] == sorted.push(c)[i]);
        }
        assert forall|i: int| 0 <= i < r.len() implies sorted.push(c).contains(#[trigger] r[i]) by {
            assert(sorted.push(c)[i] == r[i]);
        }
        if distinct(sorted) && !sorted.contains(c) {
            assert forall|i: int, j: int| 0 <= i < j < r.len() implies r[i] != r[j] by {
                if j == sorted.len() {
                    assert(sorted.contains(sorted[i]));
                }
            }
        }
    } else {
        let front = sorted.drop_last();
        let last = sorted.last();
        lemma_insert_top_down(front, c);
        let inner = insert_top_down(front, c);
        assert(r == inner.push(last));
        assert forall|i: int| 0 <= i < sorted.push(c).len() implies r.contains(
            #[trigger] sorted.push(c)[i],
        ) by {
            if i < front.len() {
                assert(front.push(c)[i] == sorted[i]);
                assert(inner.contains(front.push(c)[i]));
                let w = choose|w: int| 0 <= w < inner.len() && inner[w] == front.push(c)[i];
                assert(r[w] == sorted.push(c)[i]);
            } else if i == front.len() {
                assert(r[inner.len() as int] == last);
            } else {
                assert(front.push(c)[front.len() as int] == c);
                assert(inner.contains(front.push(c)[front.len() as int]));
                let w = choose|w: int| 0 <= w < inner.len() && inner[w] == c;
                assert(r[w] == c);
            }
        }
        assert forall|i: int, j: int| 0 <= i < j < r.len() implies r[i].y >= r[j].y by {
            if j == inner.len() {
                assert(front.push(c).contains(inner[i]));
                let w = choose|w: int| 0 <= w < front.push(c).len() && front.push(c)[w] == inner[i];
                if w < front.len() {
                    assert(front[w] == sorted[w]);
                }
            }
        }
        assert forall|i: int| 0 <= i < r.len() implies sorted.push(c).contains(#[trigger] r[i]) by {
            if i < inner.len() {
                assert(front.push(c).contains(inner[i]));
                let w = choose|w: int| 0 <= w < front.push(c).len() && front.push(c)[w] == inner[i];
                if w < front.len() {
                    assert(sorted.push(c)[w] == r[i]);
                } else {
                    assert(sorted.push(c)[sorted.len() as int] == r[i]);
                }
            } else {
                assert(sorted.push(c)[sorted.len() - 1] == r[i]);
            }
        }
        if distinct(sorted) && !sorted.contains(c) {
            assert(distinct(front));
            assert(!front.contains(c)) by {
                if front.contains(c) {
                    let w = choose|w: int| 0 <= w < front.len() && front[w] == c;
                    assert(sorted[w] == c);
                }
            }
            assert forall|i: int, j: int| 0 <= i < j < r.len() implies r[i] != r[j] by {
                if j == inner.len() {
                    assert(front.push(c).contains(inner[i]));
                    let w = choose|w: int|
                        0 <= w < front.push(c).len() && front.push(c)[w] == inner[i];
                    if w < front.len() {
                        assert(front[w] == sorted[w]);
                    }
                }
            }
        }
    }
}

/// The lock order holds the cells that it was made from, each once, from
/// the highest row down.
pub proof fn lemma_top_down(cs: Seq<Coord>)
    ensures
        top_down(cs).len() == cs.len(),
        descending(top_down(cs)),
        within(top_down(cs), cs),
        within(cs, top_down(cs)),
        distinct(cs) ==> distinct(top_down(cs)),
    decreases cs.len(),
{
    if cs.len() > 0 {
        let front = cs.drop_last();
        let last = cs.last();
        lemma_top_down(front);
        let sorted = top_down(front);
        lemma_insert_top_down(sorted, last);
        let r = top_down(cs);
        assert forall|i: int| 0 <= i < cs.len() implies r.contains(#[trigger] cs[i]) by {
            if i < front.len() {
                assert(front[i] == cs[i]);
                assert(sorted.contains(front[i]));
                let w = choose|w: int| 0 <= w < sorted.len() && sorted[w] == cs[i];
                assert(sorted.push(last)[w] == cs[i]);
                assert(r.contains(sorted.push(last)[w]));
            } else {
                assert(sorted.push(last)[sorted.len() as int] == cs[i]);
                assert(r.contains(sorted.push(last)[sorted.len() as int]));
            }
        }
        assert forall|i: int| 0 <= i < r.len() implies cs.contains(#[trigger] r[i]) by {
            assert(sorted.push(last).contains(r[i]));
            let w = choose|w: int| 0 <= w < sorted.push(last).len() && sorted.push(last)[w] == r[i];
            if w < sorted.len() {
                assert(front.contains(sorted[w]));
                let v = choose|v: int| 0 <= v < front.len() && front[v] == sorted[w];
                assert(cs[v] == r[i]);
            } else {
                assert(cs[cs.len() - 1] == r[i]);
            }
        }
        if distinct(cs) {
            assert(distinct(front));
            assert(!sorted.contains(last)) by {
                if sorted.contains(last) {
                    let w = choose|w: int| 0 <= w < sorted.len() && sorted[w] == last;
                    assert(front.contains(sorted[w]));
                    let v = choose|v: int| 0 <= v < front.len() && front[v] == sorted[w];
                    assert(cs[v] == cs[cs.len() - 1]);
                }
            }
        }
    }
}

/// After a block went into the first of cells that are free and come from
/// the highest row down, the other cells are still free, and they lie
/// below the row of the block if the block cleared it.
proof fn lemma_first_block(g: Grid, cs: Seq<Coord>)
    requires
        g.wf(),
        cs.len() > 0,
        descending(cs),
        distinct(cs),
        all_free::<Field>(g, cs),
    ensures
        g.set_result(cs[0]) is Ok,
        g.after_set(cs[0]).wf(),
        g.score <= g.after_set(cs[0]).score <= g.score + 1,
        g.after_set(cs[0]).score == g.score + 1 <==> g.completes_row(cs[0]),
        descending(cs.skip(1)),
        distinct(cs.skip(1)),
        all_free::<Field>(g.after_set(cs[0]), cs.skip(1)),
        forall|i: int|
            0 <= i < cs.skip(1).len() ==> (#[trigger] cs.skip(1)[i]) != cs[0] && cs.skip(1)[i].y
                <= cs[0].y && (g.completes_row(cs[0]) ==> cs.skip(1)[i].y < cs[0].y),
{
    let first = cs[0];
    let rest = cs.skip(1);
    assert(free::<Field>(g, first));
    let next = g.after_set(first);
    set_keeps_shape(g, first);
    assert forall|i: int| 0 <= i < rest.len() implies free::<Field>(next, #[trigger] rest[i])
        && rest[i] != first && rest[i].y <= first.y && (g.completes_row(first) ==> rest[i].y
        < first.y) by {
        let c = rest[i];
        assert(c == cs[i + 1]);
        assert(free::<Field>(g, cs[i + 1]));
        if g.completes_row(first) {
            if c.y == first.y {
                assert(g.mark(first).rows[first.y as int][c.x as int]);
            }
            assert(next == g.mark(first).clear_row(first.y as int));
        } else {
            assert(next == g.mark(first));
        }
    }
    assert forall|i: int, j: int| 0 <= i < j < rest.len() implies rest[i].y >= rest[j].y
        && rest[i] != rest[j] by {
        assert(rest[i] == cs[i + 1] && rest[j] == cs[j + 1]);
    }
}

/// Fields that hold the same blocks let a piece fall equally far.
proof fn lemma_fall_blind(s: PieceState, a: Grid, b: Grid, k: nat)
    requires
        a.rows == b.rows,
    ensures
        s.fall_from::<Field>(a, k) == s.fall_from::<Field>(b, k),
    decreases HEIGHT - k,
{
    if k < HEIGHT && s.can_fall::<Field>(a, k + 1 as int) {
        lemma_fall_blind(s, a, b, k + 1);
    }
}

/// Fields that hold the same blocks hold the same blocks after more blocks
/// went in, and have counted the same number of lines for them.
proof fn lemma_locked_in_blind(a: Grid, b: Grid, cs: Seq<Coord>)
    requires
        a.rows == b.rows,
    ensures
        locked_in::<Field>(a, cs).rows == locked_in::<Field>(b, cs).rows,
        locked_in::<Field>(a, cs).score - a.score == locked_in::<Field>(b, cs).score - b.score,
    decreases cs.len(),
{
    if cs.len() > 0 {
        lemma_locked_in_blind(a.after_set(cs[0]), b.after_set(cs[0]), cs.skip(1));
    }
}

/// The lock order of a piece that covers free cells: its four blocks, each
/// once, from the highest row down, all of them free.
proof fn lemma_lock_order(g: Grid, s: PieceState)
    requires
        s.wf(),
        s.fits::<Field>(g),
    ensures
        s.lock_order().len() == 4,
        descending(s.lock_order()),
        distinct(s.lock_order()),
        all_free::<Field>(g, s.lock_order()),
        forall|c: Coord| s.blocks().contains(c) <==> s.lock_order().contains(c),
{
    blocks_form_the_shape(s);
    let cs = s.blocks();
    lemma_top_down(cs);
    let order = top_down(cs);
    assert forall|i: int| 0 <= i < order.len() implies free::<Field>(g, #[trigger] order[i]) by {
        assert(cs.contains(order[i]));
        let w = choose|w: int| 0 <= w < cs.len() && cs[w] == order[i];
        assert(free::<Field>(g, cs[w]));
    }
    assert forall|c: Coord| cs.contains(c) <==> order.contains(c) by {
        if cs.contains(c) {
            let w = choose|w: int| 0 <= w < cs.len() && cs[w] == c;
            assert(order.contains(cs[w]));
        }
        if order.contains(c) {
            let w = choose|w: int| 0 <= w < order.len() && order[w] == c;
            assert(cs.contains(order[w]));
        }
    }
}

/// Blocks that go into free cells of the playfield one after the other,
/// from the highest row down, leave a well-formed field behind, and each of
/// them clears one line at most.
proof fn lemma_descending_locked(g: Grid, cs: Seq<Coord>)
    requires
        g.wf(),
        descending(cs),
        distinct(cs),
        all_free::<Field>(g, cs),
    ensures
        locked_in::<Field>(g, cs).wf(),
        g.score <= locked_in::<Field>(g, cs).score <= g.score + cs.len(),
    decreases cs.len(),
{
    if cs.len() > 0 {
        lemma_first_block(g, cs);
        lemma_descending_locked(g.after_set(cs[0]), cs.skip(1));
    }
}

/// Blocks can be put into free cells of the playfield one after the other,
/// from the highest row down, whenever the score can count the lines that
/// they clear.
proof fn lemma_descending_lockable(g: Grid, cs: Seq<Coord>)
    requires
        g.wf(),
        descending(cs),
        distinct(cs),
        all_free::<Field>(g, cs),
        locked_in::<Field>(g, cs).score <= u32::MAX,
    ensures
        lockable::<Field>(g, cs),
    decreases cs.len(),
{
    if cs.len() > 0 {
        lemma_first_block(g, cs);
        lemma_descending_locked(g.after_set(cs[0]), cs.skip(1));
        lemma_descending_lockable(g.after_set(cs[0]), cs.skip(1));
    }
}


proof fn lemma_stepped_wf<F: IField + ?Sized>(s: PieceState, m: F::Model, g: nat)
    requires
        s.wf(),
    ensures
        s.stepped::<F>(m, g).wf(),
        s.fits::<F>(m) ==> s.stepped::<F>(m, g).fits::<F>(m),
{
    lemma_fall::<F>(s, m);
    let d = s.fall::<F>(m);
    let k: int = if g < d {
        g as int
    } else {
        d as int
    };
    lemma_moved_down::<F>(s, m, k);
    assert(s.stepped::<F>(m, g).blocks() == s.moved(0, -k).blocks());
    if k >= 1 {
        assert(s.can_fall::<F>(m, k));
    }
}

/// The fall of a piece that has fallen `k` rows already is that much
/// shorter.
pub proof fn lemma_fall_moved<F: IField + ?Sized>(s: PieceState, m: F::Model, k: nat)
    requires
        s.wf(),
        k <= s.fall::<F>(m),
    ensures
        s.moved(0, -(k as int)).wf(),
        s.moved(0, -(k as int)).fall::<F>(m) == s.fall::<F>(m) - k,
{
    lemma_fall::<F>(s, m);
    lemma_moved_down::<F>(s, m, k as int);
    let d = s.fall::<F>(m);
    let low = s.moved(0, -(k as int));
    if k >= 1 {
        assert(s.can_fall::<F>(m, k as int));
    }
    lemma_fall::<F>(low, m);
    let e = low.fall::<F>(m);
    assert(!low.can_fall::<F>(m, e + 1 as int));
    assert(!s.can_fall::<F>(m, k + (e + 1) as int));
    if k + e > d {
        assert(low.can_fall::<F>(m, d + 1 - k));
        assert(s.can_fall::<F>(m, k + (d + 1 - k)));
    }
}

/// Pieces that cover the same cells fall equally far.
proof fn lemma_same_fall<F: IField + ?Sized>(a: PieceState, b: PieceState, m: F::Model, k: nat)
    requires
        a.blocks() == b.blocks(),
    ensures
        a.fall_from::<F>(m, k) == b.fall_from::<F>(m, k),
    decreases HEIGHT - k,
{
    if k < HEIGHT && a.can_fall::<F>(m, k + 1 as int) {
        lemma_same_fall::<F>(a, b, m, k + 1);
    }
}

/// Where the blocks of a new piece lie: in the two hidden rows, in the
/// columns 3 to 6.
pub proof fn lemma_spawn_cells(t: Type, d: nat)
    ensures
        PieceState::spawn(t, d).blocks().len() == 4,
        forall|i: int|
            0 <= i < 4 ==> 3 <= (#[trigger] PieceState::spawn(t, d).blocks()[i]).x <= 6 && 20
                <= PieceState::spawn(t, d).blocks()[i].y <= 21,
        PieceState::spawn(t, d).blocks()[2].y == 20,
{
}

/// Every new piece is twenty rows above where it comes to rest in the
/// empty playfield.
proof fn lemma_spawn_fall(t: Type, d: nat)
    requires
        d <= u32::MAX,
    ensures
        PieceState::spawn(t, d).fall::<Field>(Grid::empty()) == 20,
{
    let s = PieceState::spawn(t, d);
    let g = Grid::empty();
    let cs = s.blocks();
    new_piece_is_well_formed(t, d);
    lemma_spawn_cells(t, d);
    lemma_fall::<Field>(s, g);
    let f = s.fall::<Field>(g);
    assert forall|j: int| 1 <= j <= 20 implies s.can_fall::<Field>(g, j) by {
        let cells = displaced(cs, 0, -j);
        assert forall|i: int| 0 <= i < cells.len() implies free::<Field>(g, #[trigger] cells[i]) by {
            assert(cells[i].y == cs[i].y - j);
            assert(cells[i].x == cs[i].x);
            crate::field::empty_field_reads_free(cells[i]);
        }
    }
    assert(!s.can_fall::<Field>(g, 21)) by {
        let cells = displaced(cs, 0, -21);
        assert(cells[2].y == -1);
        assert(!free::<Field>(g, cells[2]));
    }
    if f < 20 {
        assert(s.can_fall::<Field>(g, f + 1 as int));
    }
    if f > 20 {
        assert(s.can_fall::<Field>(g, 21));
    }
}

} // verus!
