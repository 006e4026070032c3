//! The falling piece: where it is, how it turns, shifts and falls, and when
//! it locks into the field.

use vstd::prelude::*;
use crate::coord::Coord;
use crate::field::{in_bounds, Error, Field, Grid, SizeError, HEIGHT, WIDTH};
use crate::shape::{
    displace, displaced, distinct, is_orientation, near, orientation, rotated, rotation_closed,
    spawn_center, spawn_offsets, spec_ccw, spec_cw, turn, Type,
};

verus! {

/// What a player can ask of the falling piece.
#[derive(Debug, Clone, Copy, PartialEq, Eq, Structural, Hash)]
pub enum Input {
    ShiftRight,
    ShiftLeft,
    RotateCW,
    RotateCCW,
    HardDrop,
}

/// The piece is locked and takes no more steps or inputs.
#[derive(Debug, PartialEq, Eq, Structural)]
pub struct LockError;

impl LockError {
    /// What went wrong, in words.
    pub fn description(&self) -> (s: &'static str)
        ensures
            s@ == "Piece is already locked!"@,
    {
        "Piece is already locked!"
    }
}

/// What a piece needs of the field it falls in: to read a cell and to put a
/// block into one. `Model` is the mathematical state of the field; the spec
/// functions say how the two operations read and change it.
pub trait IField {
    type Model;

    /// The state of this field.
    spec fn model(&self) -> Self::Model;

    /// Whether the cell `c`, inside the bounds, holds a block in state `m`.
    spec fn occupied(m: Self::Model, c: Coord) -> bool;

    /// Whether `set` may be called with `c` in state `m`.
    spec fn settable(m: Self::Model, c: Coord) -> bool;

    /// What `set` answers for `c` in state `m`.
    spec fn set_result(m: Self::Model, c: Coord) -> Result<(), Error>;

    /// The state that `set` with `c` leaves behind when called in state `m`.
    spec fn after_set(m: Self::Model, c: Coord) -> Self::Model;

    /// Reads the cell `c`: its occupancy inside the bounds, `SizeError`
    /// outside.
    fn get(&self, c: Coord) -> (r: Result<bool, SizeError>)
        ensures
            in_bounds(c) ==> r == Ok::<bool, SizeError>(Self::occupied(self.model(), c)),
            !in_bounds(c) ==> r == Err::<bool, SizeError>(SizeError),
    ;

    /// Puts a block into the cell `c`.
    fn set(&mut self, c: Coord) -> (r: Result<(), Error>)
        requires
            Self::settable(old(self).model(), c),
        ensures
            r == Self::set_result(old(self).model(), c),
            final(self).model() == Self::after_set(old(self).model(), c),
    ;
}

/// The cell `c` lies inside the bounds and holds no block.
pub open spec fn free<F: IField + ?Sized>(m: F::Model, c: Coord) -> bool {
    in_bounds(c) && !F::occupied(m, c)
}

/// Every cell of `cs` is free.
pub open spec fn all_free<F: IField + ?Sized>(m: F::Model, cs: Seq<Coord>) -> bool {
    forall|i: int| 0 <= i < cs.len() ==> free::<F>(m, #[trigger] cs[i])
}

impl IField for Field {
    type Model = Grid;

    open spec fn model(&self) -> Grid {
        self@
    }

    open spec fn occupied(m: Grid, c: Coord) -> bool {
        m.at(c.x as int, c.y as int)
    }

    /// The score can still grow if the block clears a line.
    open spec fn settable(m: Grid, c: Coord) -> bool {
        m.completes_row(c) ==> m.score < u32::MAX
    }

    open spec fn set_result(m: Grid, c: Coord) -> Result<(), Error> {
        m.set_result(c)
    }

    open spec fn after_set(m: Grid, c: Coord) -> Grid {
        m.after_set(c)
    }

    fn get(&self, c: Coord) -> (r: Result<bool, SizeError>) {
        Field::get(self, c)
    }

    fn set(&mut self, c: Coord) -> (r: Result<(), Error>) {
        Field::set(self, c)
    }
}

/// `sorted` with `c` put behind every cell that is at least as high.
pub open spec fn insert_top_down(sorted: Seq<Coord>, c: Coord) -> Seq<Coord>
    decreases sorted.len(),
{
    if sorted.len() == 0 || sorted.last().y >= c.y {
        sorted.push(c)
    } else {
        insert_top_down(sorted.drop_last(), c).push(sorted.last())
    }
}

/// The cells of `cs` from the highest row down; cells of one row keep the
/// order that they have in `cs`.
pub open spec fn top_down(cs: Seq<Coord>) -> Seq<Coord>
    decreases cs.len(),
{
    if cs.len() == 0 {
        cs
    } else {
        insert_top_down(top_down(cs.drop_last()), cs.last())
    }
}

/// Whether blocks can be put into the cells of `cs`, one after the other:
/// each `set` may be called and succeeds.
pub open spec fn lockable<F: IField + ?Sized>(m: F::Model, cs: Seq<Coord>) -> bool
    decreases cs.len(),
{
    cs.len() == 0 || (F::settable(m, cs[0]) && F::set_result(m, cs[0]) is Ok && lockable::<F>(
        F::after_set(m, cs[0]),
        cs.skip(1),
    ))
}

/// The state of the field after blocks were put into the cells of `cs`, one
/// after the other.
pub open spec fn locked_in<F: IField + ?Sized>(m: F::Model, cs: Seq<Coord>) -> F::Model
    decreases cs.len(),
{
    if cs.len() == 0 {
        m
    } else {
        locked_in::<F>(F::after_set(m, cs[0]), cs.skip(1))
    }
}

/// The mathematical state of a piece.
pub struct PieceState {
    pub shape: Type,
    /// The lock delay that the piece was made with.
    pub base_delay: nat,
    /// The steps that the piece may still rest before it locks.
    pub lock_delay: nat,
    pub center: Coord,
    pub locked: bool,
    /// The offsets of the four blocks from the centre.
    pub offsets: Seq<Coord>,
}

impl PieceState {
    /// The offsets are the shape in one of its orientations, and the centre
    /// is no further outside the field than a block can reach.
    pub open spec fn wf(self) -> bool {
        &&& is_orientation(self.shape, self.offsets)
        &&& -2 <= self.center.x <= WIDTH + 1
        &&& -2 <= self.center.y <= HEIGHT + 1
        &&& self.lock_delay <= u32::MAX
        &&& self.base_delay <= u32::MAX
    }

    /// A new piece of shape `t` with lock delay `d`.
    pub open spec fn spawn(t: Type, d: nat) -> PieceState {
        PieceState {
            shape: t,
            base_delay: d,
            lock_delay: d,
            center: spawn_center(t),
            locked: false,
            offsets: spawn_offsets(t),
        }
    }

    /// The four cells that the piece covers.
    pub open spec fn blocks(self) -> Seq<Coord> {
        displaced(self.offsets, self.center.x as int, self.center.y as int)
    }

    /// The piece moved by `dx` columns and `dy` rows.
    pub open spec fn moved(self, dx: int, dy: int) -> PieceState {
        PieceState { center: displace(self.center, dx, dy), ..self }
    }

    /// Whether the piece covers free cells only.
    pub open spec fn fits<F: IField + ?Sized>(self, m: F::Model) -> bool {
        all_free::<F>(m, self.blocks())
    }

    /// Whether the piece, moved by `dx` columns and `dy` rows, would cover
    /// free cells only.
    pub open spec fn can_shift<F: IField + ?Sized>(self, m: F::Model, dx: int, dy: int) -> bool {
        all_free::<F>(m, displaced(self.blocks(), dx, dy))
    }

    /// The offsets that a quarter turn would give the piece.
    pub open spec fn turned_offsets(self, clockwise: bool) -> Seq<Coord> {
        rotated(self.shape, clockwise, self.offsets)
    }

    /// The piece after the attempt at a quarter turn: turned if the cells
    /// that it would then cover are all free, unchanged otherwise.
    pub open spec fn turned<F: IField + ?Sized>(self, m: F::Model, clockwise: bool) -> PieceState {
        let candidate = self.turned_offsets(clockwise);
        if all_free::<F>(m, displaced(candidate, self.center.x as int, self.center.y as int)) {
            PieceState { offsets: candidate, ..self }
        } else {
            self
        }
    }

    /// Whether the piece could lie `k` rows further down.
    pub open spec fn can_fall<F: IField + ?Sized>(self, m: F::Model, k: int) -> bool {
        self.can_shift::<F>(m, 0, -k)
    }

    /// How many rows the piece falls until it comes to rest, counted on
    /// from `k` rows that it has fallen already. No piece falls further
    /// than the field is high.
    pub open spec fn fall_from<F: IField + ?Sized>(self, m: F::Model, k: nat) -> nat
        decreases HEIGHT - k,
    {
        if k < HEIGHT && self.can_fall::<F>(m, k + 1 as int) {
            self.fall_from::<F>(m, k + 1)
        } else {
            k
        }
    }

    /// How many rows the piece falls until it comes to rest.
    pub open spec fn fall<F: IField + ?Sized>(self, m: F::Model) -> nat {
        self.fall_from::<F>(m, 0)
    }

    /// The number of the step at which the piece locks. A piece in the air
    /// spends the step at which it lands as its first step at rest.
    pub open spec fn lock_step<F: IField + ?Sized>(self, m: F::Model) -> nat {
        let d = self.fall::<F>(m);
        if d > 0 {
            d + self.lock_delay
        } else {
            self.lock_delay + 1
        }
    }

    /// How many of the first `g` steps the piece spends at rest.
    pub open spec fn rested<F: IField + ?Sized>(self, m: F::Model, g: nat) -> nat {
        let d = self.fall::<F>(m);
        if g < d {
            0
        } else if d > 0 {
            (g - d + 1) as nat
        } else {
            g
        }
    }

    /// The piece after `g` steps of time: it falls one row per step until
    /// it rests, then uses up its lock delay one step at a time, and locks
    /// at the step that finds the delay used up.
    pub open spec fn stepped<F: IField + ?Sized>(self, m: F::Model, g: nat) -> PieceState {
        let d = self.fall::<F>(m);
        if g >= self.lock_step::<F>(m) {
            PieceState { lock_delay: 0, locked: true, ..self.moved(0, -d) }
        } else if g < d {
            self.moved(0, -g)
        } else {
            PieceState {
                lock_delay: (self.lock_delay - self.rested::<F>(m, g)) as nat,
                ..self.moved(0, -d)
            }
        }
    }

    /// The order in which the blocks of the piece go into the field when
    /// it locks: from the highest row down.
    pub open spec fn lock_order(self) -> Seq<Coord> {
        top_down(self.blocks())
    }

    /// The field in state `m` after the piece `self` came to be: with its
    /// blocks if it is locked, as it was if not.
    pub open spec fn field_after<F: IField + ?Sized>(self, m: F::Model) -> F::Model {
        if self.locked {
            locked_in::<F>(m, self.lock_order())
        } else {
            m
        }
    }

    /// Whether `g` steps of time can be taken: if the piece locks within
    /// them, the field takes its blocks.
    pub open spec fn may_step<F: IField + ?Sized>(self, m: F::Model, g: nat) -> bool {
        !self.locked && g >= self.lock_step::<F>(m) ==> lockable::<F>(
            m,
            self.stepped::<F>(m, g).lock_order(),
        )
    }

    /// The number of steps that a hard drop takes: enough to reach the
    /// floor from any row and to use up the lock delay.
    pub open spec fn hard_drop_steps(self) -> nat {
        HEIGHT as nat + self.lock_delay
    }

    /// The piece after it handled `input`.
    pub open spec fn after_input<F: IField + ?Sized>(self, m: F::Model, input: Input) -> PieceState {
        match input {
            Input::HardDrop => self.stepped::<F>(m, self.hard_drop_steps()),
            Input::RotateCW => self.turned::<F>(m, true),
            Input::RotateCCW => self.turned::<F>(m, false),
            Input::ShiftLeft => self.shifted::<F>(m, -1),
            Input::ShiftRight => self.shifted::<F>(m, 1),
        }
    }

    /// Whether `input` can be handled: a hard drop must be able to lock.
    pub open spec fn may_handle<F: IField + ?Sized>(self, m: F::Model, input: Input) -> bool {
        input == Input::HardDrop ==> self.may_step::<F>(m, self.hard_drop_steps())
    }

    /// The piece after the attempt at a shift by `dx` columns.
    pub open spec fn shifted<F: IField + ?Sized>(self, m: F::Model, dx: int) -> PieceState {
        if self.can_shift::<F>(m, dx, 0) {
            self.moved(dx, 0)
        } else {
            self
        }
    }
}

/// The blocks of a piece that lies `k` rows further down are its blocks
/// moved down by `k`, and what it can do one row further down, the piece
/// itself can do `k + 1` rows further down.
pub proof fn lemma_moved_down<F: IField + ?Sized>(s: PieceState, m: F::Model, k: int)
    requires
        s.wf(),
        0 <= k <= HEIGHT + 4,
    ensures
        s.moved(0, -k).blocks() == displaced(s.blocks(), 0, -k),
        s.moved(0, -k).can_shift::<F>(m, 0, -1) == s.can_fall::<F>(m, k + 1),
        forall|j: int|
            0 <= j <= HEIGHT + 4 ==> #[trigger] s.moved(0, -k).can_fall::<F>(m, j) == s.can_fall::<F>(
                m,
                k + j,
            ),
        s.moved(0, 0) == s,
        s.can_fall::<F>(m, 0) == s.fits::<F>(m),
        s.can_fall::<F>(m, k + 1) ==> s.center.y - (k + 1) >= -2,
        k >= 1 && s.can_fall::<F>(m, k) ==> s.center.y - k >= -2 && s.moved(0, -k).wf(),
{
    rotation_closed(s.shape, true, s.offsets);
    let down = s.moved(0, -k);
    assert(down.blocks() =~= displaced(s.blocks(), 0, -k));
    assert(displaced(down.blocks(), 0, -1) =~= displaced(s.blocks(), 0, -(k + 1)));
    assert forall|j: int| 0 <= j <= HEIGHT + 4 implies #[trigger] down.can_fall::<F>(m, j)
        == s.can_fall::<F>(m, k + j) by {
        assert(displaced(down.blocks(), 0, -j) =~= displaced(s.blocks(), 0, -(k + j)));
    }
    assert(displaced(s.blocks(), 0, 0) =~= s.blocks());
    if s.can_fall::<F>(m, k + 1) {
        let cells = displaced(s.blocks(), 0, -(k + 1));
        assert(free::<F>(m, cells[0]));
    }
    if k >= 1 && s.can_fall::<F>(m, k) {
        let cells = displaced(s.blocks(), 0, -k);
        assert(free::<F>(m, cells[0]));
    }
}

/// The fall of a piece ends where it first cannot go on: every row down to
/// there can be taken, the next one cannot.
pub proof fn lemma_fall_from<F: IField + ?Sized>(s: PieceState, m: F::Model, k: nat)
    requires
        s.wf(),
        k <= HEIGHT,
        forall|j: int| 1 <= j <= k ==> s.can_fall::<F>(m, j),
    ensures
        k <= s.fall_from::<F>(m, k) <= HEIGHT,
        forall|j: int| 1 <= j <= s.fall_from::<F>(m, k) ==> s.can_fall::<F>(m, j),
        !s.can_fall::<F>(m, s.fall_from::<F>(m, k) + 1 as int),
    decreases HEIGHT - k,
{
    if k < HEIGHT && s.can_fall::<F>(m, k + 1 as int) {
        lemma_fall_from::<F>(s, m, k + 1);
    } else if k == HEIGHT {
        rotation_closed(s.shape, true, s.offsets);
        assert(s.can_fall::<F>(m, 1));
        assert(s.can_fall::<F>(m, HEIGHT as int));
        let first = displaced(s.blocks(), 0, -1);
        let last = displaced(s.blocks(), 0, -(HEIGHT as int));
        let beyond = displaced(s.blocks(), 0, -(HEIGHT + 1));
        assert(free::<F>(m, first[0]));
        assert(free::<F>(m, last[0]));
        assert(!free::<F>(m, beyond[0]));
    }
}

/// What `fall` is: the number of rows that the piece can go down.
pub proof fn lemma_fall<F: IField + ?Sized>(s: PieceState, m: F::Model)
    requires
        s.wf(),
    ensures
        s.fall::<F>(m) <= HEIGHT,
        forall|j: int| 1 <= j <= s.fall::<F>(m) ==> s.can_fall::<F>(m, j),
        !s.can_fall::<F>(m, s.fall::<F>(m) + 1 as int),
{
    lemma_fall_from::<F>(s, m, 0);
}

/// A falling piece.
#[derive(Debug)]
pub struct PieceImpl {
    typ: Type,
    base_delay: u32,
    lock_delay: u32,
    center: Coord,
    lock: bool,
    relative_blocks: [Coord; 4],
}

impl View for PieceImpl {
    type V = PieceState;

    closed spec fn view(&self) -> PieceState {
        PieceState {
            shape: self.typ,
            base_delay: self.base_delay as nat,
            lock_delay: self.lock_delay as nat,
            center: self.center,
            locked: self.lock,
            offsets: self.relative_blocks@,
        }
    }
}

impl Clone for PieceImpl {
    fn clone(&self) -> (p: PieceImpl)
        ensures
            p@ == self@,
    {
        proof {
            use_type_invariant(self);
        }
        PieceImpl {
            typ: self.typ,
            base_delay: self.base_delay,
            lock_delay: self.lock_delay,
            center: self.center,
            lock: self.lock,
            relative_blocks: self.relative_blocks,
        }
    }
}

impl PieceImpl {
    #[verifier::type_invariant]
    spec fn valid(&self) -> bool {
        self@.wf()
    }

    /// A quarter turn clockwise about the origin.
    pub fn cw(a: &Coord) -> (r: Coord)
        requires
            a.x > i32::MIN,
        ensures
            r == spec_cw(*a),
    {
        Coord { x: a.y, y: -a.x }
    }

    /// A quarter turn counterclockwise about the origin.
    pub fn ccw(a: &Coord) -> (r: Coord)
        requires
            a.y > i32::MIN,
        ensures
            r == spec_ccw(*a),
    {
        Coord { x: -a.y, y: a.x }
    }

    /// Whether all of `blocks` are free cells of `field`.
    pub fn can_place<F: IField>(&self, field: &F, blocks: &[Coord; 4]) -> (r: bool)
        ensures
            r == all_free::<F>(field.model(), blocks@),
    {
        let mut i: usize = 0;
        while i < 4
            invariant
                i <= 4,
                forall|k: int| 0 <= k < i ==> free::<F>(field.model(), #[trigger] blocks@[k]),
            decreases 4 - i,
        {
            let result = field.get(blocks[i]);
            match result {
                Ok(false) => {},
                _ => {
                    assert(!free::<F>(field.model(), blocks@[i as int]));
                    return false;
                },
            }
            i += 1;
        }
        true
    }

    /// Whether the piece, moved by `displacement`, would cover free cells
    /// only.
    pub fn can_shift<F: IField>(&self, field: &F, displacement: &Coord) -> (r: bool)
        requires
            forall|i: int| 0 <= i < 4 ==> (#[trigger] self@.blocks()[i]).can_add(*displacement),
        ensures
            r == self@.can_shift::<F>(field.model(), displacement.x as int, displacement.y as int),
    {
        let blocks = self.get_blocks();
        proof {
            use_type_invariant(self);
            rotation_closed(self.typ, true, self.relative_blocks@);
        }
        let ghost target = displaced(blocks@, displacement.x as int, displacement.y as int);
        let mut i: usize = 0;
        while i < 4
            invariant
                i <= 4,
                blocks@.len() == 4,
                blocks@ == self@.blocks(),
                target == displaced(blocks@, displacement.x as int, displacement.y as int),
                forall|k: int| 0 <= k < 4 ==> (#[trigger] blocks@[k]).can_add(*displacement),
                forall|k: int| 0 <= k < i ==> free::<F>(field.model(), #[trigger] target[k]),
            decreases 4 - i,
        {
            let result = field.get(blocks[i] + *displacement);
            match result {
                Ok(false) => {},
                _ => {
                    assert(!free::<F>(field.model(), target[i as int]));
                    return false;
                },
            }
            i += 1;
        }
        true
    }

    /// Whether the piece can fall by one row.
    pub fn can_drop<F: IField>(&self, field: &F) -> (r: bool)
        ensures
            r == self@.can_shift::<F>(field.model(), 0, -1),
    {
        proof {
            use_type_invariant(self);
            rotation_closed(self.typ, true, self.relative_blocks@);
        }
        self.can_shift(field, &Coord { x: 0, y: -1 })
    }

    /// Where a quarter turn takes the offset `a` of a block of shape `t`.
    fn turn_block(t: Type, clockwise: bool, a: Coord) -> (r: Coord)
        requires
            -2 <= a.x <= 2,
            -2 <= a.y <= 2,
        ensures
            r == turn(t, clockwise, a),
    {
        reveal(turn);
        match t {
            Type::O => a,
            Type::I => {
                let mut block = a;
                // Shift all nonnegative co-ordinates up by 1
                if block.x >= 0 {
                    block.x += 1;
                }
                if block.y >= 0 {
                    block.y += 1;
                }
                // rotate
                block = if clockwise {
                    PieceImpl::cw(&block)
                } else {
                    PieceImpl::ccw(&block)
                };
                // un-shift
                if block.x > 0 {
                    block.x -= 1;
                }
                if block.y > 0 {
                    block.y -= 1;
                }
                block
            },
            _ => if clockwise {
                PieceImpl::cw(&a)
            } else {
                PieceImpl::ccw(&a)
            },
        }
    }

    /// Turns the piece by a quarter if the cells that it would then cover
    /// are free.
    fn rotate<F: IField>(&mut self, field: &F, i: Input)
        requires
            i == Input::RotateCW || i == Input::RotateCCW,
        ensures
            final(self)@ == old(self)@.turned::<F>(field.model(), i == Input::RotateCW),
    {
        let clockwise = i == Input::RotateCW;
        proof {
            use_type_invariant(&*self);
            rotation_closed(self.typ, clockwise, self.relative_blocks@);
        }
        let ghost candidate = self@.turned_offsets(clockwise);
        let mut rblocks = self.relative_blocks;
        let mut k: usize = 0;
        while k < 4
            invariant
                k <= 4,
                self.relative_blocks@.len() == 4,
                near(self.relative_blocks@),
                candidate == rotated(self.typ, clockwise, self.relative_blocks@),
                forall|j: int| 0 <= j < k ==> rblocks@[j] == candidate[j],
            decreases 4 - k,
        {
            rblocks[k] = PieceImpl::turn_block(self.typ, clockwise, self.relative_blocks[k]);
            k += 1;
        }
        assert(rblocks@ =~= candidate);
        let blocks: [Coord; 4] = [
            rblocks[0] + self.center,
            rblocks[1] + self.center,
            rblocks[2] + self.center,
            rblocks[3] + self.center,
        ];
        assert(blocks@ =~= displaced(candidate, self.center.x as int, self.center.y as int));
        if self.can_place(field, &blocks) {
            self.relative_blocks = rblocks;
        }
    }

    /// The blocks from the highest row down, blocks of one row in the order
    /// that they came in.
    fn sort_top_down(blocks: [Coord; 4]) -> (r: [Coord; 4])
        ensures
            r@ == top_down(blocks@),
    {
        let mut a = blocks;
        let mut i: usize = 1;
        proof {
            reveal_with_fuel(top_down, 2);
            reveal_with_fuel(insert_top_down, 2);
            assert(blocks@.take(1).drop_last() =~= Seq::<Coord>::empty());
            assert(a@.take(1) =~= top_down(blocks@.take(1)));
        }
        while i < 4
            invariant
                1 <= i <= 4,
                a@.take(i as int) == top_down(blocks@.take(i as int)),
                a@.skip(i as int) == blocks@.skip(i as int),
            decreases 4 - i,
        {
            let c = a[i];
            let ghost sorted = a@.take(i as int);
            let mut j: usize = i;
            proof {
                assert(a@.skip(i + 1) =~= a@.skip(i as int).skip(1));
                assert(blocks@.skip(i + 1) =~= blocks@.skip(i as int).skip(1));
                assert(sorted.take(i as int) =~= sorted);
                assert(sorted.skip(i as int) =~= Seq::<Coord>::empty());
                assert(insert_top_down(sorted.take(i as int), c) + sorted.skip(i as int)
                    =~= insert_top_down(sorted, c));
            }
            while j > 0 && a[j - 1].y < c.y
                invariant
                    j <= i < 4,
                    sorted.len() == i,
                    a@.take(j as int) == sorted.take(j as int),
                    forall|k: int| j < k <= i ==> a@[k] == sorted[k - 1],
                    a@.skip(i + 1) == blocks@.skip(i + 1),
                    insert_top_down(sorted, c) == insert_top_down(sorted.take(j as int), c)
                        + sorted.skip(j as int),
                decreases j,
            {
                proof {
                    let head = sorted.take(j as int);
                    assert(head.last() == a@.take(j as int)[j - 1]);
                    assert(head.drop_last() =~= sorted.take(j - 1));
                    assert(insert_top_down(head, c) == insert_top_down(head.drop_last(), c).push(
                        head.last(),
                    ));
                    assert(insert_top_down(head.drop_last(), c).push(head.last()) + sorted.skip(
                        j as int,
                    ) =~= insert_top_down(sorted.take(j - 1), c) + sorted.skip(j - 1));
                }
                a[j] = a[j - 1];
                j -= 1;
                proof {
                    assert(a@.take(j as int) =~= sorted.take(j as int));
                }
            }
            proof {
                let head = sorted.take(j as int);
                if j > 0 {
                    assert(head.last() == a@.take(j as int)[j - 1]);
                }
                assert(insert_top_down(head, c) == head.push(c));
            }
            a[j] = c;
            proof {
                assert(blocks@.take(i + 1).drop_last() =~= blocks@.take(i as int));
                assert(blocks@.take(i + 1).last() == blocks@.skip(i as int)[0]);
                assert(a@.take(i + 1) =~= sorted.take(j as int).push(c) + sorted.skip(j as int));
                assert(a@.skip(i + 1) =~= blocks@.skip(i + 1));
            }
            i += 1;
        }
        proof {
            assert(a@.take(4) =~= a@);
            assert(blocks@.take(4) =~= blocks@);
        }
        a
    }

    /// Puts the blocks of the piece into the field, from the highest row
    /// down, and marks the piece locked.
    fn invoke_lock<F: IField>(&mut self, field: &mut F)
        requires
            lockable::<F>(old(field).model(), old(self)@.lock_order()),
        ensures
            final(self)@ == (PieceState { locked: true, ..old(self)@ }),
            final(field).model() == locked_in::<F>(old(field).model(), old(self)@.lock_order()),
    {
        // blocks must be placed top-down
        let blocks = PieceImpl::sort_top_down(self.get_blocks());
        let ghost order = self@.lock_order();
        let ghost start = field.model();
        let mut i: usize = 0;
        proof {
            assert(order.skip(0) =~= order);
        }
        while i < 4
            invariant
                i <= 4,
                blocks@ == order,
                lockable::<F>(field.model(), order.skip(i as int)),
                locked_in::<F>(field.model(), order.skip(i as int)) == locked_in::<F>(start, order),
            decreases 4 - i,
        {
            proof {
                assert(order.skip(i as int)[0] == order[i as int]);
                assert(order.skip(i as int).skip(1) =~= order.skip(i + 1));
            }
            let _ = field.set(blocks[i]);
            i += 1;
        }
        proof {
            use_type_invariant(&*self);
        }
        self.lock = true;
    }

    /// Takes `steps` steps of time with a piece that is not locked.
    fn run_steps<F: IField>(&mut self, field: &mut F, steps: u64) -> (locked: bool)
        requires
            !old(self)@.locked,
            old(self)@.may_step::<F>(old(field).model(), steps as nat),
        ensures
            final(self)@ == old(self)@.stepped::<F>(old(field).model(), steps as nat),
            final(field).model() == final(self)@.field_after::<F>(old(field).model()),
            locked == final(self)@.locked,
    {
        let ghost s0 = self@;
        let ghost m = field.model();
        let ghost d = s0.fall::<F>(m);
        proof {
            use_type_invariant(&*self);
            lemma_fall::<F>(s0, m);
            lemma_moved_down::<F>(s0, m, 0);
        }
        let mut i: u64 = 0;
        while i < steps && !self.lock
            invariant
                i <= steps,
                s0.wf(),
                !s0.locked,
                d == s0.fall::<F>(m),
                d <= HEIGHT,
                forall|j: int| 1 <= j <= d ==> s0.can_fall::<F>(m, j),
                !s0.can_fall::<F>(m, d + 1 as int),
                s0.may_step::<F>(m, steps as nat),
                self@ == s0.stepped::<F>(m, i as nat),
                field.model() == self@.field_after::<F>(m),
            decreases steps - i + (if self.lock { 0int } else { 1int }),
        {
            let ghost k: int = if i < d { i as int } else { d as int };
            proof {
                use_type_invariant(&*self);
                lemma_moved_down::<F>(s0, m, k);
                lemma_moved_down::<F>(s0, m, k + 1);
                rotation_closed(s0.shape, true, s0.offsets);
                assert(self@.blocks() == s0.moved(0, -k).blocks());
            }
            if self.can_drop(field) {
                self.center.y -= 1;
                proof {
                    assert(self@.blocks() =~= s0.moved(0, -(k + 1)).blocks());
                }
                if !(self.can_drop(field)) {
                    if 0 == self.lock_delay {
                        proof {
                            assert(self@.blocks() == s0.stepped::<F>(m, steps as nat).blocks());
                        }
                        self.invoke_lock(field);
                    } else {
                        self.lock_delay -= 1;
                    }
                }
            } else {
                if 0 == self.lock_delay {
                    proof {
                        assert(self@.blocks() == s0.stepped::<F>(m, steps as nat).blocks());
                    }
                    self.invoke_lock(field);
                } else {
                    self.lock_delay -= 1;
                }
            }
            i += 1;
        }
        self.lock
    }

    /// Lets `g` steps of time pass and tells whether the piece is locked
    /// then. A locked piece takes no step.
    pub fn time_step<F: IField>(&mut self, field: &mut F, g: u32) -> (r: Result<bool, LockError>)
        requires
            old(self)@.may_step::<F>(old(field).model(), g as nat),
        ensures
            old(self)@.locked ==> r == Err::<bool, LockError>(LockError),
            old(self)@.locked ==> final(self)@ == old(self)@,
            old(self)@.locked ==> final(field).model() == old(field).model(),
            !old(self)@.locked ==> r == Ok::<bool, LockError>(final(self)@.locked),
            !old(self)@.locked ==> final(self)@ == old(self)@.stepped::<F>(
                old(field).model(),
                g as nat,
            ),
            !old(self)@.locked ==> final(field).model() == final(self)@.field_after::<F>(
                old(field).model(),
            ),
            old(self)@.wf(),
            final(self)@.wf(),
    {
        proof {
            use_type_invariant(&*self);
        }
        if self.lock {
            return Err(LockError);
        }
        let locked = self.run_steps(field, g as u64);
        proof {
            use_type_invariant(&*self);
        }
        Ok(locked)
    }

    /// Handles one input and tells whether the piece is locked then. A
    /// locked piece handles no input.
    pub fn handle_input<F: IField>(&mut self, field: &mut F, input: Input) -> (r: Result<
        bool,
        LockError,
    >)
        requires
            !old(self)@.locked ==> old(self)@.may_handle::<F>(old(field).model(), input),
        ensures
            old(self)@.locked ==> r == Err::<bool, LockError>(LockError),
            old(self)@.locked ==> final(self)@ == old(self)@,
            old(self)@.locked ==> final(field).model() == old(field).model(),
            !old(self)@.locked ==> r == Ok::<bool, LockError>(final(self)@.locked),
            !old(self)@.locked ==> final(self)@ == old(self)@.after_input::<F>(
                old(field).model(),
                input,
            ),
            !old(self)@.locked ==> final(field).model() == final(self)@.field_after::<F>(
                old(field).model(),
            ),
            old(self)@.wf(),
            final(self)@.wf(),
    {
        proof {
            use_type_invariant(&*self);
            rotation_closed(self.typ, true, self.relative_blocks@);
        }
        if self.lock {
            return Err(LockError);
        }
        match input {
            Input::HardDrop => {
                let steps: u64 = 22 + self.lock_delay as u64;
                let locked = self.run_steps(field, steps);
                proof {
                    use_type_invariant(&*self);
                }
                return Ok(locked);
            },
            Input::RotateCCW | Input::RotateCW => {
                self.rotate(&*field, input);
            },
            Input::ShiftLeft => {
                if self.can_shift(&*field, &Coord::new(-1, 0)) {
                    proof {
                        let cells = displaced(self@.blocks(), -1, 0);
                        assert(free::<F>(field.model(), cells[0]));
                    }
                    self.center.x -= 1;
                }
            },
            Input::ShiftRight => {
                if self.can_shift(&*field, &Coord::new(1, 0)) {
                    proof {
                        let cells = displaced(self@.blocks(), 1, 0);
                        assert(free::<F>(field.model(), cells[0]));
                    }
                    self.center.x += 1;
                }
            },
        }
        proof {
            use_type_invariant(&*self);
        }
        Ok(self.lock)
    }

    /// A new piece of shape `t` that may rest `d` steps before it locks.
    pub fn new(t: Type, d: u32) -> (p: PieceImpl)
        ensures
            p@ == PieceState::spawn(t, d as nat),
            p@.wf(),
    {
        let center = match t {
            Type::I => Coord { x: 5, y: 20 },
            Type::O => Coord { x: 5, y: 21 },
            _ => Coord { x: 4, y: 20 },
        };
        let relative_blocks = match t {
            Type::I => [
                Coord { x: -2, y: 0 },
                Coord { x: -1, y: 0 },
                Coord { x: 0, y: 0 },
                Coord { x: 1, y: 0 },
            ],
            Type::J => [
                Coord { x: -1, y: 0 },
                Coord { x: -1, y: 1 },
                Coord { x: 0, y: 0 },
                Coord { x: 1, y: 0 },
            ],
            Type::L => [
                Coord { x: -1, y: 0 },
                Coord { x: 0, y: 0 },
                Coord { x: 1, y: 0 },
                Coord { x: 1, y: 1 },
            ],
            Type::O => [
                Coord { x: -1, y: -1 },
                Coord { x: -1, y: 0 },
                Coord { x: 0, y: -1 },
                Coord { x: 0, y: 0 },
            ],
            Type::S => [
                Coord { x: -1, y: 0 },
                Coord { x: 0, y: 1 },
                Coord { x: 0, y: 0 },
                Coord { x: 1, y: 1 },
            ],
            Type::T => [
                Coord { x: -1, y: 0 },
                Coord { x: 0, y: 1 },
                Coord { x: 0, y: 0 },
                Coord { x: 1, y: 0 },
            ],
            Type::Z => [
                Coord { x: -1, y: 1 },
                Coord { x: 0, y: 1 },
                Coord { x: 0, y: 0 },
                Coord { x: 1, y: 0 },
            ],
        };
        proof {
            reveal(orientation);
            assert(relative_blocks@ =~= spawn_offsets(t));
        }
        PieceImpl { typ: t, base_delay: d, lock_delay: d, center, lock: false, relative_blocks }
    }

    pub fn get_center(&self) -> (c: Coord)
        ensures
            c == self@.center,
    {
        self.center
    }

    /// The four cells that the piece covers: pairwise different, and the
    /// shape of the piece in one of its four orientations.
    pub fn get_blocks(&self) -> (r: [Coord; 4])
        ensures
            r@ == self@.blocks(),
            self@.wf(),
            distinct(r@),
    {
        proof {
            use_type_invariant(self);
            rotation_closed(self.typ, true, self.relative_blocks@);
        }
        let r = [
            self.relative_blocks[0] + self.center,
            self.relative_blocks[1] + self.center,
            self.relative_blocks[2] + self.center,
            self.relative_blocks[3] + self.center,
        ];
        assert(r@ =~= self@.blocks());
        r
    }

    pub fn get_type(&self) -> (t: Type)
        ensures
            t == self@.shape,
    {
        self.typ
    }

    /// Whether the piece is locked.
    pub fn get_lock(&self) -> (locked: bool)
        ensures
            locked == self@.locked,
            self@.wf(),
    {
        proof {
            use_type_invariant(self);
        }
        self.lock
    }
}

/// A piece that falls in the playfield.
#[derive(Debug)]
pub struct Piece {
    pimpl: PieceImpl,
}

impl View for Piece {
    type V = PieceState;

    closed spec fn view(&self) -> PieceState {
        self.pimpl@
    }
}

impl Clone for Piece {
    fn clone(&self) -> (p: Piece)
        ensures
            p@ == self@,
    {
        Piece { pimpl: self.pimpl.clone() }
    }
}

impl Piece {
    /// A new piece of shape `t` that may rest `d` steps before it locks. It
    /// is made where pieces of its shape start, whatever lies there.
    pub fn new(t: Type, d: u32) -> (p: Piece)
        ensures
            p@ == PieceState::spawn(t, d as nat),
            p@.wf(),
    {
        Piece { pimpl: PieceImpl::new(t, d) }
    }

    /// Lets `g` steps of time pass and tells whether the piece is locked
    /// then. A locked piece takes no step.
    pub fn time_step(&mut self, field: &mut Field, g: u32) -> (r: Result<bool, LockError>)
        requires
            old(self)@.may_step::<Field>(old(field)@, g as nat),
        ensures
            old(self)@.locked ==> r == Err::<bool, LockError>(LockError),
            old(self)@.locked ==> final(self)@ == old(self)@,
            old(self)@.locked ==> final(field)@ == old(field)@,
            !old(self)@.locked ==> r == Ok::<bool, LockError>(final(self)@.locked),
            !old(self)@.locked ==> final(self)@ == old(self)@.stepped::<Field>(old(field)@, g as nat),
            !old(self)@.locked ==> final(field)@ == final(self)@.field_after::<Field>(old(field)@),
            old(self)@.wf(),
            final(self)@.wf(),
    {
        self.pimpl.time_step(field, g)
    }

    /// Handles one input and tells whether the piece is locked then. A
    /// locked piece handles no input.
    pub fn handle_input(&mut self, field: &mut Field, input: Input) -> (r: Result<bool, LockError>)
        requires
            !old(self)@.locked ==> old(self)@.may_handle::<Field>(old(field)@, input),
        ensures
            old(self)@.locked ==> r == Err::<bool, LockError>(LockError),
            old(self)@.locked ==> final(self)@ == old(self)@,
            old(self)@.locked ==> final(field)@ == old(field)@,
            !old(self)@.locked ==> r == Ok::<bool, LockError>(final(self)@.locked),
            !old(self)@.locked ==> final(self)@ == old(self)@.after_input::<Field>(old(field)@, input),
            !old(self)@.locked ==> final(field)@ == final(self)@.field_after::<Field>(old(field)@),
            old(self)@.wf(),
            final(self)@.wf(),
    {
        self.pimpl.handle_input(field, input)
    }

    pub fn get_center(&self) -> (c: Coord)
        ensures
            c == self@.center,
    {
        self.pimpl.get_center()
    }

    /// The four cells that the piece covers: pairwise different, and the
    /// shape of the piece in one of its four orientations.
    pub fn get_blocks(&self) -> (r: [Coord; 4])
        ensures
            r@ == self@.blocks(),
            self@.wf(),
            distinct(r@),
    {
        self.pimpl.get_blocks()
    }

    pub fn get_type(&self) -> (t: Type)
        ensures
            t == self@.shape,
    {
        self.pimpl.get_type()
    }

    /// Whether the piece is locked.
    pub fn get_lock(&self) -> (locked: bool)
        ensures
            locked == self@.locked,
            self@.wf(),
    {
        self.pimpl.get_lock()
    }

    /// Whether the piece covers free cells of `field` only. A piece that
    /// does can take steps and inputs as long as the score can count four
    /// more lines.
    pub fn fits(&self, field: &Field) -> (r: bool)
        ensures
            r == self@.fits::<Field>(field@),
            self@.wf(),
    {
        let blocks = self.pimpl.get_blocks();
        self.pimpl.can_place(field, &blocks)
    }
}

} // verus!
