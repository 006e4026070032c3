//! The game: the state that the simulation loop owns and how a tick changes
//! it, and the switchboard through which the loop and its callers agree on
//! running, pausing and ending.

use vstd::prelude::*;
use rand::Rng;
use crate::coord::Coord;
use crate::field::{Field, Grid, HEIGHT, WIDTH};
use crate::landing::{
    fitting_piece_can_move, lemma_spawn_cells, new_piece_is_well_formed, piece_keeps_fitting,
    piece_stays_well_formed, score_is_blind,
};
use crate::piece::{free, Input, Piece, PieceState};
use crate::shape::Type;

verus! {

/// A configuration was attempted while the game runs.
#[derive(Debug)]
pub struct RunningError;

/// A control was attempted on a game that does not run.
#[derive(Debug)]
pub struct NotRunningError;

impl RunningError {
    /// What went wrong, in words.
    pub fn description(&self) -> (s: &'static str)
        ensures
            s@ == "Attempt to call a configuration function during run."@,
    {
        "Attempt to call a configuration function during run."
    }
}

impl NotRunningError {
    /// What went wrong, in words.
    pub fn description(&self) -> (s: &'static str)
        ensures
            s@ == "Attempt to call a control function on a game which is not running."@,
    {
        "Attempt to call a control function on a game which is not running."
    }
}

/// The rows below this one are visible. A block that stays in a row from
/// this one up ends the game.
pub const VISIBLE_ROWS: usize = 20;

/// The number of shapes.
pub const SHAPES: u32 = 7;

/// Ticks per second that the loop aims at.
pub const TARGET_FPS: u32 = 60;

/// Nanoseconds in a second.
pub const NANO: u32 = 1000000000;

/// Calls `gen_range` of the `rand` crate on its thread-local generator, with
/// the range from 0 up to, not including, `bound`. The crate hands back a
/// number of that range; nothing else is known of it. An empty range makes
/// the crate panic, so the bound must not be 0.
#[verifier::external_body]
fn random_below(bound: u32) -> (i: u32)
    requires
        bound > 0,
    ensures
        i < bound,
{
    rand::thread_rng().gen_range(0..bound)
}

/// The shape with the number `i`.
pub open spec fn shape_of(i: nat) -> Type {
    if i == 0 {
        Type::I
    } else if i == 1 {
        Type::J
    } else if i == 2 {
        Type::L
    } else if i == 3 {
        Type::O
    } else if i == 4 {
        Type::S
    } else if i == 5 {
        Type::T
    } else {
        Type::Z
    }
}

/// The shape with the number `i`.
pub fn shape_from_index(i: u32) -> (t: Type)
    requires
        i < SHAPES,
    ensures
        t == shape_of(i as nat),
{
    if i == 0 {
        Type::I
    } else if i == 1 {
        Type::J
    } else if i == 2 {
        Type::L
    } else if i == 3 {
        Type::O
    } else if i == 4 {
        Type::S
    } else if i == 5 {
        Type::T
    } else {
        Type::Z
    }
}

/// A shape drawn at random.
pub fn random_type() -> Type {
    shape_from_index(random_below(SHAPES))
}

/// How long the loop sleeps after a tick whose work took `elapsed`
/// nanoseconds: what is left of the sixtieth of a second, and nothing if
/// the work took longer.
pub open spec fn frame_rest(elapsed: nat) -> nat {
    let budget = (NANO / TARGET_FPS) as nat;
    if budget > elapsed {
        (budget - elapsed) as nat
    } else {
        0
    }
}

/// How many nanoseconds the loop sleeps after a tick whose work took
/// `elapsed` nanoseconds.
pub fn frame_sleep(elapsed: u64) -> (rest: u64)
    ensures
        rest == frame_rest(elapsed as nat),
{
    let target_duration: u64 = (NANO / TARGET_FPS) as u64;
    if target_duration > elapsed {
        target_duration - elapsed
    } else {
        0
    }
}

/// Whether a block lies above the visible rows.
pub open spec fn lost(g: Grid) -> bool {
    exists|x: int, y: int| 0 <= x < WIDTH && VISIBLE_ROWS <= y < HEIGHT && g.at(x, y)
}

/// The mathematical state of a game.
pub struct GameState {
    pub field: Grid,
    pub piece: PieceState,
    /// Ticks since the piece last fell.
    pub step_counter: nat,
}

impl GameState {
    /// Field and piece are well formed, and the piece covers free cells of
    /// the field unless it is locked.
    pub open spec fn coherent(self) -> bool {
        &&& self.field.wf()
        &&& self.piece.wf()
        &&& !self.piece.locked ==> self.piece.fits::<Field>(self.field)
        &&& self.step_counter < u32::MAX
    }

    /// The state is coherent, and the piece is locked only where the game
    /// is lost: any other locked piece is replaced at once.
    pub open spec fn wf(self) -> bool {
        &&& self.coherent()
        &&& self.piece.locked ==> lost(self.field)
    }

    /// The game at its start: an empty field and a piece of shape `first`.
    pub open spec fn start(first: Type, lock_delay: nat) -> GameState {
        GameState {
            field: Grid::empty(),
            piece: PieceState::spawn(first, lock_delay),
            step_counter: 0,
        }
    }

    /// The game is over: its last piece locked and left a block above the
    /// visible rows.
    pub open spec fn over(self) -> bool {
        self.piece.locked
    }

    /// The game after the piece handled `input`, before a lock is followed
    /// up.
    pub open spec fn handled(self, input: Input) -> GameState {
        let piece = self.piece.after_input::<Field>(self.field, input);
        GameState { field: piece.field_after::<Field>(self.field), piece, ..self }
    }

    /// The game after one tick was counted, before a lock is followed up:
    /// when as many ticks as `denominator` have passed, the piece takes
    /// `numerator` steps and the count starts again.
    pub open spec fn fallen(self, denominator: nat, numerator: nat) -> GameState {
        if self.step_counter + 1 >= denominator {
            let piece = self.piece.stepped::<Field>(self.field, numerator);
            GameState { field: piece.field_after::<Field>(self.field), piece, step_counter: 0 }
        } else {
            GameState { step_counter: self.step_counter + 1, ..self }
        }
    }

    /// What follows a lock: nothing if it ends the game, a new piece of
    /// shape `next` if not. Without a lock nothing follows.
    pub open spec fn respawned(self, lock_delay: nat, next: Type) -> GameState {
        if self.piece.locked && !lost(self.field) {
            GameState { piece: PieceState::spawn(next, lock_delay), ..self }
        } else {
            self
        }
    }

    /// The game after the piece handled `input`; `next` is the shape of the
    /// piece that follows if the input locks the piece. A game that is over
    /// stays as it is.
    pub open spec fn after_input(self, input: Input, lock_delay: nat, next: Type) -> GameState {
        if self.over() {
            self
        } else {
            self.handled(input).respawned(lock_delay, next)
        }
    }

    /// The game after the inputs were handled in their order; `nexts[i]` is
    /// the shape of the piece that follows if the input `i` locks the piece.
    pub open spec fn after_inputs(
        self,
        inputs: Seq<Input>,
        lock_delay: nat,
        nexts: Seq<Type>,
    ) -> GameState
        decreases inputs.len(),
    {
        if inputs.len() == 0 {
            self
        } else {
            self.after_inputs(inputs.drop_last(), lock_delay, nexts.drop_last()).after_input(
                inputs.last(),
                lock_delay,
                nexts.last(),
            )
        }
    }

    /// The game after one tick of gravity: the tick is counted, and when as
    /// many ticks as `denominator` have passed, the piece takes `numerator`
    /// steps and the count starts again. A game that is over stays as it
    /// is.
    pub open spec fn after_gravity(
        self,
        denominator: nat,
        numerator: nat,
        lock_delay: nat,
        next: Type,
    ) -> GameState {
        if self.over() {
            self
        } else {
            self.fallen(denominator, numerator).respawned(lock_delay, next)
        }
    }

    /// The game after one tick of the loop: the queued inputs, then gravity.
    /// `nexts` holds a shape for every input and one more for gravity.
    pub open spec fn after_tick(
        self,
        inputs: Seq<Input>,
        denominator: nat,
        numerator: nat,
        lock_delay: nat,
        nexts: Seq<Type>,
    ) -> GameState {
        self.after_inputs(inputs, lock_delay, nexts.drop_last()).after_gravity(
            denominator,
            numerator,
            lock_delay,
            nexts.last(),
        )
    }
}

/// What an input or a tick of gravity leaves behind, before a lock is
/// followed up: a coherent game whose score has grown by four at most. The
/// piece can make the move whenever the score can count the lines that the
/// move clears.
pub proof fn lemma_move(s: GameState, input: Input, d: nat, n: nat)
    requires
        s.wf(),
        !s.over(),
        d <= u32::MAX,
    ensures
        s.handled(input).coherent(),
        s.fallen(d, n).coherent(),
        s.field.score <= s.handled(input).field.score <= s.field.score + 4,
        s.field.score <= s.fallen(d, n).field.score <= s.field.score + 4,
        s.handled(input).field.score <= u32::MAX ==> s.piece.may_handle::<Field>(s.field, input),
        s.fallen(d, n).field.score <= u32::MAX && s.step_counter + 1 >= d ==> s.piece.may_step::<
            Field,
        >(s.field, n),
{
    fitting_piece_can_move(s.field, s.piece, n, input);
    piece_keeps_fitting::<Field>(s.piece, s.field, input, n);
    piece_stays_well_formed::<Field>(s.piece, s.field, input, n);
}

/// Following up a lock leaves a well-formed game behind: where no block
/// lies above the visible rows, the new piece covers free cells. The field
/// stays as it is, whatever shape follows.
pub proof fn lemma_respawn(s: GameState, lock_delay: nat, next: Type)
    requires
        s.coherent(),
        lock_delay <= u32::MAX,
    ensures
        s.respawned(lock_delay, next).wf(),
        s.respawned(lock_delay, next).field == s.field,
{
    new_piece_is_well_formed(next, lock_delay);
    lemma_spawn_cells(next, lock_delay);
    if s.piece.locked && !lost(s.field) {
        let cells = PieceState::spawn(next, lock_delay).blocks();
        assert forall|i: int| 0 <= i < cells.len() implies free::<Field>(
            s.field,
            #[trigger] cells[i],
        ) by {
            if s.field.at(cells[i].x as int, cells[i].y as int) {
                assert(lost(s.field));
            }
        }
    }
}

/// Whatever the game does, it stays well formed, its score never falls,
/// and one input or one tick of gravity adds four lines at most. The shape
/// that follows a lock has no say in what the field holds.
pub proof fn lemma_step(
    s: GameState,
    input: Input,
    d: nat,
    n: nat,
    lock_delay: nat,
    next: Type,
    other: Type,
)
    requires
        s.wf(),
        lock_delay <= u32::MAX,
        d <= u32::MAX,
    ensures
        s.after_input(input, lock_delay, next).wf(),
        s.after_gravity(d, n, lock_delay, next).wf(),
        s.field.score <= s.after_input(input, lock_delay, next).field.score <= s.field.score + 4,
        s.field.score <= s.after_gravity(d, n, lock_delay, next).field.score <= s.field.score + 4,
        s.after_input(input, lock_delay, next).field == s.after_input(
            input,
            lock_delay,
            other,
        ).field,
        s.after_gravity(d, n, lock_delay, next).field == s.after_gravity(
            d,
            n,
            lock_delay,
            other,
        ).field,
{
    if !s.over() {
        lemma_move(s, input, d, n);
        lemma_respawn(s.handled(input), lock_delay, next);
        lemma_respawn(s.handled(input), lock_delay, other);
        lemma_respawn(s.fallen(d, n), lock_delay, next);
        lemma_respawn(s.fallen(d, n), lock_delay, other);
    }
}

/// The inputs of a queue are handled one after the other, in the order of
/// the queue: each by the piece that the inputs before it have left.
pub proof fn inputs_are_handled_in_order(
    s: GameState,
    inputs: Seq<Input>,
    input: Input,
    lock_delay: nat,
    nexts: Seq<Type>,
    next: Type,
)
    requires
        nexts.len() == inputs.len(),
    ensures
        s.after_inputs(Seq::empty(), lock_delay, Seq::empty()) == s,
        s.after_inputs(inputs.push(input), lock_delay, nexts.push(next)) == s.after_inputs(
            inputs,
            lock_delay,
            nexts,
        ).after_input(input, lock_delay, next),
{
    assert(inputs.push(input).drop_last() =~= inputs);
    assert(nexts.push(next).drop_last() =~= nexts);
}

/// What an input does to a game that is not over: the piece handles it.
/// If that locks the piece and no block lies above the visible rows, a new
/// piece of shape `next` with the lock delay `lock_delay` takes its place,
/// and the next input goes to that piece. If a block lies there, the game
/// is over.
pub proof fn a_lock_brings_a_new_piece(s: GameState, input: Input, lock_delay: nat, next: Type)
    requires
        !s.over(),
    ensures
        s.handled(input).piece == s.piece.after_input::<Field>(s.field, input),
        s.after_input(input, lock_delay, next).field == s.handled(input).field,
        !s.handled(input).piece.locked ==> s.after_input(input, lock_delay, next) == s.handled(
            input,
        ),
        s.handled(input).piece.locked && !lost(s.handled(input).field) ==> s.after_input(
            input,
            lock_delay,
            next,
        ).piece == PieceState::spawn(next, lock_delay),
        s.handled(input).piece.locked && lost(s.handled(input).field) ==> s.after_input(
            input,
            lock_delay,
            next,
        ).over(),
{
}

/// Handling more inputs never lowers the score: after the first `k` of the
/// inputs it is at least what it was and at most what it is after all of
/// them, and each input adds four lines at most.
pub proof fn lemma_inputs(
    s: GameState,
    inputs: Seq<Input>,
    lock_delay: nat,
    nexts: Seq<Type>,
    k: int,
)
    requires
        s.wf(),
        lock_delay <= u32::MAX,
        nexts.len() == inputs.len(),
        0 <= k <= inputs.len(),
    ensures
        s.after_inputs(inputs, lock_delay, nexts).wf(),
        s.after_inputs(inputs.take(k), lock_delay, nexts.take(k)).wf(),
        s.field.score <= s.after_inputs(inputs.take(k), lock_delay, nexts.take(k)).field.score,
        s.after_inputs(inputs.take(k), lock_delay, nexts.take(k)).field.score <= s.after_inputs(
            inputs,
            lock_delay,
            nexts,
        ).field.score,
        s.after_inputs(inputs, lock_delay, nexts).field.score <= s.field.score + 4 * inputs.len(),
    decreases inputs.len(),
{
    if inputs.len() == 0 {
        assert(inputs.take(k) =~= inputs);
        assert(nexts.take(k) =~= nexts);
    } else {
        let front = inputs.drop_last();
        let shapes = nexts.drop_last();
        let j = if k < inputs.len() {
            k
        } else {
            k - 1
        };
        lemma_inputs(s, front, lock_delay, shapes, j);
        lemma_step(
            s.after_inputs(front, lock_delay, shapes),
            inputs.last(),
            0,
            0,
            lock_delay,
            nexts.last(),
            nexts.last(),
        );
        if k < inputs.len() {
            assert(inputs.take(k) =~= front.take(j));
            assert(nexts.take(k) =~= shapes.take(j));
        } else {
            assert(inputs.take(k) =~= inputs);
            assert(nexts.take(k) =~= nexts);
        }
    }
}

/// What a tick leaves on the score is at least what its inputs leave
/// there.
pub proof fn lemma_tick_counts(
    s: GameState,
    inputs: Seq<Input>,
    denominator: nat,
    numerator: nat,
    lock_delay: nat,
    shapes: Seq<Type>,
    last: Type,
)
    requires
        s.wf(),
        shapes.len() == inputs.len(),
        lock_delay <= u32::MAX,
        denominator <= u32::MAX,
    ensures
        shapes.push(last).len() == inputs.len() + 1,
        s.after_tick(inputs, denominator, numerator, lock_delay, shapes.push(last))
            == s.after_inputs(inputs, lock_delay, shapes).after_gravity(
            denominator,
            numerator,
            lock_delay,
            last,
        ),
        s.after_inputs(inputs, lock_delay, shapes).field.score <= s.after_tick(
            inputs,
            denominator,
            numerator,
            lock_delay,
            shapes.push(last),
        ).field.score,
{
    assert(shapes.push(last).drop_last() =~= shapes);
    lemma_inputs(s, inputs, lock_delay, shapes, 0);
    lemma_step(
        s.after_inputs(inputs, lock_delay, shapes),
        Input::HardDrop,
        denominator,
        numerator,
        lock_delay,
        last,
        last,
    );
}

/// The state that the simulation loop owns: the playfield, the falling
/// piece and the count of ticks since the piece last fell.
#[derive(Debug)]
pub struct GameInfo {
    field: Field,
    piece: Piece,
    step_counter: u32,
}

impl View for GameInfo {
    type V = GameState;

    closed spec fn view(&self) -> GameState {
        GameState { field: self.field@, piece: self.piece@, step_counter: self.step_counter as nat }
    }
}

impl GameInfo {
    /// A game at its start: an empty field and a piece of shape `first`.
    pub fn new(first: Type, lock_delay: u32) -> (game: GameInfo)
        ensures
            game@ == GameState::start(first, lock_delay as nat),
            game@.wf(),
    {
        let field = Field::new();
        let piece = Piece::new(first, lock_delay);
        proof {
            lemma_spawn_cells(first, lock_delay as nat);
            let cells = piece@.blocks();
            assert forall|i: int| 0 <= i < cells.len() implies free::<Field>(
                field@,
                #[trigger] cells[i],
            ) by {
                crate::field::empty_field_reads_free(cells[i]);
            }
        }
        GameInfo { field, piece, step_counter: 0 }
    }

    /// The playfield.
    pub fn field(&self) -> (f: &Field)
        ensures
            f@ == self@.field,
    {
        &self.field
    }

    /// The falling piece.
    pub fn piece(&self) -> (p: &Piece)
        ensures
            p@ == self@.piece,
    {
        &self.piece
    }

    /// Whether the game is over.
    pub fn is_over(&self) -> (over: bool)
        ensures
            over == self@.over(),
    {
        self.piece.get_lock()
    }

    /// Whether a block lies above the visible rows.
    pub fn scan_for_loss(&self) -> (r: bool)
        ensures
            r == lost(self@.field),
    {
        let mut i: usize = 0;
        while i < WIDTH
            invariant
                i <= WIDTH,
                forall|x: int, y: int|
                    0 <= x < i && VISIBLE_ROWS <= y < HEIGHT ==> !self.field@.at(x, y),
            decreases WIDTH - i,
        {
            let mut j: usize = VISIBLE_ROWS;
            while j < HEIGHT
                invariant
                    i < WIDTH,
                    VISIBLE_ROWS <= j <= HEIGHT,
                    forall|x: int, y: int|
                        0 <= x < i && VISIBLE_ROWS <= y < HEIGHT ==> !self.field@.at(x, y),
                    forall|y: int| VISIBLE_ROWS <= y < j ==> !self.field@.at(i as int, y),
                decreases HEIGHT - j,
            {
                let cell = self.field.get(Coord { x: i as i32, y: j as i32 });
                match cell {
                    Ok(true) => {
                        assert(self.field@.at(i as int, j as int));
                        return true;
                    },
                    _ => {},
                }
                j += 1;
            }
            i += 1;
        }
        false
    }

    /// Lets the piece of a game that is not over handle `input`, if the
    /// score can count the lines that the input clears; tells whether that
    /// locked the piece. Where the score cannot, nothing happens and `None`
    /// comes back.
    fn try_handle(&mut self, input: Input) -> (r: Option<bool>)
        requires
            old(self)@.wf(),
            !old(self)@.over(),
        ensures
            r is None <==> old(self)@.handled(input).field.score > u32::MAX,
            r is None ==> final(self)@ == old(self)@,
            r matches Some(locked) ==> {
                &&& final(self)@ == old(self)@.handled(input)
                &&& locked == final(self)@.piece.locked
                &&& final(self)@.coherent()
            },
    {
        proof {
            lemma_move(self@, input, 0, 0);
        }
        let score = self.field.read_score();
        if score > u32::MAX - 4 {
            // so close to its limit, the lines are counted first, on a copy
            // whose score starts at 0
            let mut field = self.field.clone();
            field.reset_score();
            let mut piece = self.piece.clone();
            proof {
                score_is_blind(self.piece@, self.field@, field@, 0, input);
                fitting_piece_can_move(field@, piece@, 0, input);
            }
            let _ = piece.handle_input(&mut field, input);
            if field.read_score() > u32::MAX - score {
                return None;
            }
        }
        match self.piece.handle_input(&mut self.field, input) {
            Ok(locked) => Some(locked),
            Err(_) => Some(false),
        }
    }

    /// Counts one tick of a game that is not over and, when as many ticks
    /// as `denominator` have passed, lets the piece take `numerator` steps,
    /// if the score can count the lines that the steps clear; tells whether
    /// that locked the piece. Where the score cannot, nothing happens and
    /// `None` comes back.
    fn try_fall(&mut self, denominator: u32, numerator: u32) -> (r: Option<bool>)
        requires
            old(self)@.wf(),
            !old(self)@.over(),
        ensures
            r is None <==> old(self)@.fallen(denominator as nat, numerator as nat).field.score
                > u32::MAX,
            r is None ==> final(self)@ == old(self)@,
            r matches Some(locked) ==> final(self)@ == old(self)@.fallen(
                denominator as nat,
                numerator as nat,
            ) && locked == final(self)@.piece.locked && final(self)@.coherent(),
    {
        proof {
            lemma_move(self@, Input::HardDrop, denominator as nat, numerator as nat);
        }
        let score = self.field.read_score();
        if self.step_counter + 1 < denominator {
            self.step_counter += 1;
            return Some(false);
        }
        if score > u32::MAX - 4 {
            let mut field = self.field.clone();
            field.reset_score();
            let mut piece = self.piece.clone();
            proof {
                score_is_blind(self.piece@, self.field@, field@, numerator as nat, Input::HardDrop);
                fitting_piece_can_move(field@, piece@, numerator as nat, Input::HardDrop);
            }
            let _ = piece.time_step(&mut field, numerator);
            if field.read_score() > u32::MAX - score {
                return None;
            }
        }
        let stepped = self.piece.time_step(&mut self.field, numerator);
        self.step_counter = 0;
        match stepped {
            Ok(locked) => Some(locked),
            Err(_) => Some(false),
        }
    }

    /// Follows up a lock: the game is over where a block lies above the
    /// visible rows, and goes on with a new piece of shape `next` where
    /// none does. Without a lock nothing happens. Tells whether the game
    /// goes on.
    pub fn settle(&mut self, lock_delay: u32, next: Type) -> (live: bool)
        requires
            old(self)@.coherent(),
        ensures
            final(self)@ == old(self)@.respawned(lock_delay as nat, next),
            live == !final(self)@.over(),
            final(self)@.wf(),
    {
        proof {
            lemma_respawn(self@, lock_delay as nat, next);
        }
        if !self.piece.get_lock() {
            true
        } else if self.scan_for_loss() {
            false
        } else {
            self.piece = Piece::new(next, lock_delay);
            true
        }
    }

    /// Follows up a lock with a shape drawn at random. Tells whether the
    /// game goes on, and which shape was drawn.
    fn follow_up(&mut self, lock_delay: u32) -> (r: (bool, Ghost<Type>))
        requires
            old(self)@.coherent(),
        ensures
            final(self)@ == old(self)@.respawned(lock_delay as nat, r.1@),
            r.0 == !final(self)@.over(),
            final(self)@.wf(),
    {
        let next = random_type();
        let live = self.settle(lock_delay, next);
        (live, Ghost(next))
    }

    /// Lets the piece handle `input`. If that locks the piece, the game is
    /// over where a block lies above the visible rows, and goes on with a
    /// new piece of shape `next` where none does. Tells whether the game
    /// goes on. The score must be able to count the lines that the input
    /// clears.
    pub fn input_step(&mut self, input: Input, lock_delay: u32, next: Type) -> (live: bool)
        requires
            old(self)@.wf(),
            old(self)@.after_input(input, lock_delay as nat, next).field.score <= u32::MAX,
        ensures
            final(self)@ == old(self)@.after_input(input, lock_delay as nat, next),
            live == !final(self)@.over(),
            final(self)@.wf(),
            old(self)@.field.score <= final(self)@.field.score <= old(self)@.field.score + 4,
    {
        proof {
            lemma_step(self@, input, 0, 0, lock_delay as nat, next, next);
        }
        if self.is_over() {
            return false;
        }
        proof {
            lemma_move(self@, input, 0, 0);
            lemma_respawn(self@.handled(input), lock_delay as nat, next);
        }
        let _ = self.try_handle(input);
        self.settle(lock_delay, next)
    }

    /// Counts one tick and, when as many ticks as `denominator` have
    /// passed, lets the piece take `numerator` steps. A lock is followed up
    /// as in `input_step`. Tells whether the game goes on. The score must
    /// be able to count the lines that the steps clear.
    pub fn gravity_step(
        &mut self,
        denominator: u32,
        numerator: u32,
        lock_delay: u32,
        next: Type,
    ) -> (live: bool)
        requires
            old(self)@.wf(),
            old(self)@.after_gravity(
                denominator as nat,
                numerator as nat,
                lock_delay as nat,
                next,
            ).field.score <= u32::MAX,
        ensures
            final(self)@ == old(self)@.after_gravity(
                denominator as nat,
                numerator as nat,
                lock_delay as nat,
                next,
            ),
            live == !final(self)@.over(),
            final(self)@.wf(),
            old(self)@.field.score <= final(self)@.field.score <= old(self)@.field.score + 4,
    {
        proof {
            lemma_step(
                self@,
                Input::HardDrop,
                denominator as nat,
                numerator as nat,
                lock_delay as nat,
                next,
                next,
            );
        }
        if self.is_over() {
            return false;
        }
        proof {
            lemma_move(self@, Input::HardDrop, denominator as nat, numerator as nat);
            lemma_respawn(
                self@.fallen(denominator as nat, numerator as nat),
                lock_delay as nat,
                next,
            );
        }
        let _ = self.try_fall(denominator, numerator);
        self.settle(lock_delay, next)
    }

    /// Handles the queued inputs in their order, as far as the score can
    /// count the lines that they clear, and follows up every lock with a
    /// shape drawn at random. Tells whether the game goes on, and which
    /// shapes were drawn. `None` comes back where the score could not count
    /// the lines of an input; the inputs before that one are handled then.
    fn try_inputs(&mut self, queue: &Vec<Input>, lock_delay: u32) -> (r: (
        Option<bool>,
        Ghost<Seq<Type>>,
    ))
        requires
            old(self)@.wf(),
        ensures
            r.1@.len() == queue.len(),
            r.0 matches Some(live) ==> {
                &&& live == !final(self)@.over()
                &&& final(self)@.wf()
                &&& final(self)@ == old(self)@.after_inputs(queue@, lock_delay as nat, r.1@)
            },
            r.0 is None ==> old(self)@.after_inputs(queue@, lock_delay as nat, r.1@).field.score
                > u32::MAX,
    {
        let ghost mut nexts = Seq::<Type>::empty();
        let mut live = !self.is_over();
        let mut i: usize = 0;
        proof {
            assert(queue@.take(0) =~= Seq::<Input>::empty());
        }
        while i < queue.len()
            invariant
                i <= queue.len(),
                nexts.len() == i,
                old(self)@.wf(),
                self@ == old(self)@.after_inputs(queue@.take(i as int), lock_delay as nat, nexts),
                self@.wf(),
                live == !self@.over(),
            decreases queue.len() - i,
        {
            let ghost before = self@;
            let ghost drawn = nexts;
            let ghost mut next = Type::I;
            proof {
                assert(queue@.take(i + 1).drop_last() =~= queue@.take(i as int));
                assert(queue@.take(i + 1).last() == queue@[i as int]);
                assert(drawn.push(next).drop_last() =~= drawn);
            }
            if live {
                match self.try_handle(queue[i]) {
                    None => {
                        let ghost rest = Seq::new((queue.len() - i - 1) as nat, |j: int| Type::I);
                        let ghost all = drawn.push(next) + rest;
                        proof {
                            assert(all.take(i + 1) =~= drawn.push(next));
                            lemma_move(before, queue@[i as int], 0, 0);
                            lemma_respawn(before.handled(queue@[i as int]), lock_delay as nat, next);
                            lemma_inputs(old(self)@, queue@, lock_delay as nat, all, i + 1);
                        }
                        return (None, Ghost(all));
                    },
                    Some(locked) => {
                        if locked {
                            let (alive, shape) = self.follow_up(lock_delay);
                            live = alive;
                            proof {
                                next = shape@;
                            }
                        } else {
                            proof {
                                lemma_respawn(self@, lock_delay as nat, next);
                            }
                        }
                    },
                }
            }
            proof {
                nexts = nexts.push(next);
                assert(nexts.drop_last() =~= drawn);
                assert(self@ == before.after_input(queue@[i as int], lock_delay as nat, next));
            }
            i += 1;
        }
        proof {
            assert(queue@.take(queue.len() as int) =~= queue@);
        }
        (Some(live), Ghost(nexts))
    }

    /// Counts one tick and lets the piece take its steps as `gravity_step`
    /// does, if the score can count the lines that the steps clear; a lock
    /// is followed up with a shape drawn at random. Tells whether the game
    /// goes on, and which shape was drawn if one was. Where the score
    /// cannot count, nothing happens and `None` comes back.
    fn try_gravity(&mut self, denominator: u32, numerator: u32, lock_delay: u32) -> (r: (
        Option<bool>,
        Ghost<Type>,
    ))
        requires
            old(self)@.wf(),
        ensures
            r.0 matches Some(live) ==> {
                &&& live == !final(self)@.over()
                &&& final(self)@.wf()
                &&& final(self)@ == old(self)@.after_gravity(
                    denominator as nat,
                    numerator as nat,
                    lock_delay as nat,
                    r.1@,
                )
            },
            r.0 is None ==> final(self)@ == old(self)@ && old(self)@.after_gravity(
                denominator as nat,
                numerator as nat,
                lock_delay as nat,
                r.1@,
            ).field.score > u32::MAX,
    {
        if self.is_over() {
            return (Some(false), Ghost(Type::I));
        }
        proof {
            lemma_move(self@, Input::HardDrop, denominator as nat, numerator as nat);
            lemma_respawn(
                self@.fallen(denominator as nat, numerator as nat),
                lock_delay as nat,
                Type::I,
            );
        }
        match self.try_fall(denominator, numerator) {
            None => (None, Ghost(Type::I)),
            Some(locked) => {
                if locked {
                    let (live, shape) = self.follow_up(lock_delay);
                    (Some(live), shape)
                } else {
                    (Some(true), Ghost(Type::I))
                }
            },
        }
    }

    /// Handles the queued inputs in their order. Where an input locks the
    /// piece, the game is over if a block lies above the visible rows, and
    /// goes on with a new piece of a shape drawn at random if none does.
    /// Tells whether the game goes on; once it is over, what is left of
    /// the queue is dropped. The score must be able to count the lines that
    /// the inputs clear, whatever shapes are drawn.
    pub fn consume_input(&mut self, queue: Vec<Input>, lock_delay: u32) -> (live: bool)
        requires
            old(self)@.wf(),
            forall|nexts: Seq<Type>|
                nexts.len() == queue.len() ==> (#[trigger] old(self)@.after_inputs(
                    queue@,
                    lock_delay as nat,
                    nexts,
                )).field.score <= u32::MAX,
        ensures
            exists|nexts: Seq<Type>|
                nexts.len() == queue.len() && final(self)@ == #[trigger] old(self)@.after_inputs(
                    queue@,
                    lock_delay as nat,
                    nexts,
                ),
            live == !final(self)@.over(),
            final(self)@.wf(),
            old(self)@.field.score <= final(self)@.field.score <= old(self)@.field.score + 4
                * queue.len(),
    {
        let (handled, shapes) = self.try_inputs(&queue, lock_delay);
        proof {
            lemma_inputs(old(self)@, queue@, lock_delay as nat, shapes@, 0);
        }
        match handled {
            Some(live) => live,
            None => false,
        }
    }

    /// One tick of the loop: the queued inputs, then gravity. Tells whether
    /// the game goes on. The score must be able to count the lines that
    /// the tick clears, whatever shapes are drawn.
    pub fn tick(
        &mut self,
        queue: Vec<Input>,
        denominator: u32,
        numerator: u32,
        lock_delay: u32,
    ) -> (live: bool)
        requires
            old(self)@.wf(),
            forall|nexts: Seq<Type>|
                nexts.len() == queue.len() + 1 ==> (#[trigger] old(self)@.after_tick(
                    queue@,
                    denominator as nat,
                    numerator as nat,
                    lock_delay as nat,
                    nexts,
                )).field.score <= u32::MAX,
        ensures
            exists|nexts: Seq<Type>|
                nexts.len() == queue.len() + 1 && final(self)@ == #[trigger] old(self)@.after_tick(
                    queue@,
                    denominator as nat,
                    numerator as nat,
                    lock_delay as nat,
                    nexts,
                ),
            live == !final(self)@.over(),
            final(self)@.wf(),
    {
        let (handled, shapes) = self.try_inputs(&queue, lock_delay);
        proof {
            lemma_tick_counts(
                old(self)@,
                queue@,
                denominator as nat,
                numerator as nat,
                lock_delay as nat,
                shapes@,
                Type::I,
            );
        }
        if handled.is_none() {
            return false;
        }
        let (fell, shape) = self.try_gravity(denominator, numerator, lock_delay);
        proof {
            lemma_tick_counts(
                old(self)@,
                queue@,
                denominator as nat,
                numerator as nat,
                lock_delay as nat,
                shapes@,
                shape@,
            );
        }
        match fell {
            Some(live) => live,
            None => false,
        }
    }

    /// One tick of the loop, if the score can count the lines that the tick
    /// clears. Where it cannot, nothing happens and `None` comes back.
    pub fn try_tick(
        &mut self,
        queue: Vec<Input>,
        denominator: u32,
        numerator: u32,
        lock_delay: u32,
    ) -> (r: Option<bool>)
        requires
            old(self)@.wf(),
        ensures
            final(self)@.wf(),
            r is None ==> final(self)@ == old(self)@,
            r is None ==> exists|nexts: Seq<Type>|
                nexts.len() == queue.len() + 1 && (#[trigger] old(self)@.after_tick(
                    queue@,
                    denominator as nat,
                    numerator as nat,
                    lock_delay as nat,
                    nexts,
                )).field.score > u32::MAX,
            r matches Some(live) ==> live == !final(self)@.over() && exists|nexts: Seq<Type>|
                nexts.len() == queue.len() + 1 && final(self)@ == #[trigger] old(self)@.after_tick(
                    queue@,
                    denominator as nat,
                    numerator as nat,
                    lock_delay as nat,
                    nexts,
                ),
    {
        // the tick is made on a copy, which takes the place of the game
        // once all of the tick could be counted
        let mut trial = self.clone();
        let (handled, shapes) = trial.try_inputs(&queue, lock_delay);
        proof {
            lemma_tick_counts(
                self@,
                queue@,
                denominator as nat,
                numerator as nat,
                lock_delay as nat,
                shapes@,
                Type::I,
            );
        }
        if handled.is_none() {
            return None;
        }
        let (fell, shape) = trial.try_gravity(denominator, numerator, lock_delay);
        proof {
            lemma_tick_counts(
                self@,
                queue@,
                denominator as nat,
                numerator as nat,
                lock_delay as nat,
                shapes@,
                shape@,
            );
        }
        match fell {
            None => None,
            Some(live) => {
                self.field = trial.field;
                self.piece = trial.piece;
                self.step_counter = trial.step_counter;
                Some(live)
            },
        }
    }
}

impl Clone for GameInfo {
    fn clone(&self) -> (game: GameInfo)
        ensures
            game@ == self@,
    {
        GameInfo {
            field: self.field.clone(),
            piece: self.piece.clone(),
            step_counter: self.step_counter,
        }
    }
}

/// What the caller of a control has to do about the loop, in this order:
/// wake it where it waits, wait for its end, start it anew.
#[derive(Debug, Clone, Copy, PartialEq, Eq, Structural)]
pub struct Orders {
    pub wake: bool,
    pub join: bool,
    pub spawn: bool,
}

/// What the loop does next.
#[derive(Debug)]
pub enum Turn {
    /// The game is not live any more: the loop ends.
    Exit,
    /// The game is paused: the loop waits until it is woken.
    Wait,
    /// The loop runs one tick with these inputs and settings.
    Run { queue: Vec<Input>, denominator: u32, numerator: u32, lock_delay: u32 },
}

/// The mathematical state of the switchboard.
pub struct ControlState {
    /// The loop is meant to go on.
    pub live: bool,
    /// The loop is meant to wait.
    pub paused: bool,
    /// A loop was started and its end not yet waited for.
    pub thread: bool,
    /// Ticks per fall of the piece.
    pub denominator: nat,
    /// Steps per fall of the piece.
    pub numerator: nat,
    pub lock_delay: nat,
    /// The inputs that the loop has not taken yet, oldest first.
    pub queue: Seq<Input>,
    /// The loop has stopped itself on a loss, and no new game was started
    /// since.
    pub lost: bool,
}

impl ControlState {
    /// No order at all.
    pub open spec fn nothing() -> Orders {
        Orders { wake: false, join: false, spawn: false }
    }

    /// The state of a new game: at rest, with the piece falling one step
    /// every fifteen ticks and locking as soon as it rests.
    pub open spec fn initial() -> ControlState {
        ControlState {
            live: false,
            paused: true,
            thread: false,
            denominator: 15,
            numerator: 1,
            lock_delay: 0,
            queue: Seq::empty(),
            lost: false,
        }
    }

    /// The game runs: its loop is live and does not wait.
    pub open spec fn running(self) -> bool {
        self.live && !self.paused
    }

    /// The state after a look at whether the game runs: a loop that is not
    /// live is released from its pause and given up.
    pub open spec fn reaped(self) -> ControlState {
        if self.live {
            self
        } else {
            ControlState { paused: false, thread: false, ..self }
        }
    }

    /// What a look at whether the game runs asks of the caller: to wake and
    /// to wait for a loop that is not live.
    pub open spec fn upkeep(self) -> Orders {
        if self.live {
            Self::nothing()
        } else {
            Orders { wake: self.paused, join: self.thread, spawn: false }
        }
    }

    /// The state after `run`: a game that runs stays as it is, a paused
    /// loop goes on, and where no loop is left a new game starts, with
    /// nothing lost yet.
    pub open spec fn after_run(self) -> ControlState {
        if self.running() {
            self
        } else if self.reaped().thread {
            ControlState { paused: false, ..self.reaped() }
        } else {
            ControlState { paused: false, live: true, thread: true, lost: false, ..self.reaped() }
        }
    }

    /// What `run` asks of the caller.
    pub open spec fn run_orders(self) -> Orders {
        if self.running() {
            Self::nothing()
        } else if self.reaped().thread {
            Orders { wake: true, ..self.upkeep() }
        } else {
            Orders { spawn: true, ..self.upkeep() }
        }
    }

    /// The state after `pause`.
    pub open spec fn after_pause(self) -> ControlState {
        if self.running() {
            ControlState { paused: true, ..self }
        } else {
            self.reaped()
        }
    }

    /// The state after `queue_input`.
    pub open spec fn after_queue(self, input: Input) -> ControlState {
        if self.running() {
            ControlState { queue: self.queue.push(input), ..self }
        } else {
            self.reaped()
        }
    }

    /// The state after every one of `inputs` was queued in turn.
    pub open spec fn after_queue_all(self, inputs: Seq<Input>) -> ControlState
        decreases inputs.len(),
    {
        if inputs.len() == 0 {
            self
        } else {
            self.after_queue_all(inputs.drop_last()).after_queue(inputs.last())
        }
    }

    /// The state after `end_game`.
    pub open spec fn ended(self) -> ControlState {
        ControlState { live: false, paused: false, thread: false, ..self }
    }

    /// The state after the loop declared the game lost.
    pub open spec fn declared_lost(self) -> ControlState {
        ControlState { live: false, lost: true, ..self }
    }

    /// The state after the loop asked what to do next.
    pub open spec fn after_turn(self) -> ControlState {
        if self.running() {
            ControlState { queue: Seq::empty(), ..self }
        } else {
            self
        }
    }
}

/// Once the loop has declared the game lost, the game is over for its
/// callers too: it does not run, it cannot be paused, and it stays over
/// whatever is asked of it, until a new game is run.
pub proof fn game_over_is_seen(s: ControlState, input: Input)
    ensures
        s.declared_lost().lost,
        !s.declared_lost().running(),
        !s.declared_lost().after_pause().paused,
        s.declared_lost().reaped().lost,
        s.declared_lost().after_pause().lost,
        s.declared_lost().after_queue(input).lost,
        s.declared_lost().ended().lost,
        s.declared_lost().after_turn().lost,
        !s.declared_lost().after_run().lost,
{
}

/// Only the loop ends a game: a game that is not lost is not over after any
/// of the controls, be it new, running, paused or torn down.
pub proof fn only_a_loss_ends_a_game(s: ControlState, input: Input)
    requires
        !s.lost,
    ensures
        !ControlState::initial().lost,
        !s.reaped().lost,
        !s.after_run().lost,
        !s.after_pause().lost,
        !s.after_queue(input).lost,
        !s.ended().lost,
        !s.after_turn().lost,
{
}

/// The inputs that are queued while the game runs reach the loop, all of
/// them and in the order in which they were queued.
pub proof fn queued_inputs_reach_the_loop(s: ControlState, inputs: Seq<Input>)
    requires
        s.running(),
    ensures
        s.after_queue_all(inputs).running(),
        s.after_queue_all(inputs).queue == s.queue + inputs,
        s.after_queue_all(inputs).after_turn().queue == Seq::<Input>::empty(),
    decreases inputs.len(),
{
    if inputs.len() > 0 {
        queued_inputs_reach_the_loop(s, inputs.drop_last());
        assert(s.queue + inputs =~= (s.queue + inputs.drop_last()).push(inputs.last()));
    } else {
        assert(s.queue + inputs =~= s.queue);
    }
}

/// The switchboard between the loop and its callers: whether the loop is
/// live or paused, the settings for the next ticks, and the inputs that the
/// loop has not taken yet. Callers and loop share it under one lock.
#[derive(Debug)]
pub struct GameImpl {
    game_live: bool,
    paused: bool,
    thread_present: bool,
    step_ratio: (u32, u32),
    lock_delay: u32,
    input_queue: Vec<Input>,
    lost: bool,
}

impl View for GameImpl {
    type V = ControlState;

    closed spec fn view(&self) -> ControlState {
        ControlState {
            live: self.game_live,
            paused: self.paused,
            thread: self.thread_present,
            denominator: self.step_ratio.0 as nat,
            numerator: self.step_ratio.1 as nat,
            lock_delay: self.lock_delay as nat,
            queue: self.input_queue@,
            lost: self.lost,
        }
    }
}

impl GameImpl {
    /// The switchboard of a new game.
    pub fn new() -> (game: GameImpl)
        ensures
            game@ == ControlState::initial(),
    {
        GameImpl {
            game_live: false,
            paused: true,
            thread_present: false,
            step_ratio: (15, 1),
            lock_delay: 0,
            input_queue: Vec::new(),
            lost: false,
        }
    }

    /// Tells whether the game runs. A loop that is not live any more is
    /// given up: the caller wakes it if it waits and waits for its end.
    pub fn is_game_running(&mut self) -> (r: (bool, Orders))
        ensures
            r.0 == old(self)@.running(),
            r.1 == old(self)@.upkeep(),
            final(self)@ == old(self)@.reaped(),
    {
        if !self.game_live {
            let orders = Orders { wake: self.paused, join: self.thread_present, spawn: false };
            self.paused = false;
            self.thread_present = false;
            (false, orders)
        } else {
            (!self.paused, Orders { wake: false, join: false, spawn: false })
        }
    }

    /// Starts the game, or lets a paused game go on. A game that runs
    /// answers with `RunningError`.
    pub fn run(&mut self) -> (r: (Result<(), RunningError>, Orders))
        ensures
            old(self)@.running() <==> r.0 is Err,
            r.1 == old(self)@.run_orders(),
            final(self)@ == old(self)@.after_run(),
            r.0 is Ok ==> final(self)@.running(),
    {
        let (running, upkeep) = self.is_game_running();
        if running {
            (Err(RunningError), upkeep)
        } else {
            let thread_absent: bool = !self.thread_present;
            if thread_absent {
                self.paused = false;
                self.game_live = true;
                self.thread_present = true;
                self.lost = false;
                (Ok(()), Orders { wake: upkeep.wake, join: upkeep.join, spawn: true })
            } else {
                self.paused = false;
                (Ok(()), Orders { wake: true, join: upkeep.join, spawn: false })
            }
        }
    }

    /// Pauses the game. A game that does not run answers with
    /// `NotRunningError`.
    pub fn pause(&mut self) -> (r: (Result<(), NotRunningError>, Orders))
        ensures
            old(self)@.running() <==> r.0 is Ok,
            r.1 == old(self)@.upkeep(),
            final(self)@ == old(self)@.after_pause(),
    {
        let (running, upkeep) = self.is_game_running();
        if !running {
            (Err(NotRunningError), upkeep)
        } else {
            self.paused = true;
            (Ok(()), upkeep)
        }
    }

    /// Tells whether the renderer may be replaced now: not while the game
    /// runs.
    pub fn set_renderer(&mut self) -> (r: (Result<(), RunningError>, Orders))
        ensures
            old(self)@.running() <==> r.0 is Err,
            r.1 == old(self)@.upkeep(),
            final(self)@ == old(self)@.reaped(),
    {
        let (running, upkeep) = self.is_game_running();
        if running {
            return (Err(RunningError), upkeep);
        }
        (Ok(()), upkeep)
    }

    /// Puts `input` at the end of the queue. A game that does not run
    /// answers with `NotRunningError`.
    pub fn queue_input(&mut self, input: Input) -> (r: (Result<(), NotRunningError>, Orders))
        ensures
            old(self)@.running() <==> r.0 is Ok,
            r.1 == old(self)@.upkeep(),
            final(self)@ == old(self)@.after_queue(input),
    {
        let (running, upkeep) = self.is_game_running();
        if running {
            self.input_queue.push(input);
            (Ok(()), upkeep)
        } else {
            (Err(NotRunningError), upkeep)
        }
    }

    /// Tells whether the game is over: whether its loop has stopped itself
    /// on a loss. A game that was never run, that runs, that is paused or
    /// that was ended by its caller is not over.
    pub fn is_game_over(&mut self) -> (r: (bool, Orders))
        ensures
            r.0 == old(self)@.lost,
            r.1 == old(self)@.upkeep(),
            final(self)@ == old(self)@.reaped(),
    {
        let (_, upkeep) = self.is_game_running();
        (self.lost, upkeep)
    }

    /// Sets how often the piece falls: `numerator` steps every
    /// `denominator` ticks. A game that runs answers with `RunningError`.
    pub fn set_step_ratio(&mut self, denominator: u32, numerator: u32) -> (r: (
        Result<(), RunningError>,
        Orders,
    ))
        ensures
            old(self)@.running() <==> r.0 is Err,
            r.1 == old(self)@.upkeep(),
            r.0 is Err ==> final(self)@ == old(self)@,
            r.0 is Ok ==> final(self)@ == (ControlState {
                denominator: denominator as nat,
                numerator: numerator as nat,
                ..old(self)@.reaped()
            }),
    {
        let (running, upkeep) = self.is_game_running();
        if running {
            return (Err(RunningError), upkeep);
        } else {
            self.step_ratio = (denominator, numerator);
            (Ok(()), upkeep)
        }
    }

    /// Sets the lock delay of the pieces to come. A game that runs answers
    /// with `RunningError`.
    pub fn set_lock_delay(&mut self, delay: u32) -> (r: (Result<(), RunningError>, Orders))
        ensures
            old(self)@.running() <==> r.0 is Err,
            r.1 == old(self)@.upkeep(),
            r.0 is Err ==> final(self)@ == old(self)@,
            r.0 is Ok ==> final(self)@ == (ControlState {
                lock_delay: delay as nat,
                ..old(self)@.reaped()
            }),
    {
        let (running, upkeep) = self.is_game_running();
        if running {
            return (Err(RunningError), upkeep);
        } else {
            self.lock_delay = delay;
            (Ok(()), upkeep)
        }
    }

    /// The lock delay for the first piece of a game.
    pub fn lock_delay(&self) -> (delay: u32)
        ensures
            delay == self@.lock_delay,
    {
        self.lock_delay
    }

    /// Ends the game: the loop is not live any more, and the caller wakes it
    /// if it waits and waits for its end.
    pub fn end_game(&mut self) -> (orders: Orders)
        ensures
            final(self)@ == old(self)@.ended(),
            orders == (Orders { wake: old(self)@.paused, join: old(self)@.thread, spawn: false }),
    {
        self.game_live = false;
        let orders = Orders { wake: self.paused, join: self.thread_present, spawn: false };
        self.paused = false;
        self.thread_present = false;
        orders
    }

    /// The loop declares the game over: it has stopped itself on a loss.
    pub fn game_over(&mut self)
        ensures
            final(self)@ == old(self)@.declared_lost(),
    {
        self.game_live = false;
        self.lost = true;
    }

    /// The loop asks what to do next. Where the game runs, the loop gets
    /// the queue, which is empty afterwards, and the settings for its tick.
    pub fn begin_tick(&mut self) -> (turn: Turn)
        ensures
            final(self)@ == old(self)@.after_turn(),
            turn is Exit <==> !old(self)@.live,
            turn is Wait <==> old(self)@.live && old(self)@.paused,
            turn is Run <==> old(self)@.running(),
            turn matches Turn::Run { queue, denominator, numerator, lock_delay } ==> {
                &&& queue@ == old(self)@.queue
                &&& denominator == old(self)@.denominator
                &&& numerator == old(self)@.numerator
                &&& lock_delay == old(self)@.lock_delay
            },
    {
        if !self.game_live {
            Turn::Exit
        } else if self.paused {
            Turn::Wait
        } else {
            let mut queue: Vec<Input> = Vec::new();
            core::mem::swap(&mut queue, &mut self.input_queue);
            Turn::Run {
                queue,
                denominator: self.step_ratio.0,
                numerator: self.step_ratio.1,
                lock_delay: self.lock_delay,
            }
        }
    }
}

} // verus!
