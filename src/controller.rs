//! The move controller: a puzzle with a queue of twists that are being
//! animated, undo and redo history, and scramble/solve tracking.
//!
//! Twists change the `latest` state at once and wait in a queue; frames of
//! animation drain the queue into the `displayed` state. Applying the queued
//! twists, in order, to `displayed` always gives `latest`.

use vstd::prelude::*;
use std::collections::VecDeque;
use crate::orientation::{ints, SignedPerm};
use crate::state::{
    all_defined, apply_seq, apply_twist, lemma_apply_seq_first, lemma_apply_seq_push,
    lemma_apply_seq_wf, lemma_apply_twist_wf, lemma_rev_defined, lemma_twist_round_trip, solved,
    states_wf, twist_defined, PuzzleState, TwistError,
};
use crate::topology::{next_seed, Face, PuzzleType, Sticker, Twist, TwistMetric};

verus! {

/// Animation progress, and decoration values, are fixed-point numbers with
/// this many units to one.
pub const PROGRESS_ONE: u64 = 1000000;

/// Whether the puzzle has been scrambled.
#[derive(Debug, Copy, Clone, PartialEq, Eq, Structural)]
pub enum ScrambleState {
    /// Unscrambled.
    Unscrambled,
    /// Some small number of scramble twists.
    Partial,
    /// Fully scrambled.
    Full,
    /// Was solved by the user, even if not currently solved.
    Solved,
}

impl Default for ScrambleState {
    fn default() -> (r: ScrambleState)
        ensures
            r == ScrambleState::Unscrambled,
    {
        ScrambleState::Unscrambled
    }
}

/// Why a controller operation failed.
#[derive(Debug, Copy, Clone, PartialEq, Eq, Structural)]
pub enum ControllerError {
    /// The undo history is empty.
    NothingToUndo,
    /// The redo history is empty.
    NothingToRedo,
    /// The twist cannot be applied to this puzzle.
    Twist(TwistError),
}

impl ControllerError {
    /// A short human-readable reason.
    pub fn message(&self) -> (r: &'static str)
        ensures
            r@ == match self {
                ControllerError::NothingToUndo => "Nothing to undo"@,
                ControllerError::NothingToRedo => "Nothing to redo"@,
                ControllerError::Twist(TwistError::Unsupported) => "Unsupported twist for this puzzle"@,
                ControllerError::Twist(TwistError::OverlappingCycles) => "Twist has overlapping cycles"@,
            },
    {
        match self {
            ControllerError::NothingToUndo => "Nothing to undo",
            ControllerError::NothingToRedo => "Nothing to redo",
            ControllerError::Twist(TwistError::Unsupported) => "Unsupported twist for this puzzle",
            ControllerError::Twist(TwistError::OverlappingCycles) => "Twist has overlapping cycles",
        }
    }
}

/// What the controller holds, as mathematical values.
pub struct ControllerModel {
    pub ty: PuzzleType,
    pub displayed: Seq<SignedPerm>,
    pub latest: Seq<SignedPerm>,
    pub queue: Seq<Twist>,
    pub progress: int,
    pub undo: Seq<Twist>,
    pub redo: Seq<Twist>,
    pub scramble_state: ScrambleState,
    pub scramble: Seq<Twist>,
    pub unsaved: bool,
}

impl ControllerModel {
    /// The states are states of the type, every twist held can be applied,
    /// and the queue leads from `displayed` to `latest`.
    pub open spec fn wf(self) -> bool {
        &&& self.ty.wf()
        &&& states_wf(self.ty, self.displayed)
        &&& states_wf(self.ty, self.latest)
        &&& all_defined(self.ty, self.queue)
        &&& all_defined(self.ty, self.undo)
        &&& all_defined(self.ty, self.redo)
        &&& self.latest == apply_seq(self.ty, self.displayed, self.queue)
        &&& 0 <= self.progress <= PROGRESS_ONE
    }

    /// A new controller: solved, with no history.
    pub open spec fn fresh(ty: PuzzleType) -> ControllerModel {
        ControllerModel {
            ty,
            displayed: solved(ty),
            latest: solved(ty),
            queue: Seq::empty(),
            progress: 0,
            undo: Seq::empty(),
            redo: Seq::empty(),
            scramble_state: ScrambleState::Unscrambled,
            scramble: Seq::empty(),
            unsaved: false,
        }
    }

    /// `t` would cancel the last twist of the undo history.
    pub open spec fn cancels(self, t: Twist) -> bool {
        self.undo.len() > 0 && self.undo.last() == t.spec_rev()
    }

    /// Undoes the last twist: its reverse is applied and queued, and it moves
    /// to the redo history. Nothing changes when there is nothing to undo.
    pub open spec fn undo_step(self) -> ControllerModel {
        if self.undo.len() == 0 {
            self
        } else {
            let t = self.undo.last();
            ControllerModel {
                latest: apply_twist(self.ty, self.latest, t.spec_rev()),
                queue: self.queue.push(t.spec_rev()),
                undo: self.undo.drop_last(),
                redo: self.redo.push(t),
                unsaved: true,
                ..self
            }
        }
    }

    /// Redoes the last undone twist. Nothing changes when there is nothing
    /// to redo.
    pub open spec fn redo_step(self) -> ControllerModel {
        if self.redo.len() == 0 {
            self
        } else {
            let t = self.redo.last();
            ControllerModel {
                latest: apply_twist(self.ty, self.latest, t),
                queue: self.queue.push(t),
                undo: self.undo.push(t),
                redo: self.redo.drop_last(),
                unsaved: true,
                ..self
            }
        }
    }

    /// Applies a twist that can be applied: the redo history is dropped; a
    /// twist that cancels the last one undoes it, any other is applied,
    /// queued and recorded.
    pub open spec fn twist_step(self, t: Twist) -> ControllerModel {
        if self.cancels(t) {
            ControllerModel { redo: Seq::empty(), ..self }.undo_step()
        } else {
            ControllerModel {
                latest: apply_twist(self.ty, self.latest, t),
                queue: self.queue.push(t),
                undo: self.undo.push(t),
                redo: Seq::empty(),
                unsaved: true,
                ..self
            }
        }
    }

    /// The displayed state catches up with the latest one.
    pub open spec fn caught_up(self) -> ControllerModel {
        ControllerModel { displayed: self.latest, queue: Seq::empty(), progress: 0, ..self }
    }
}

/// One growth step: by the factor `GROWTH_NUM / GROWTH_DEN`, rounded down,
/// but by at least one unit while the value is positive.
pub open spec fn grow_step(v: int) -> int {
    if v <= 0 {
        v
    } else if v * (GROWTH_NUM as int) / (GROWTH_DEN as int) > v {
        v * (GROWTH_NUM as int) / (GROWTH_DEN as int)
    } else {
        v + 1
    }
}

/// `x` after `k` growth steps.
pub open spec fn grown(x: int, k: nat) -> int
    decreases k,
{
    if k == 0 {
        x
    } else {
        grow_step(grown(x, (k - 1) as nat))
    }
}

/// Per extra queued twist, animation speeds up by `GROWTH_NUM / GROWTH_DEN`,
/// which is `e^(1/2)` to four decimals.
pub const GROWTH_NUM: u64 = 16487;

pub const GROWTH_DEN: u64 = 10000;

/// The largest progress step that does not complete a twist at once: a
/// third of a twist, rounded up.
pub const MAX_FRAME_STEP: u64 = 333334;

/// The progress that a frame of `delta_us` microseconds adds to the twist
/// being animated: `delta / duration` of a twist, rounded up, then grown
/// once per queued twist after the first when `dynamic` holds. A step that
/// cannot be computed (a zero duration), a frame of a third of a twist or
/// more, and a grown step above `MAX_FRAME_STEP` complete the twist at once.
/// A frame in which no time passed adds nothing.
pub open spec fn spec_twist_delta(delta_us: int, duration_us: int, dynamic: bool, queue_len: int) -> int {
    if duration_us == 0 || 3 * delta_us >= duration_us {
        PROGRESS_ONE as int
    } else {
        let base = (delta_us * PROGRESS_ONE + duration_us - 1) / duration_us;
        let k: nat = if dynamic && queue_len > 1 {
            (queue_len - 1) as nat
        } else {
            0
        };
        let v = grown(base, k);
        if v > MAX_FRAME_STEP {
            PROGRESS_ONE as int
        } else {
            v
        }
    }
}

proof fn lemma_grow_step(v: int)
    requires
        v >= 0,
    ensures
        grow_step(v) >= v,
        v > 0 ==> grow_step(v) > v,
{
}

/// Growing never lowers a value, and lifts a positive one.
proof fn lemma_grown_mono(x: int, k: nat)
    requires
        x >= 0,
    ensures
        grown(x, k) >= x,
        x > 0 && k > 0 ==> grown(x, k) > x,
    decreases k,
{
    if k > 0 {
        lemma_grown_mono(x, (k - 1) as nat);
        lemma_grow_step(grown(x, (k - 1) as nat));
    }
}

/// Growing further never brings a value back under a bound it reached.
proof fn lemma_grown_stays(x: int, j: nat, k: nat)
    requires
        x >= 0,
        j <= k,
    ensures
        grown(x, k) >= grown(x, j),
    decreases k,
{
    if j < k {
        lemma_grown_stays(x, j, (k - 1) as nat);
        lemma_grown_mono(x, (k - 1) as nat);
        lemma_grow_step(grown(x, (k - 1) as nat));
    }
}

/// With dynamic speed, a frame that is more than nothing and less than a
/// third of a twist moves a twist further when more twists are queued
/// than when it is alone; alone, it does not complete it.
pub proof fn lemma_dynamic_speed_grows(delta_us: int, duration_us: int, queue_len: int)
    requires
        0 < delta_us,
        3 * delta_us < duration_us,
        queue_len > 1,
    ensures
        spec_twist_delta(delta_us, duration_us, true, queue_len) > spec_twist_delta(delta_us, duration_us, true, 1),
        0 < spec_twist_delta(delta_us, duration_us, true, 1) < PROGRESS_ONE,
{
    let base = (delta_us * PROGRESS_ONE + duration_us - 1) / duration_us;
    lemma_base_step(delta_us, duration_us);
    lemma_grown_mono(base, (queue_len - 1) as nat);
}

/// The rounded-up step of a frame under a third of a twist is positive
/// and at most `MAX_FRAME_STEP`.
proof fn lemma_base_step(delta_us: int, duration_us: int)
    requires
        0 <= delta_us,
        3 * delta_us < duration_us,
    ensures
        0 <= (delta_us * PROGRESS_ONE + duration_us - 1) / duration_us <= MAX_FRAME_STEP,
        delta_us > 0 ==> (delta_us * PROGRESS_ONE + duration_us - 1) / duration_us >= 1,
{
    let x = delta_us * 1000000 + duration_us - 1;
    assert(x < duration_us * 333335) by (nonlinear_arith)
        requires
            x == delta_us * 1000000 + duration_us - 1,
            3 * delta_us + 1 <= duration_us,
            delta_us >= 0,
    ;
    vstd::arithmetic::div_mod::lemma_multiply_divide_lt(x, duration_us, 333335);
    vstd::arithmetic::div_mod::lemma_div_pos_is_pos(x, duration_us);
    if delta_us > 0 {
        assert(x >= duration_us) by (nonlinear_arith)
            requires
                x == delta_us * 1000000 + duration_us - 1,
                delta_us >= 1,
        ;
        vstd::arithmetic::div_mod::lemma_div_is_ordered(duration_us, x, duration_us);
        vstd::arithmetic::div_mod::lemma_div_by_multiple(1, duration_us);
    }
}

/// Returns the progress that a frame of `delta_us` microseconds adds to the
/// twist being animated, with `queue_len` twists queued.
pub fn twist_delta(delta_us: u64, duration_us: u64, dynamic: bool, queue_len: usize) -> (r: u64)
    ensures
        r as int == spec_twist_delta(delta_us as int, duration_us as int, dynamic, queue_len as int),
        r <= PROGRESS_ONE,
{
    if duration_us == 0 || delta_us >= duration_us || 3 * (delta_us as u128) >= duration_us as u128 {
        return PROGRESS_ONE;
    }
    let ghost k: nat = if dynamic && queue_len > 1 {
        (queue_len - 1) as nat
    } else {
        0
    };
    let ghost base = (delta_us as int * PROGRESS_ONE as int + duration_us as int - 1) / duration_us as int;
    proof {
        lemma_base_step(delta_us as int, duration_us as int);
    }
    let wide: u128 = ((delta_us as u128) * (PROGRESS_ONE as u128) + (duration_us as u128) - 1) / (duration_us as u128);
    assert(wide as int == base);
    let mut v: u64 = wide as u64;
    let steps: usize = if dynamic && queue_len > 1 {
        queue_len - 1
    } else {
        0
    };
    let mut j: usize = 0;
    while j < steps && v <= MAX_FRAME_STEP
        invariant
            steps as int == k,
            j <= steps,
            0 <= base,
            v as int == grown(base, j as nat),
            v <= 4 * MAX_FRAME_STEP,
        decreases steps - j,
    {
        proof {
            assert((v as int) * 16487 / 10000 <= 549999) by (nonlinear_arith)
                requires
                    0 <= v <= 333334,
            ;
        }
        let g = v * GROWTH_NUM / GROWTH_DEN;
        if v == 0 {
        } else if g > v {
            v = g;
        } else {
            v = v + 1;
        }
        j += 1;
    }
    proof {
        lemma_grown_stays(base, j as nat, k);
    }
    if v > MAX_FRAME_STEP {
        PROGRESS_ONE
    } else {
        v
    }
}

impl ControllerModel {
    /// One frame of animation that adds `d` to the progress of the twist at
    /// the front of the queue; a twist that reaches the end leaves the queue
    /// for the displayed state.
    pub open spec fn frame_step(self, d: int) -> ControllerModel {
        if self.queue.len() == 0 {
            self
        } else if self.progress + d >= PROGRESS_ONE {
            ControllerModel {
                displayed: apply_twist(self.ty, self.displayed, self.queue[0]),
                queue: self.queue.drop_first(),
                progress: 0,
                ..self
            }
        } else {
            ControllerModel { progress: self.progress + d, ..self }
        }
    }
}

/// With dynamic speed on, a frame between nothing and a third of a twist
/// leaves a lone queued twist unfinished, while with more twists queued it
/// either finishes the front twist or moves it further.
pub proof fn lemma_dynamic_frame(m1: ControllerModel, m: ControllerModel, delta_us: int, duration_us: int)
    requires
        m1.queue.len() == 1,
        m.queue.len() > 1,
        m1.progress == 0,
        m.progress == 0,
        0 < delta_us,
        3 * delta_us < duration_us,
    ensures
        ({
            let a = m1.frame_step(spec_twist_delta(delta_us, duration_us, true, 1));
            let b = m.frame_step(spec_twist_delta(delta_us, duration_us, true, m.queue.len() as int));
            &&& a.queue.len() == 1
            &&& (b.queue.len() == m.queue.len() - 1 || b.progress > a.progress)
        }),
{
    lemma_dynamic_speed_grows(delta_us, duration_us, m.queue.len() as int);
}

/// The preferences that drive animation, with durations in microseconds.
#[derive(Debug, Copy, Clone, PartialEq, Eq, Structural)]
pub struct InteractionPreferences {
    /// How long one twist takes.
    pub twist_duration_us: u64,
    /// Animate faster while more twists are queued.
    pub dynamic_twist_speed: bool,
    /// Hovering over a sticker highlights its whole piece.
    pub highlight_piece_on_hover: bool,
    /// How long a sticker takes to fade in or out of the selection.
    pub selection_fade_duration_us: u64,
    /// How long a sticker takes to fade out of hover.
    pub hover_fade_duration_us: u64,
}

/// The selected stickers: those that show the colour of `face`, or all of
/// them when there is no face.
#[derive(Debug, Copy, Clone, PartialEq, Eq, Structural)]
pub struct TwistSelection {
    pub face: Option<Face>,
}

impl TwistSelection {
    /// The selection holds the sticker `s` of the state `st`.
    pub open spec fn selects(self, st: Seq<SignedPerm>, s: Sticker) -> bool {
        match self.face {
            Option::None => true,
            Option::Some(f) => crate::state::sticker_face(st[s.piece as int], s.face) == f,
        }
    }

    /// Returns whether the selection holds the sticker `s` of the puzzle.
    pub fn has_sticker(&self, puzzle: &PuzzleState, s: Sticker) -> (r: bool)
        requires
            puzzle.wf(),
            puzzle.spec_ty().has_sticker(s),
        ensures
            r == self.selects(puzzle@, s),
    {
        match self.face {
            Option::None => true,
            Option::Some(f) => puzzle.get_sticker(s) == f,
        }
    }
}

impl Default for TwistSelection {
    fn default() -> (r: TwistSelection)
        ensures
            r.face.is_none(),
    {
        TwistSelection { face: Option::None }
    }
}

/// Sticker decoration animation state, each value from `0` to
/// `PROGRESS_ONE`.
#[derive(Debug, Copy, Clone, PartialEq, Eq, Structural)]
pub struct StickerDecorAnim {
    /// Progress toward being selected.
    pub selected: u64,
    /// Progress toward being hovered.
    pub hovered: u64,
}

impl Default for StickerDecorAnim {
    fn default() -> (r: StickerDecorAnim)
        ensures
            r.selected == PROGRESS_ONE,
            r.hovered == 0,
    {
        StickerDecorAnim { selected: PROGRESS_ONE, hovered: 0 }
    }
}

/// A puzzle with animation, undo history and scramble tracking.
#[derive(Debug)]
pub struct PuzzleController {
    ty: PuzzleType,
    /// State of the puzzle right before the twist being animated.
    displayed: PuzzleState,
    /// State of the puzzle right after the twist being animated, or the same
    /// as `displayed` when nothing is animated.
    next_displayed: PuzzleState,
    /// State of the puzzle with all twists applied.
    latest: PuzzleState,
    /// Twists that lead from `displayed` to `latest`.
    twist_queue: VecDeque<Twist>,
    /// Largest length of the queue since it was last empty.
    queue_max: usize,
    /// Progress of the twist at the front of the queue.
    progress: u64,
    /// Modified since the log was last saved.
    is_unsaved: bool,
    scramble_state: ScrambleState,
    /// Scramble twists.
    scramble: Vec<Twist>,
    undo_buffer: Vec<Twist>,
    redo_buffer: Vec<Twist>,
    /// State of the generator of scramble twists.
    scramble_seed: u64,
    selection: TwistSelection,
    hovered_sticker: Option<Sticker>,
    /// Decoration state of every (piece, face) slot.
    sticker_animation_states: Vec<StickerDecorAnim>,
    /// Bumped whenever the displayed geometry changes.
    geometry_epoch: u64,
}

impl View for PuzzleController {
    type V = ControllerModel;

    closed spec fn view(&self) -> ControllerModel {
        ControllerModel {
            ty: self.ty,
            displayed: self.displayed@,
            latest: self.latest@,
            queue: self.twist_queue@,
            progress: self.progress as int,
            undo: self.undo_buffer@,
            redo: self.redo_buffer@,
            scramble_state: self.scramble_state,
            scramble: self.scramble@,
            unsaved: self.is_unsaved,
        }
    }
}

impl PuzzleController {
    /// The internal bookkeeping is consistent with the model.
    pub closed spec fn inner_wf(&self) -> bool {
        &&& self.displayed.spec_ty() == self.ty
        &&& self.next_displayed.spec_ty() == self.ty
        &&& self.latest.spec_ty() == self.ty
        &&& self.displayed.wf()
        &&& self.latest.wf()
        &&& self.next_displayed.wf()
        &&& self.next_displayed@ == if self.twist_queue@.len() == 0 {
            self.displayed@
        } else {
            apply_twist(self.ty, self.displayed@, self.twist_queue@[0])
        }
        &&& self.sticker_animation_states@.len() == self.ty.spec_slot_count()
        &&& forall|i: int|
            0 <= i < self.sticker_animation_states@.len() ==> (#[trigger] self.sticker_animation_states@[i]).selected
                <= PROGRESS_ONE && self.sticker_animation_states@[i].hovered <= PROGRESS_ONE
        &&& match self.hovered_sticker {
            Option::Some(s) => self.ty.has_sticker(s),
            Option::None => true,
        }
    }

    /// The controller is consistent.
    pub open spec fn wf(&self) -> bool {
        &&& self@.wf()
        &&& self.inner_wf()
    }

    /// The selection.
    pub closed spec fn spec_selection(&self) -> TwistSelection {
        self.selection
    }

    /// The sticker that the user is hovering over.
    pub closed spec fn spec_hovered(&self) -> Option<Sticker> {
        self.hovered_sticker
    }

    /// The decoration state of every (piece, face) slot.
    pub closed spec fn spec_decorations(&self) -> Seq<StickerDecorAnim> {
        self.sticker_animation_states@
    }

    /// The geometry epoch.
    pub closed spec fn spec_epoch(&self) -> u64 {
        self.geometry_epoch
    }

    /// The largest length of the queue since it was last empty.
    pub closed spec fn spec_queue_max(&self) -> int {
        self.queue_max as int
    }

    /// Constructs a new controller with a solved puzzle.
    pub fn new(ty: PuzzleType) -> (r: PuzzleController)
        requires
            ty.wf(),
        ensures
            r.wf(),
            r@ == ControllerModel::fresh(ty),
            r.spec_selection().face.is_none(),
            r.spec_hovered().is_none(),
            r.spec_decorations().len() == ty.spec_slot_count(),
            forall|i: int|
                0 <= i < r.spec_decorations().len() ==> #[trigger] r.spec_decorations()[i] == (StickerDecorAnim {
                    selected: PROGRESS_ONE,
                    hovered: 0,
                }),
    {
        let slots = ty.slot_count();
        let mut anims: Vec<StickerDecorAnim> = Vec::new();
        let mut i: usize = 0;
        while i < slots
            invariant
                i <= slots,
                anims@.len() == i,
                forall|j: int|
                    0 <= j < i ==> (#[trigger] anims@[j]).selected == PROGRESS_ONE && anims@[j].hovered == 0,
            decreases slots - i,
        {
            anims.push(StickerDecorAnim::default());
            i += 1;
        }
        let r = PuzzleController {
            ty,
            displayed: PuzzleState::new(ty),
            next_displayed: PuzzleState::new(ty),
            latest: PuzzleState::new(ty),
            twist_queue: VecDeque::new(),
            queue_max: 0,
            progress: 0,
            is_unsaved: false,
            scramble_state: ScrambleState::Unscrambled,
            scramble: Vec::new(),
            undo_buffer: Vec::new(),
            redo_buffer: Vec::new(),
            scramble_seed: 0,
            selection: TwistSelection::default(),
            hovered_sticker: Option::None,
            sticker_animation_states: anims,
            geometry_epoch: 0,
        };
        assert(r@.queue =~= Seq::<Twist>::empty());
        assert(r@.undo =~= Seq::<Twist>::empty());
        assert(r@.redo =~= Seq::<Twist>::empty());
        assert(r@.scramble =~= Seq::<Twist>::empty());
        assert(r@ == ControllerModel::fresh(ty));
        r
    }

    /// Resets the puzzle: solved, with no history.
    pub fn reset(&mut self)
        requires
            old(self).wf(),
        ensures
            final(self).wf(),
            final(self)@ == ControllerModel::fresh(old(self)@.ty),
            final(self).spec_epoch() != old(self).spec_epoch(),
            final(self).spec_selection().face.is_none(),
            final(self).spec_hovered().is_none(),
            final(self).spec_decorations().len() == old(self)@.ty.spec_slot_count(),
            forall|i: int|
                0 <= i < final(self).spec_decorations().len() ==> #[trigger] final(self).spec_decorations()[i] == (
                StickerDecorAnim { selected: PROGRESS_ONE, hovered: 0 }),
    {
        let seed = self.scramble_seed;
        let epoch = self.geometry_epoch;
        *self = PuzzleController::new(self.ty);
        self.scramble_seed = seed;
        self.geometry_epoch = epoch;
        self.bump_epoch();
    }

    /// Returns the puzzle type.
    pub fn ty(&self) -> (r: PuzzleType)
        ensures
            r == self@.ty,
    {
        self.ty
    }

    /// Returns the state that should be displayed, not including the twist
    /// being animated.
    pub fn displayed(&self) -> (r: &PuzzleState)
        requires
            self.wf(),
        ensures
            r@ == self@.displayed,
            r.spec_ty() == self@.ty,
            r.wf(),
    {
        &self.displayed
    }

    /// Returns the state after all queued twists.
    pub fn latest(&self) -> (r: &PuzzleState)
        requires
            self.wf(),
        ensures
            r@ == self@.latest,
            r.spec_ty() == self@.ty,
            r.wf(),
    {
        &self.latest
    }

    /// Returns the selection.
    pub fn selection(&self) -> (r: TwistSelection)
        ensures
            r == self.spec_selection(),
    {
        self.selection
    }

    /// Sets the selection.
    pub fn set_selection(&mut self, selection: TwistSelection)
        requires
            old(self).wf(),
        ensures
            final(self).wf(),
            final(self)@ == old(self)@,
            final(self).spec_selection() == selection,
            final(self).spec_hovered() == old(self).spec_hovered(),
    {
        self.selection = selection;
    }

    /// Returns a number that changes whenever the displayed geometry may
    /// have changed, to key caches of it.
    pub fn geometry_epoch(&self) -> (r: u64)
        ensures
            r == self.spec_epoch(),
    {
        self.geometry_epoch
    }

    /// Moves to a new geometry epoch.
    fn bump_epoch(&mut self)
        ensures
            final(self).spec_epoch() != old(self).spec_epoch(),
            final(self)@ == old(self)@,
            final(self).inner_wf() == old(self).inner_wf(),
            final(self).spec_selection() == old(self).spec_selection(),
            final(self).spec_hovered() == old(self).spec_hovered(),
            final(self).spec_decorations() == old(self).spec_decorations(),
            final(self).spec_queue_max() == old(self).spec_queue_max(),
    {
        self.geometry_epoch = self.geometry_epoch.wrapping_add(1);
    }

    /// Recomputes the state after the twist being animated.
    fn refresh_next_displayed(&mut self)
        requires
            old(self)@.wf(),
            old(self).displayed.spec_ty() == old(self).ty,
            old(self).next_displayed.spec_ty() == old(self).ty,
            old(self).latest.spec_ty() == old(self).ty,
            old(self).displayed.wf(),
            old(self).latest.wf(),
            old(self).sticker_animation_states@.len() == old(self).ty.spec_slot_count(),
            forall|i: int|
                0 <= i < old(self).sticker_animation_states@.len() ==> (#[trigger] old(
                    self,
                ).sticker_animation_states@[i]).selected <= PROGRESS_ONE
                    && old(self).sticker_animation_states@[i].hovered <= PROGRESS_ONE,
            match old(self).hovered_sticker {
                Option::Some(s) => old(self).ty.has_sticker(s),
                Option::None => true,
            },
        ensures
            final(self).wf(),
            final(self)@ == old(self)@,
            final(self).spec_selection() == old(self).spec_selection(),
            final(self).spec_hovered() == old(self).spec_hovered(),
            final(self).spec_decorations() == old(self).spec_decorations(),
            final(self).spec_queue_max() == old(self).spec_queue_max(),
            final(self).spec_epoch() == old(self).spec_epoch(),
    {
        let mut next = self.displayed.duplicate();
        if self.twist_queue.len() > 0 {
            let t = self.twist_queue[0];
            assert(twist_defined(self.ty, self.twist_queue@[0]));
            let _ = next.twist(t);
        }
        self.next_displayed = next;
    }

    /// Applies a twist and queues it for animation. A twist that is the
    /// reverse of the last twist of the undo history undoes it instead.
    /// Clears the redo history. Fails, changing nothing, when the twist
    /// names an axis or a layer that this puzzle does not have.
    pub fn twist(&mut self, t: Twist) -> (res: Result<(), ControllerError>)
        requires
            old(self).wf(),
        ensures
            final(self).wf(),
            res.is_ok() <==> old(self)@.ty.twist_valid(t),
            res.is_ok() ==> twist_defined(old(self)@.ty, t),
            res.is_ok() ==> final(self)@ == old(self)@.twist_step(t),
            res.is_ok() ==> final(self).spec_epoch() != old(self).spec_epoch(),
            res.is_err() ==> final(self)@ == old(self)@,
            res.is_err() ==> res == Err::<(), ControllerError>(ControllerError::Twist(TwistError::Unsupported)),
            final(self).spec_selection() == old(self).spec_selection(),
            final(self).spec_hovered() == old(self).spec_hovered(),
            final(self).spec_decorations() == old(self).spec_decorations(),
    {
        let cancels = match self.undo_buffer.last() {
            Option::Some(u) => *u == t.rev(),
            Option::None => false,
        };
        proof {
            if self.ty.twist_valid(t) {
                crate::state::lemma_valid_twist_defined(self.ty, t);
            }
        }
        if cancels {
            proof {
                let u = self.undo_buffer@.last();
                assert(twist_defined(self.ty, self.undo_buffer@[self.undo_buffer@.len() - 1]));
                lemma_rev_defined(self.ty, u);
                crate::topology::lemma_rev_twist_twice(t);
                assert(u.spec_rev() == t);
            }
            self.redo_buffer.clear();
            let r = self.undo();
            assert(r.is_ok());
            return Ok(());
        }
        let ghost before = self@;
        let was_empty = self.twist_queue.len() == 0;
        match self.latest.twist(t) {
            Err(e) => {
                return Err(ControllerError::Twist(e));
            },
            Ok(()) => {},
        }
        proof {
            lemma_apply_seq_push(self.ty, self.displayed@, self.twist_queue@, t);
        }
        self.twist_queue.push_back(t);
        self.undo_buffer.push(t);
        self.redo_buffer.clear();
        self.is_unsaved = true;
        proof {
            assert(all_defined(self.ty, self.twist_queue@)) by {
                assert forall|i: int| 0 <= i < self.twist_queue@.len() implies twist_defined(self.ty, #[trigger] self.twist_queue@[i]) by {
                    if i < before.queue.len() {
                        assert(self.twist_queue@[i] == before.queue[i]);
                    }
                }
            }
            assert(all_defined(self.ty, self.undo_buffer@)) by {
                assert forall|i: int| 0 <= i < self.undo_buffer@.len() implies twist_defined(self.ty, #[trigger] self.undo_buffer@[i]) by {
                    if i < before.undo.len() {
                        assert(self.undo_buffer@[i] == before.undo[i]);
                    }
                }
            }
            assert(self.redo_buffer@ =~= Seq::<Twist>::empty());
            if before.queue.len() > 0 {
                assert(self.twist_queue@[0] == before.queue[0]);
            }
        }
        if was_empty {
            self.refresh_next_displayed();
        }
        assert(self@ == before.twist_step(t));
        self.bump_epoch();
        Ok(())
    }

    /// Undoes the last twist of the undo history. Fails, changing nothing,
    /// when there is nothing to undo.
    pub fn undo(&mut self) -> (res: Result<(), ControllerError>)
        requires
            old(self).wf(),
        ensures
            final(self).wf(),
            res.is_ok() <==> old(self)@.undo.len() > 0,
            res.is_err() ==> res == Err::<(), ControllerError>(ControllerError::NothingToUndo),
            res.is_ok() ==> final(self).spec_epoch() != old(self).spec_epoch(),
            final(self)@ == old(self)@.undo_step(),
            final(self).spec_selection() == old(self).spec_selection(),
            final(self).spec_hovered() == old(self).spec_hovered(),
            final(self).spec_decorations() == old(self).spec_decorations(),
    {
        let ghost before = self@;
        let was_empty = self.twist_queue.len() == 0;
        match self.undo_buffer.pop() {
            Option::None => Err(ControllerError::NothingToUndo),
            Option::Some(t) => {
                proof {
                    assert(twist_defined(self.ty, before.undo[before.undo.len() - 1]));
                    lemma_rev_defined(self.ty, t);
                    lemma_apply_seq_push(self.ty, self.displayed@, self.twist_queue@, t.spec_rev());
                }
                let r = t.rev();
                let res = self.latest.twist(r);
                assert(res.is_ok());
                self.twist_queue.push_back(r);
                self.redo_buffer.push(t);
                self.is_unsaved = true;
                proof {
                    assert(self.twist_queue@.drop_last() =~= before.queue);
                    assert(self.redo_buffer@.drop_last() =~= before.redo);
                    self.lemma_push_keeps_defined(before);
                }
                if was_empty {
                    self.refresh_next_displayed();
                }
                assert(self@.undo =~= before.undo.drop_last());
                assert(self@ == before.undo_step());
                self.bump_epoch();
                Ok(())
            },
        }
    }

    /// Redoes the last undone twist. Fails, changing nothing, when there is
    /// nothing to redo.
    pub fn redo(&mut self) -> (res: Result<(), ControllerError>)
        requires
            old(self).wf(),
        ensures
            final(self).wf(),
            res.is_ok() <==> old(self)@.redo.len() > 0,
            res.is_err() ==> res == Err::<(), ControllerError>(ControllerError::NothingToRedo),
            res.is_ok() ==> final(self).spec_epoch() != old(self).spec_epoch(),
            final(self)@ == old(self)@.redo_step(),
            final(self).spec_selection() == old(self).spec_selection(),
            final(self).spec_hovered() == old(self).spec_hovered(),
            final(self).spec_decorations() == old(self).spec_decorations(),
    {
        let ghost before = self@;
        let was_empty = self.twist_queue.len() == 0;
        match self.redo_buffer.pop() {
            Option::None => Err(ControllerError::NothingToRedo),
            Option::Some(t) => {
                proof {
                    assert(twist_defined(self.ty, before.redo[before.redo.len() - 1]));
                    lemma_apply_seq_push(self.ty, self.displayed@, self.twist_queue@, t);
                }
                let res = self.latest.twist(t);
                assert(res.is_ok());
                self.twist_queue.push_back(t);
                self.undo_buffer.push(t);
                self.is_unsaved = true;
                proof {
                    assert(self.twist_queue@.drop_last() =~= before.queue);
                    assert(self.undo_buffer@.drop_last() =~= before.undo);
                    self.lemma_push_keeps_defined(before);
                }
                if was_empty {
                    self.refresh_next_displayed();
                }
                assert(self@.redo =~= before.redo.drop_last());
                assert(self@ == before.redo_step());
                self.bump_epoch();
                Ok(())
            },
        }
    }

    /// After a twist moved from one history to the other and was queued,
    /// every twist held can still be applied.
    proof fn lemma_push_keeps_defined(&self, before: ControllerModel)
        requires
            before.wf(),
            self@.ty == before.ty,
            self@.queue.len() == before.queue.len() + 1,
            self@.queue.drop_last() == before.queue,
            twist_defined(before.ty, self@.queue.last()),
            (self@.undo.len() + 1 == before.undo.len() && self@.undo == before.undo.drop_last()
                && self@.redo.len() == before.redo.len() + 1 && self@.redo.drop_last() == before.redo
                && self@.redo.last() == before.undo.last()) || (self@.redo.len() + 1 == before.redo.len()
                && self@.redo == before.redo.drop_last() && self@.undo.len() == before.undo.len() + 1
                && self@.undo.drop_last() == before.undo && self@.undo.last() == before.redo.last()),
        ensures
            all_defined(self@.ty, self@.queue),
            all_defined(self@.ty, self@.undo),
            all_defined(self@.ty, self@.redo),
            before.queue.len() > 0 ==> self@.queue[0] == before.queue[0],
    {
        let ty = before.ty;
        assert forall|i: int| 0 <= i < self@.queue.len() implies twist_defined(ty, #[trigger] self@.queue[i]) by {
            if i < before.queue.len() {
                assert(self@.queue.drop_last()[i] == self@.queue[i]);
            }
        }
        assert forall|i: int| 0 <= i < self@.undo.len() implies twist_defined(ty, #[trigger] self@.undo[i]) by {
            if i < before.undo.len() && (self@.undo.len() + 1 == before.undo.len()) {
                assert(before.undo.drop_last()[i] == before.undo[i]);
            } else if i < self@.undo.len() - 1 {
                assert(self@.undo.drop_last()[i] == self@.undo[i]);
            } else {
                assert(twist_defined(ty, before.redo[before.redo.len() - 1]));
            }
        }
        assert forall|i: int| 0 <= i < self@.redo.len() implies twist_defined(ty, #[trigger] self@.redo[i]) by {
            if i < before.redo.len() && (self@.redo.len() + 1 == before.redo.len()) {
                assert(before.redo.drop_last()[i] == before.redo[i]);
            } else if i < self@.redo.len() - 1 {
                assert(self@.redo.drop_last()[i] == self@.redo[i]);
            } else {
                assert(twist_defined(ty, before.undo[before.undo.len() - 1]));
            }
        }
        if before.queue.len() > 0 {
            assert(self@.queue.drop_last()[0] == self@.queue[0]);
        }
    }
}


/// Scrambles of at most this many twists count as partial, whatever the
/// puzzle.
pub const PARTIAL_SCRAMBLE_MOVE_COUNT_MAX: usize = 8;

impl PuzzleController {
    /// Removes the twist at the front of the queue and applies it to the
    /// displayed state.
    fn advance_displayed(&mut self)
        requires
            old(self).wf(),
            old(self)@.queue.len() > 0,
        ensures
            final(self).wf(),
            final(self)@ == (ControllerModel {
                displayed: apply_twist(old(self)@.ty, old(self)@.displayed, old(self)@.queue[0]),
                queue: old(self)@.queue.drop_first(),
                ..old(self)@
            }),
            final(self).spec_selection() == old(self).spec_selection(),
            final(self).spec_hovered() == old(self).spec_hovered(),
            final(self).spec_decorations() == old(self).spec_decorations(),
            final(self).spec_queue_max() == old(self).spec_queue_max(),
            final(self).spec_epoch() == old(self).spec_epoch(),
    {
        let ghost before = self@;
        let t = self.twist_queue.pop_front();
        match t {
            Option::Some(t) => {
                assert(twist_defined(self.ty, before.queue[0]));
                let res = self.displayed.twist(t);
                assert(res.is_ok());
                proof {
                    lemma_apply_seq_first(self.ty, before.displayed, before.queue);
                    assert(self.twist_queue@ =~= before.queue.drop_first());
                    assert forall|i: int| 0 <= i < self.twist_queue@.len() implies twist_defined(self.ty, #[trigger] self.twist_queue@[i]) by {
                        assert(self.twist_queue@[i] == before.queue[i + 1]);
                    }
                }
                self.refresh_next_displayed();
            },
            Option::None => {},
        }
    }

    /// Skips the animations of all the queued twists: the displayed state
    /// becomes the latest one.
    pub fn catch_up(&mut self)
        requires
            old(self).wf(),
        ensures
            final(self).wf(),
            final(self)@ == old(self)@.caught_up(),
            final(self)@.displayed == final(self)@.latest,
            final(self)@.queue.len() == 0,
            final(self).spec_epoch() != old(self).spec_epoch(),
            final(self).spec_selection() == old(self).spec_selection(),
            final(self).spec_hovered() == old(self).spec_hovered(),
            final(self).spec_decorations() == old(self).spec_decorations(),
    {
        let ghost before = self@;
        while self.twist_queue.len() > 0
            invariant
                self.wf(),
                self@ == (ControllerModel { displayed: self@.displayed, queue: self@.queue, ..before }),
                self.spec_selection() == old(self).spec_selection(),
                self.spec_hovered() == old(self).spec_hovered(),
                self.spec_decorations() == old(self).spec_decorations(),
                self.spec_epoch() == old(self).spec_epoch(),
            decreases self@.queue.len(),
        {
            self.advance_displayed();
        }
        self.progress = 0;
        self.bump_epoch();
        assert(self@.queue =~= Seq::<Twist>::empty());
        assert(self@.displayed == self@.latest);
    }

    /// Returns the twist being animated, with its progress from `0` to
    /// `PROGRESS_ONE`.
    pub fn current_twist(&self) -> (r: Option<(Twist, u64)>)
        ensures
            r.is_some() <==> self@.queue.len() > 0,
            r.is_some() ==> r.unwrap().0 == self@.queue[0] && r.unwrap().1 as int == self@.progress,
    {
        if self.twist_queue.len() > 0 {
            Some((self.twist_queue[0], self.progress))
        } else {
            None
        }
    }

    /// Advances the animation by one frame of `delta_us` microseconds.
    pub fn update_geometry(&mut self, delta_us: u64, prefs: &InteractionPreferences)
        requires
            old(self).wf(),
        ensures
            final(self).wf(),
            final(self)@ == old(self)@.frame_step(
                spec_twist_delta(
                    delta_us as int,
                    prefs.twist_duration_us as int,
                    prefs.dynamic_twist_speed,
                    old(self)@.queue.len() as int,
                ),
            ),
            old(self)@.queue.len() == 0 ==> final(self).spec_queue_max() == 0,
            old(self)@.queue.len() > 0 ==> final(self).spec_queue_max() >= old(self)@.queue.len(),
            old(self)@.queue.len() > 0 ==> final(self).spec_epoch() != old(self).spec_epoch(),
            old(self)@.queue.len() == 0 ==> final(self).spec_epoch() == old(self).spec_epoch(),
            final(self).spec_selection() == old(self).spec_selection(),
            final(self).spec_hovered() == old(self).spec_hovered(),
            final(self).spec_decorations() == old(self).spec_decorations(),
    {
        let len = self.twist_queue.len();
        if len == 0 {
            self.queue_max = 0;
            return;
        }
        self.bump_epoch();
        if self.queue_max < len {
            self.queue_max = len;
        }
        let d = twist_delta(delta_us, prefs.twist_duration_us, prefs.dynamic_twist_speed, len);
        self.progress = self.progress + d;
        if self.progress >= PROGRESS_ONE {
            self.progress = 0;
            self.advance_displayed();
        }
    }

    /// Returns whether there is a twist to undo.
    pub fn has_undo(&self) -> (r: bool)
        ensures
            r == (self@.undo.len() > 0),
    {
        self.undo_buffer.len() > 0
    }

    /// Returns whether there is a twist to redo.
    pub fn has_redo(&self) -> (r: bool)
        ensures
            r == (self@.redo.len() > 0),
    {
        self.redo_buffer.len() > 0
    }

    /// Returns whether the puzzle was modified since the log was last saved.
    pub fn is_unsaved(&self) -> (r: bool)
        ensures
            r == self@.unsaved,
    {
        self.is_unsaved
    }

    /// Returns whether the puzzle has been fully scrambled, even if it has
    /// since been solved.
    pub fn has_been_fully_scrambled(&self) -> (r: bool)
        requires
            self.wf(),
        ensures
            r == match self@.scramble_state {
                ScrambleState::Unscrambled => false,
                ScrambleState::Partial => false,
                ScrambleState::Full => true,
                ScrambleState::Solved => self@.scramble.len() >= self@.ty.spec_full_scramble_count()
                    || self@.scramble.len() > PARTIAL_SCRAMBLE_MOVE_COUNT_MAX,
            },
    {
        match self.scramble_state {
            ScrambleState::Unscrambled => false,
            ScrambleState::Partial => false,
            ScrambleState::Full => true,
            ScrambleState::Solved => {
                self.scramble.len() >= self.ty.full_scramble_count() || self.scramble.len()
                    > PARTIAL_SCRAMBLE_MOVE_COUNT_MAX
            },
        }
    }

    /// Returns whether the puzzle has been solved since it was scrambled.
    pub fn has_been_solved(&self) -> (r: bool)
        ensures
            r == (self@.scramble_state == ScrambleState::Solved),
    {
        self.scramble_state == ScrambleState::Solved
    }

    /// Returns whether the puzzle, with all queued twists applied, is
    /// solved.
    pub fn is_solved(&self) -> (r: bool)
        requires
            self.wf(),
        ensures
            r == (self@.latest == solved(self@.ty)),
    {
        self.latest.is_solved()
    }

    /// Checks whether the puzzle was scrambled and is now solved. If so,
    /// records that it has been solved and returns `true`.
    pub fn check_just_solved(&mut self) -> (r: bool)
        requires
            old(self).wf(),
        ensures
            final(self).wf(),
            r == old(self)@.just_solved(),
            final(self)@ == old(self)@.solve_check(),
            final(self).spec_selection() == old(self).spec_selection(),
            final(self).spec_hovered() == old(self).spec_hovered(),
            final(self).spec_decorations() == old(self).spec_decorations(),
    {
        let scrambled = match self.scramble_state {
            ScrambleState::Partial | ScrambleState::Full => true,
            _ => false,
        };
        if scrambled && self.displayed.is_solved() {
            self.scramble_state = ScrambleState::Solved;
            true
        } else {
            false
        }
    }
}

impl ControllerModel {
    /// The puzzle was scrambled and the displayed state is solved.
    pub open spec fn just_solved(self) -> bool {
        (self.scramble_state == ScrambleState::Partial || self.scramble_state == ScrambleState::Full)
            && self.displayed == solved(self.ty)
    }

    /// Records a solve if the puzzle was just solved.
    pub open spec fn solve_check(self) -> ControllerModel {
        if self.just_solved() {
            ControllerModel { scramble_state: ScrambleState::Solved, ..self }
        } else {
            self
        }
    }
}


impl ControllerModel {
    /// The result of a scramble of `n` twists: the states agree, are the
    /// solved state with the undo history applied, and the history holds
    /// the `n` scramble twists and nothing to redo or animate.
    pub open spec fn scrambled_by(self, ty: PuzzleType, n: int) -> bool {
        &&& self.ty == ty
        &&& self.undo.len() == n
        &&& self.latest == apply_seq(ty, solved(ty), self.undo)
        &&& self.displayed == self.latest
        &&& self.queue.len() == 0
        &&& self.redo.len() == 0
        &&& self.progress == 0
        &&& self.scramble == self.undo
        &&& no_cancelling_pairs(self.undo)
    }
}

/// Returns a copy of a list of twists.
fn copy_twists(v: &Vec<Twist>) -> (r: Vec<Twist>)
    ensures
        r@ == v@,
{
    let mut out: Vec<Twist> = Vec::new();
    let mut k: usize = 0;
    while k < v.len()
        invariant
            k <= v@.len(),
            out@ == v@.subrange(0, k as int),
        decreases v@.len() - k,
    {
        out.push(v[k]);
        k += 1;
        assert(out@ =~= v@.subrange(0, k as int));
    }
    assert(out@ =~= v@);
    out
}

/// The undo history has no twist right after its reverse.
pub open spec fn no_cancelling_pairs(ts: Seq<Twist>) -> bool {
    forall|k: int| 0 < k < ts.len() ==> #[trigger] ts[k] != ts[k - 1].spec_rev()
}

proof fn lemma_scramble_step(ty: PuzzleType, before: ControllerModel, after: ControllerModel, t: Twist)
    requires
        before.ty == ty,
        !before.cancels(t),
        after == before.twist_step(t),
        before.latest == apply_seq(ty, solved(ty), before.undo),
        no_cancelling_pairs(before.undo),
    ensures
        after.ty == ty,
        after.undo == before.undo.push(t),
        after.redo.len() == 0,
        after.scramble_state == before.scramble_state,
        after.latest == apply_seq(ty, solved(ty), after.undo),
        no_cancelling_pairs(after.undo),
{
    lemma_apply_seq_push(ty, solved(ty), before.undo, t);
    assert forall|k: int| 0 < k < after.undo.len() implies #[trigger] after.undo[k] != after.undo[k - 1].spec_rev() by {
        if k < before.undo.len() {
            assert(after.undo[k] == before.undo[k]);
            assert(after.undo[k - 1] == before.undo[k - 1]);
        } else {
            assert(after.undo[k] == t);
            assert(after.undo[k - 1] == before.undo.last());
        }
    }
}

impl PuzzleController {
    /// Applies the twist chosen by `x`, turned the other way if it would
    /// cancel the last twist, and returns the twist applied.
    fn push_scramble_twist(&mut self, x: u64) -> (res: Result<Twist, ControllerError>)
        requires
            old(self).wf(),
        ensures
            final(self).wf(),
            res.is_ok(),
            ({
                let t = res.unwrap();
                &&& !old(self)@.cancels(t)
                &&& final(self)@ == old(self)@.twist_step(t)
            }),
    {
        let mut t = self.ty.twist_from_number(x);
        let cancels = match self.undo_buffer.last() {
            Option::Some(u) => *u == t.rev(),
            Option::None => false,
        };
        if cancels {
            t = t.rev();
        }
        proof {
            crate::topology::lemma_rev_twist_twice(t);
        }
        assert(!self@.cancels(t));
        match self.twist(t) {
            Err(e) => Err(e),
            Ok(()) => Ok(t),
        }
    }

    /// Resets the puzzle, then applies `n` pseudo-random twists, none of
    /// which cancels the one before, and skips their animation. The
    /// scramble state becomes partial (or stays unscrambled when `n` is 0).
    /// Every twist of these puzzle types can be applied, so this succeeds.
    #[verifier::rlimit(40)]
    pub fn scramble_n(&mut self, n: usize) -> (res: Result<(), ControllerError>)
        requires
            old(self).wf(),
        ensures
            final(self).wf(),
            final(self)@.ty == old(self)@.ty,
            res.is_ok(),
            final(self)@.scrambled_by(old(self)@.ty, n as int),
            final(self)@.scramble_state == if n == 0 {
                ScrambleState::Unscrambled
            } else {
                ScrambleState::Partial
            },
            n == 0 ==> final(self)@.displayed == solved(old(self)@.ty),
    {
        let ghost ty = self.ty;
        self.reset();
        let seed = self.scramble_seed;
        let res = self.apply_scramble_twists(n, seed);
        match res {
            Err((e, seed)) => {
                self.scramble_seed = seed;
                Err(e)
            },
            Ok(seed) => {
                self.catch_up();
                self.scramble_seed = seed;
                self.scramble = copy_twists(&self.undo_buffer);
                if n > 0 {
                    self.scramble_state = ScrambleState::Partial;
                }
                proof {
                    if n == 0 {
                        assert(self@.undo =~= Seq::<Twist>::empty());
                    }
                }
                Ok(())
            },
        }
    }

    /// From a fresh state, applies `n` twists chosen by the generator
    /// started at `seed`; returns the generator's last state.
    fn apply_scramble_twists(&mut self, n: usize, seed: u64) -> (res: Result<u64, (ControllerError, u64)>)
        requires
            old(self).wf(),
            old(self)@ == ControllerModel::fresh(old(self)@.ty),
        ensures
            final(self).wf(),
            final(self)@.ty == old(self)@.ty,
            res.is_ok(),
            ({
                let m = final(self)@;
                &&& m.undo.len() == n
                &&& m.redo.len() == 0
                &&& m.latest == apply_seq(m.ty, solved(m.ty), m.undo)
                &&& m.scramble_state == ScrambleState::Unscrambled
                &&& no_cancelling_pairs(m.undo)
            }),
    {
        let ghost ty = self.ty;
        let mut seed = seed;
        let mut i: usize = 0;
        assert(apply_seq(ty, solved(ty), self@.undo) == solved(ty));
        while i < n
            invariant
                self.wf(),
                self@.ty == ty,
                ty == old(self)@.ty,
                i <= n,
                self@.undo.len() == i,
                self@.redo.len() == 0,
                self@.latest == apply_seq(ty, solved(ty), self@.undo),
                self@.scramble_state == ScrambleState::Unscrambled,
                no_cancelling_pairs(self@.undo),
            decreases n - i,
        {
            seed = next_seed(seed);
            let ghost before = self@;
            let t = match self.push_scramble_twist(seed) {
                Err(e) => {
                    return Err((e, seed));
                },
                Ok(t) => t,
            };
            proof {
                lemma_scramble_step(ty, before, self@, t);
            }
            i += 1;
        }
        Ok(seed)
    }

    /// Scrambles the puzzle completely: as `scramble_n` with the puzzle
    /// type's full scramble count, and the scramble state becomes full.
    pub fn scramble_full(&mut self) -> (res: Result<(), ControllerError>)
        requires
            old(self).wf(),
        ensures
            final(self).wf(),
            final(self)@.ty == old(self)@.ty,
            res.is_ok(),
            final(self)@.scrambled_by(old(self)@.ty, old(self)@.ty.spec_full_scramble_count()),
            final(self)@.scramble_state == ScrambleState::Full,
    {
        let count = self.ty.full_scramble_count();
        let res = self.scramble_n(count);
        if res.is_ok() {
            self.scramble_state = ScrambleState::Full;
        }
        res
    }
}


/// `current` moved toward `target` by at most `delta`.
pub open spec fn toward(current: int, target: int, delta: int) -> int {
    if current == target {
        current
    } else if current + delta < target {
        current + delta
    } else if current - delta > target {
        current - delta
    } else {
        target
    }
}

/// Moves `current` toward `target` by at most `delta`.
pub fn add_delta_toward_target(current: &mut u64, target: u64, delta: u64)
    ensures
        *final(current) as int == toward(*old(current) as int, target as int, delta as int),
{
    if *current == target {
    } else if *current < target {
        if delta < target - *current {
            *current = *current + delta;
        } else {
            *current = target;
        }
    } else {
        if delta < *current - target {
            *current = *current - delta;
        } else {
            *current = target;
        }
    }
}

/// How far a decoration fading over `duration_us` moves in `delta_us`; a
/// zero duration fades at once.
pub open spec fn fade_delta(delta_us: int, duration_us: int) -> int {
    if duration_us == 0 || delta_us >= duration_us {
        PROGRESS_ONE as int
    } else {
        delta_us * PROGRESS_ONE / duration_us
    }
}

/// Returns how far a decoration fading over `duration_us` moves in
/// `delta_us`.
pub fn fade_step(delta_us: u64, duration_us: u64) -> (r: u64)
    ensures
        r as int == fade_delta(delta_us as int, duration_us as int),
        r <= PROGRESS_ONE,
{
    if duration_us == 0 || delta_us >= duration_us {
        return PROGRESS_ONE;
    }
    proof {
        assert(delta_us as int * PROGRESS_ONE as int <= duration_us as int * PROGRESS_ONE as int) by (nonlinear_arith)
            requires
                delta_us < duration_us,
        ;
        vstd::arithmetic::div_mod::lemma_div_is_ordered(
            delta_us as int * PROGRESS_ONE as int,
            duration_us as int * PROGRESS_ONE as int,
            duration_us as int,
        );
        vstd::arithmetic::div_mod::lemma_div_by_multiple(PROGRESS_ONE as int, duration_us as int);
        assert(duration_us as int * PROGRESS_ONE as int == PROGRESS_ONE as int * duration_us as int) by (nonlinear_arith);
    }
    ((delta_us as u128) * (PROGRESS_ONE as u128) / (duration_us as u128)) as u64
}

/// The sticker `s` is hovered: it is the hovered sticker, or shares its
/// piece when whole pieces are highlighted.
pub open spec fn is_hovered(hovered: Option<Sticker>, whole_piece: bool, s: Sticker) -> bool {
    match hovered {
        Option::Some(h) => if whole_piece {
            h.piece == s.piece
        } else {
            h == s
        },
        Option::None => false,
    }
}

/// The decoration that the sticker `s` animates toward.
pub open spec fn decor_target(
    latest: Seq<SignedPerm>,
    sel: TwistSelection,
    hovered: Option<Sticker>,
    whole_piece: bool,
    s: Sticker,
) -> StickerDecorAnim {
    StickerDecorAnim {
        selected: if sel.selects(latest, s) {
            PROGRESS_ONE
        } else {
            0
        },
        hovered: if is_hovered(hovered, whole_piece, s) {
            PROGRESS_ONE
        } else {
            0
        },
    }
}

/// One frame of decoration animation: selection fades both ways, hover
/// comes at once and fades out.
pub open spec fn decor_step(cur: StickerDecorAnim, target: StickerDecorAnim, dsel: int, dhov: int) -> StickerDecorAnim {
    StickerDecorAnim {
        selected: toward(cur.selected as int, target.selected as int, dsel) as u64,
        hovered: if target.hovered == PROGRESS_ONE {
            PROGRESS_ONE
        } else {
            toward(cur.hovered as int, target.hovered as int, dhov) as u64
        },
    }
}

impl ControllerModel {
    /// The state shown halfway through the twist being animated: before it
    /// until the halfway point, after it from then on.
    pub open spec fn mid_twist_state(self) -> Seq<SignedPerm> {
        if self.queue.len() > 0 && 2 * self.progress >= PROGRESS_ONE {
            apply_twist(self.ty, self.displayed, self.queue[0])
        } else {
            self.displayed
        }
    }
}

/// The first sticker of `list` from `i` on that is a sticker of the type
/// and that the selection holds in the state `st`.
pub open spec fn first_hovered(ty: PuzzleType, st: Seq<SignedPerm>, sel: TwistSelection, list: Seq<Sticker>, i: int) -> Option<Sticker>
    decreases list.len() - i,
{
    if i >= list.len() || i < 0 {
        Option::None
    } else if ty.has_sticker(list[i]) && sel.selects(st, list[i]) {
        Option::Some(list[i])
    } else {
        first_hovered(ty, st, sel, list, i + 1)
    }
}

impl PuzzleController {
    /// Sets the hovered sticker: the first of `hovered_stickers`, given from
    /// front to back, that the selection holds in the state shown halfway
    /// through the twist being animated.
    pub fn update_hovered_stickers(&mut self, hovered_stickers: &Vec<Sticker>)
        requires
            old(self).wf(),
        ensures
            final(self).wf(),
            final(self)@ == old(self)@,
            final(self).spec_selection() == old(self).spec_selection(),
            final(self).spec_decorations() == old(self).spec_decorations(),
            final(self).spec_hovered() == first_hovered(
                old(self)@.ty,
                old(self)@.mid_twist_state(),
                old(self).spec_selection(),
                hovered_stickers@,
                0,
            ),
    {
        let halfway = 2 * self.progress >= PROGRESS_ONE;
        let mut found: Option<Sticker> = Option::None;
        let mut i: usize = hovered_stickers.len();
        let ghost st = self@.mid_twist_state();
        while i > 0
            invariant
                self.wf(),
                st == self@.mid_twist_state(),
                halfway == (2 * self@.progress >= PROGRESS_ONE),
                i <= hovered_stickers@.len(),
                found == first_hovered(self.ty, st, self.selection, hovered_stickers@, i as int),
                match found {
                    Option::Some(h) => self.ty.has_sticker(h),
                    Option::None => true,
                },
            decreases i,
        {
            i -= 1;
            let s = hovered_stickers[i];
            let ok = if s.piece < self.ty.piece_count() && s.face.axis < self.ty.dim {
                let k = self.ty.piece_coords(s.piece);
                let side = if s.face.positive {
                    self.ty.layers - 1
                } else {
                    0
                };
                assert(ints(k@)[s.face.axis as int] == k@[s.face.axis as int] as int);
                k[s.face.axis] == side
            } else {
                false
            };
            assert(ok == self.ty.has_sticker(s));
            if ok {
                let selected = if halfway {
                    self.selection.has_sticker(&self.next_displayed, s)
                } else {
                    self.selection.has_sticker(&self.displayed, s)
                };
                if selected {
                    found = Option::Some(s);
                }
            }
        }
        self.hovered_sticker = found;
    }

    /// Returns the sticker that the user is hovering over.
    pub fn hovered_sticker(&self) -> (r: Option<Sticker>)
        ensures
            r == self.spec_hovered(),
    {
        self.hovered_sticker
    }

    /// Returns the decoration animation state of a sticker.
    pub fn sticker_animation_state(&self, sticker: Sticker) -> (r: StickerDecorAnim)
        requires
            self.wf(),
            self@.ty.has_sticker(sticker),
        ensures
            0 <= self@.ty.slot_of(sticker) < self.spec_decorations().len(),
            r == self.spec_decorations()[self@.ty.slot_of(sticker)],
    {
        let i = self.ty.slot_index(sticker);
        assert(self.spec_decorations()[i as int] == self.sticker_animation_states@[i as int]);
        self.sticker_animation_states[i]
    }

    /// Returns the decoration that a sticker animates toward.
    fn sticker_animation_state_target(&self, sticker: Sticker, prefs: &InteractionPreferences) -> (r: StickerDecorAnim)
        requires
            self.wf(),
            self@.ty.has_sticker(sticker),
        ensures
            r == decor_target(self@.latest, self.spec_selection(), self.spec_hovered(), prefs.highlight_piece_on_hover, sticker),
    {
        let is_selected = self.selection.has_sticker(&self.latest, sticker);
        let is_hovered = match self.hovered_sticker {
            Option::Some(h) => if prefs.highlight_piece_on_hover {
                h.piece == sticker.piece
            } else {
                h == sticker
            },
            Option::None => false,
        };
        StickerDecorAnim {
            selected: if is_selected {
                PROGRESS_ONE
            } else {
                0
            },
            hovered: if is_hovered {
                PROGRESS_ONE
            } else {
                0
            },
        }
    }

    /// Advances the sticker decorations by one frame of `delta_us`
    /// microseconds: every sticker moves toward its target.
    pub fn update_decorations(&mut self, delta_us: u64, prefs: &InteractionPreferences)
        requires
            old(self).wf(),
        ensures
            final(self).wf(),
            final(self)@ == old(self)@,
            final(self).spec_selection() == old(self).spec_selection(),
            final(self).spec_hovered() == old(self).spec_hovered(),
            final(self).spec_decorations().len() == old(self).spec_decorations().len(),
            forall|i: int|
                0 <= i < old(self).spec_decorations().len() ==> #[trigger] final(self).spec_decorations()[i] == if old(
                    self,
                )@.ty.has_sticker(old(self)@.ty.slot_sticker(i)) {
                    decor_step(
                        old(self).spec_decorations()[i],
                        decor_target(
                            old(self)@.latest,
                            old(self).spec_selection(),
                            old(self).spec_hovered(),
                            prefs.highlight_piece_on_hover,
                            old(self)@.ty.slot_sticker(i),
                        ),
                        fade_delta(delta_us as int, prefs.selection_fade_duration_us as int),
                        fade_delta(delta_us as int, prefs.hover_fade_duration_us as int),
                    )
                } else {
                    old(self).spec_decorations()[i]
                },
    {
        let dsel = fade_step(delta_us, prefs.selection_fade_duration_us);
        let dhov = fade_step(delta_us, prefs.hover_fade_duration_us);
        let slots = self.ty.slot_count();
        let ghost start = self.spec_decorations();
        let mut i: usize = 0;
        while i < slots
            invariant
                self.wf(),
                self@ == old(self)@,
                self.spec_selection() == old(self).spec_selection(),
                self.spec_hovered() == old(self).spec_hovered(),
                start == old(self).spec_decorations(),
                slots as int == self@.ty.spec_slot_count(),
                dsel as int == fade_delta(delta_us as int, prefs.selection_fade_duration_us as int),
                dhov as int == fade_delta(delta_us as int, prefs.hover_fade_duration_us as int),
                dsel <= PROGRESS_ONE,
                i <= slots,
                self.spec_decorations().len() == start.len(),
                forall|j: int|
                    i <= j < start.len() ==> #[trigger] self.spec_decorations()[j] == start[j],
                forall|j: int|
                    0 <= j < i ==> #[trigger] self.spec_decorations()[j] == if self@.ty.has_sticker(
                        self@.ty.slot_sticker(j),
                    ) {
                        decor_step(
                            start[j],
                            decor_target(
                                self@.latest,
                                self.spec_selection(),
                                self.spec_hovered(),
                                prefs.highlight_piece_on_hover,
                                self@.ty.slot_sticker(j),
                            ),
                            dsel as int,
                            dhov as int,
                        )
                    } else {
                        start[j]
                    },
            decreases slots - i,
        {
            match self.ty.sticker_of_slot(i) {
                Option::Some(sticker) => {
                    let target = self.sticker_animation_state_target(sticker, prefs);
                    let mut cur = self.sticker_animation_states[i];
                    add_delta_toward_target(&mut cur.selected, target.selected, dsel);
                    if target.hovered == PROGRESS_ONE {
                        cur.hovered = PROGRESS_ONE;
                    } else {
                        add_delta_toward_target(&mut cur.hovered, target.hovered, dhov);
                    }
                    self.sticker_animation_states.set(i, cur);
                },
                Option::None => {},
            }
            i += 1;
        }
    }

    /// Returns whether anything is being animated: a twist, or a sticker
    /// decoration that has not reached its target.
    pub fn is_animating(&self, prefs: &InteractionPreferences) -> (r: bool)
        requires
            self.wf(),
        ensures
            r == (self@.queue.len() > 0 || exists|i: int|
                0 <= i < self.spec_decorations().len() && self@.ty.has_sticker(self@.ty.slot_sticker(i))
                    && #[trigger] self.spec_decorations()[i] != decor_target(
                    self@.latest,
                    self.spec_selection(),
                    self.spec_hovered(),
                    prefs.highlight_piece_on_hover,
                    self@.ty.slot_sticker(i),
                )),
    {
        if self.twist_queue.len() > 0 {
            return true;
        }
        let slots = self.ty.slot_count();
        let mut i: usize = 0;
        while i < slots
            invariant
                self.wf(),
                slots as int == self@.ty.spec_slot_count(),
                i <= slots,
                forall|j: int|
                    0 <= j < i ==> !(self@.ty.has_sticker(self@.ty.slot_sticker(j)) && #[trigger] self.spec_decorations()[j]
                        != decor_target(
                        self@.latest,
                        self.spec_selection(),
                        self.spec_hovered(),
                        prefs.highlight_piece_on_hover,
                        self@.ty.slot_sticker(j),
                    )),
            decreases slots - i,
        {
            match self.ty.sticker_of_slot(i) {
                Option::Some(sticker) => {
                    let target = self.sticker_animation_state_target(sticker, prefs);
                    let cur = self.sticker_animation_states[i];
                    if cur != target {
                        assert(self.spec_decorations()[i as int] == cur);
                        return true;
                    }
                },
                Option::None => {},
            }
            i += 1;
        }
        false
    }
}


/// Relies on `itertools::put_back` with `PutBack::with_value`: the adaptor
/// yields the value put back first and then every item of the underlying
/// iterator in order.
#[verifier::external_body]
fn previous_twists(twists: &Vec<Twist>) -> (r: Vec<Option<Twist>>)
    ensures
        r@.len() == twists@.len() + 1,
        r@[0] == Option::<Twist>::None,
        forall|i: int| 0 <= i < twists@.len() ==> #[trigger] r@[i + 1] == Option::Some(twists@[i]),
{
    itertools::put_back(twists.iter().copied().map(Some)).with_value(None).collect()
}

/// The number of twists of `ts` below `k` that are not counted together
/// with the twist right before them.
pub open spec fn count_moves(ty: PuzzleType, ts: Seq<Twist>, metric: TwistMetric, k: int) -> int
    decreases k,
{
    if k <= 0 {
        0
    } else {
        let prev = if k == 1 {
            Option::None
        } else {
            Option::Some(ts[k - 2])
        };
        count_moves(ty, ts, metric, k - 1) + if ty.spec_can_combine(prev, ts[k - 1], metric) {
            0int
        } else {
            1int
        }
    }
}

impl PuzzleController {
    /// Returns the number of twists in the undo history, counting twists
    /// that `metric` combines with the one before as one.
    pub fn twist_count(&self, metric: TwistMetric) -> (r: usize)
        ensures
            r as int == count_moves(self@.ty, self@.undo, metric, self@.undo.len() as int),
    {
        let prev = previous_twists(&self.undo_buffer);
        let mut count: usize = 0;
        let mut i: usize = 0;
        while i < self.undo_buffer.len()
            invariant
                prev@.len() == self.undo_buffer@.len() + 1,
                prev@[0] == Option::<Twist>::None,
                forall|j: int| 0 <= j < self.undo_buffer@.len() ==> #[trigger] prev@[j + 1] == Option::Some(self.undo_buffer@[j]),
                i <= self.undo_buffer@.len(),
                count <= i,
                count as int == count_moves(self.ty, self.undo_buffer@, metric, i as int),
            decreases self.undo_buffer@.len() - i,
        {
            if i > 0 {
                assert(prev@[(i - 1) + 1] == Option::Some(self.undo_buffer@[i - 1]));
            }
            if !self.ty.can_combine_twists(prev[i], self.undo_buffer[i], metric) {
                count += 1;
            }
            i += 1;
        }
        count
    }
}


/// The model after the twists `ts`, applied one after another.
pub open spec fn twists_applied(m: ControllerModel, ts: Seq<Twist>) -> ControllerModel
    decreases ts.len(),
{
    if ts.len() == 0 {
        m
    } else {
        twists_applied(m, ts.drop_last()).twist_step(ts.last())
    }
}

/// No twist of `ts`, applied one after another from `m`, cancels the one
/// before it.
pub open spec fn applies_without_cancelling(m: ControllerModel, ts: Seq<Twist>) -> bool
    decreases ts.len(),
{
    if ts.len() == 0 {
        true
    } else {
        applies_without_cancelling(m, ts.drop_last()) && !twists_applied(m, ts.drop_last()).cancels(ts.last())
    }
}

/// The model after `k` undos.
pub open spec fn undone(m: ControllerModel, k: nat) -> ControllerModel
    decreases k,
{
    if k == 0 {
        m
    } else {
        undone(m, (k - 1) as nat).undo_step()
    }
}

/// The model after `k` redos.
pub open spec fn redone(m: ControllerModel, k: nat) -> ControllerModel
    decreases k,
{
    if k == 0 {
        m
    } else {
        redone(m, (k - 1) as nat).redo_step()
    }
}

/// `s` in reverse order.
pub open spec fn reversed(s: Seq<Twist>) -> Seq<Twist> {
    Seq::new(s.len(), |i: int| s[s.len() - 1 - i])
}

proof fn lemma_prefix_step(m: ControllerModel, ts: Seq<Twist>, k: int)
    requires
        0 <= k < ts.len(),
    ensures
        twists_applied(m, ts.subrange(0, k + 1)) == twists_applied(m, ts.subrange(0, k)).twist_step(ts[k]),
{
    assert(ts.subrange(0, k + 1).drop_last() =~= ts.subrange(0, k));
}

proof fn lemma_prefix_no_cancel(m: ControllerModel, ts: Seq<Twist>, k: int)
    requires
        applies_without_cancelling(m, ts),
        0 <= k <= ts.len(),
    ensures
        applies_without_cancelling(m, ts.subrange(0, k)),
    decreases ts.len() - k,
{
    if k < ts.len() {
        lemma_prefix_no_cancel(m, ts, k + 1);
        assert(ts.subrange(0, k + 1).drop_last() =~= ts.subrange(0, k));
    } else {
        assert(ts.subrange(0, k) =~= ts);
    }
}

/// Along a run of twists that can be applied and cancel nothing, each
/// prefix leaves a well-formed latest state, and each twist is recorded.
proof fn lemma_prefixes(m: ControllerModel, ts: Seq<Twist>, k: int)
    requires
        m.wf(),
        all_defined(m.ty, ts),
        applies_without_cancelling(m, ts),
        0 <= k <= ts.len(),
    ensures
        states_wf(m.ty, twists_applied(m, ts.subrange(0, k)).latest),
        twists_applied(m, ts.subrange(0, k)).ty == m.ty,
        k < ts.len() ==> !twists_applied(m, ts.subrange(0, k)).cancels(ts[k]),
        k < ts.len() ==> twists_applied(m, ts.subrange(0, k + 1)).latest == apply_twist(
            m.ty,
            twists_applied(m, ts.subrange(0, k)).latest,
            ts[k],
        ),
        k < ts.len() ==> twists_applied(m, ts.subrange(0, k + 1)).undo == twists_applied(
            m,
            ts.subrange(0, k),
        ).undo.push(ts[k]),
    decreases k,
{
    if k < ts.len() {
        lemma_prefix_no_cancel(m, ts, k + 1);
        let sub = ts.subrange(0, k + 1);
        assert(sub.drop_last() =~= ts.subrange(0, k));
        assert(sub.last() == ts[k]);
        assert(applies_without_cancelling(m, sub));
        assert(!twists_applied(m, sub.drop_last()).cancels(sub.last()));
        lemma_prefix_step(m, ts, k);
    }
    if k > 0 {
        lemma_prefix_step(m, ts, k - 1);
        lemma_prefixes(m, ts, k - 1);
        assert(twist_defined(m.ty, ts[k - 1]));
        lemma_apply_twist_wf(m.ty, twists_applied(m, ts.subrange(0, k - 1)).latest, ts[k - 1]);
    } else {
        assert(ts.subrange(0, 0) =~= Seq::<Twist>::empty());
    }
}

proof fn lemma_undone_prefix(m: ControllerModel, ts: Seq<Twist>, j: nat)
    requires
        m.wf(),
        all_defined(m.ty, ts),
        applies_without_cancelling(m, ts),
        ts.len() > 0,
        j <= ts.len(),
    ensures
        ({
            let a = twists_applied(m, ts.subrange(0, ts.len() - j));
            let u = undone(twists_applied(m, ts), j);
            &&& u.ty == m.ty
            &&& u.latest == a.latest
            &&& u.undo == a.undo
            &&& u.redo == reversed(ts.subrange(ts.len() - j, ts.len() as int))
        }),
    decreases j,
{
    let n = ts.len() as int;
    if j == 0 {
        assert(ts.subrange(0, n) =~= ts);
        assert(twists_applied(m, ts) == twists_applied(m, ts.drop_last()).twist_step(ts.last()));
        lemma_prefixes(m, ts, n - 1);
        assert(ts.subrange(0, n - 1) =~= ts.drop_last());
        assert(reversed(ts.subrange(n, n)) =~= Seq::<Twist>::empty());
    } else {
        let j1 = (j - 1) as nat;
        lemma_undone_prefix(m, ts, j1);
        let k = n - j;
        lemma_prefixes(m, ts, k);
        let a = twists_applied(m, ts.subrange(0, k));
        let u1 = undone(twists_applied(m, ts), j1);
        assert(u1.undo == a.undo.push(ts[k]));
        assert(u1.undo.last() == ts[k]);
        assert(twist_defined(m.ty, ts[k]));
        lemma_twist_round_trip(m.ty, a.latest, ts[k]);
        assert(u1.undo.drop_last() =~= a.undo);
        assert(reversed(ts.subrange(k, n)) =~= reversed(ts.subrange(k + 1, n)).push(ts[k]));
    }
}

proof fn lemma_redone_prefix(m: ControllerModel, ts: Seq<Twist>, i: nat)
    requires
        m.wf(),
        all_defined(m.ty, ts),
        applies_without_cancelling(m, ts),
        ts.len() > 0,
        i <= ts.len(),
    ensures
        ({
            let a = twists_applied(m, ts.subrange(0, i as int));
            let r = redone(undone(twists_applied(m, ts), ts.len()), i);
            &&& r.ty == m.ty
            &&& r.latest == a.latest
            &&& r.undo == a.undo
            &&& r.redo == reversed(ts.subrange(i as int, ts.len() as int))
        }),
    decreases i,
{
    let n = ts.len() as int;
    if i == 0 {
        lemma_undone_prefix(m, ts, ts.len());
    } else {
        let i1 = (i - 1) as nat;
        lemma_redone_prefix(m, ts, i1);
        lemma_prefixes(m, ts, i1 as int);
        let r1 = redone(undone(twists_applied(m, ts), ts.len()), i1);
        let r = redone(undone(twists_applied(m, ts), ts.len()), i);
        assert(r == r1.redo_step());
        assert(r1.redo.len() > 0);
        assert(r1.redo.last() == ts[i1 as int]);
        assert(r1.redo.drop_last() =~= reversed(ts.subrange(i as int, n)));
        assert(r.latest == apply_twist(m.ty, r1.latest, ts[i1 as int]));
        assert(r.undo == r1.undo.push(ts[i1 as int]));
    }
}

/// Undoing a run of twists, one undo per twist, gives back the state and
/// the history from before the run; redoing as many times then gives back
/// the state and the history after the run. The run must cancel nothing:
/// a twist that cancels the one before undoes it instead of being recorded.
pub proof fn lemma_undo_redo_round_trip(m: ControllerModel, ts: Seq<Twist>)
    requires
        m.wf(),
        forall|i: int| 0 <= i < ts.len() ==> m.ty.twist_valid(#[trigger] ts[i]),
        applies_without_cancelling(m, ts),
    ensures
        undone(twists_applied(m, ts), ts.len()).latest == m.latest,
        undone(twists_applied(m, ts), ts.len()).undo == m.undo,
        redone(undone(twists_applied(m, ts), ts.len()), ts.len()).latest == twists_applied(m, ts).latest,
        redone(undone(twists_applied(m, ts), ts.len()), ts.len()).undo == twists_applied(m, ts).undo,
{
    assert forall|i: int| 0 <= i < ts.len() implies twist_defined(m.ty, #[trigger] ts[i]) by {
        crate::state::lemma_valid_twist_defined(m.ty, ts[i]);
    }
    if ts.len() > 0 {
        lemma_undone_prefix(m, ts, ts.len());
        lemma_redone_prefix(m, ts, ts.len());
        assert(ts.subrange(0, 0) =~= Seq::<Twist>::empty());
        assert(ts.subrange(0, ts.len() as int) =~= ts);
    }
}

/// A twist applied again right after it was undone gives the same state
/// and history as applying it once.
pub proof fn lemma_twist_after_undo(m: ControllerModel, t: Twist)
    requires
        m.wf(),
        m.ty.twist_valid(t),
        !m.cancels(t),
    ensures
        m.twist_step(t).undo_step().twist_step(t).latest == m.twist_step(t).latest,
        m.twist_step(t).undo_step().twist_step(t).undo == m.twist_step(t).undo,
        m.twist_step(t).undo_step().twist_step(t).redo == m.twist_step(t).redo,
{
    lemma_twist_round_trip(m.ty, m.latest, t);
    let a = m.twist_step(t);
    assert(a.undo.last() == t);
    assert(a.undo.drop_last() =~= m.undo);
}

/// A twist that cancels the last one does what an undo does to the state
/// and to the undo history.
pub proof fn lemma_cancelling_twist_undoes(m: ControllerModel, t: Twist)
    requires
        m.cancels(t),
    ensures
        m.twist_step(t).latest == m.undo_step().latest,
        m.twist_step(t).undo == m.undo_step().undo,
{
}

/// Undoing every twist of the history from a state reached by applying it
/// to `base` gives back `base`, and leaves nothing to undo.
pub proof fn lemma_undo_all(m: ControllerModel, base: Seq<SignedPerm>)
    requires
        m.ty.wf(),
        states_wf(m.ty, base),
        all_defined(m.ty, m.undo),
        m.latest == apply_seq(m.ty, base, m.undo),
    ensures
        undone(m, m.undo.len()).latest == base,
        undone(m, m.undo.len()).undo.len() == 0,
{
    lemma_undo_some(m, base, m.undo.len());
    assert(m.undo.subrange(0, 0) =~= Seq::<Twist>::empty());
}

proof fn lemma_undo_some(m: ControllerModel, base: Seq<SignedPerm>, j: nat)
    requires
        m.ty.wf(),
        states_wf(m.ty, base),
        all_defined(m.ty, m.undo),
        m.latest == apply_seq(m.ty, base, m.undo),
        j <= m.undo.len(),
    ensures
        undone(m, j).ty == m.ty,
        undone(m, j).undo == m.undo.subrange(0, m.undo.len() - j),
        undone(m, j).latest == apply_seq(m.ty, base, m.undo.subrange(0, m.undo.len() - j)),
    decreases j,
{
    let n = m.undo.len() as int;
    if j == 0 {
        assert(m.undo.subrange(0, n) =~= m.undo);
    } else {
        let j1 = (j - 1) as nat;
        lemma_undo_some(m, base, j1);
        let k = n - j;
        let pre = m.undo.subrange(0, k);
        let t = m.undo[k];
        assert(m.undo.subrange(0, k + 1) =~= pre.push(t));
        lemma_apply_seq_push(m.ty, base, pre, t);
        assert(all_defined(m.ty, pre)) by {
            assert forall|i: int| 0 <= i < pre.len() implies twist_defined(m.ty, #[trigger] pre[i]) by {
                assert(pre[i] == m.undo[i]);
            }
        }
        lemma_apply_seq_wf(m.ty, base, pre);
        assert(twist_defined(m.ty, m.undo[k]));
        lemma_twist_round_trip(m.ty, apply_seq(m.ty, base, pre), t);
        assert(pre.push(t).drop_last() =~= pre);
    }
}

/// After a full or partial scramble, undoing every twist solves the puzzle
/// and leaves nothing to undo.
pub proof fn lemma_undo_scramble(m: ControllerModel, ty: PuzzleType, n: int)
    requires
        m.wf(),
        m.scrambled_by(ty, n),
    ensures
        undone(m, m.undo.len()).latest == solved(ty),
        undone(m, m.undo.len()).undo.len() == 0,
{
    crate::state::lemma_solved_wf(ty);
    lemma_undo_all(m, solved(ty));
}

/// A solve is reported at most once per scramble: the check that reports it
/// records it, after which the check reports nothing, whatever twists,
/// undos, redos and frames of animation come, until the next scramble.
pub proof fn lemma_solve_reported_once(m: ControllerModel, t: Twist, d: int)
    requires
        m.just_solved(),
    ensures
        m.solve_check().scramble_state == ScrambleState::Solved,
        !m.solve_check().just_solved(),
        !m.solve_check().twist_step(t).just_solved(),
        !m.solve_check().undo_step().just_solved(),
        !m.solve_check().redo_step().just_solved(),
        !m.solve_check().frame_step(d).just_solved(),
        !m.solve_check().caught_up().just_solved(),
        m.solve_check().solve_check() == m.solve_check(),
{
}

/// No solve is reported while the displayed puzzle is not solved, nor
/// before a scramble.
pub proof fn lemma_no_solve_reported(m: ControllerModel)
    requires
        m.displayed != solved(m.ty) || m.scramble_state == ScrambleState::Unscrambled,
    ensures
        !m.just_solved(),
        m.solve_check() == m,
{
}

/// A frame of animation keeps the progress between `0` and `PROGRESS_ONE`.
pub proof fn lemma_frame_progress(m: ControllerModel, d: int)
    requires
        0 <= m.progress <= PROGRESS_ONE,
        0 <= d <= PROGRESS_ONE,
    ensures
        0 <= m.frame_step(d).progress <= PROGRESS_ONE,
{
}


/// On a fresh controller of a puzzle with two layers or more, one twist is
/// recorded alone in the undo history and leaves the puzzle unsolved, also
/// once the animation has caught up.
pub proof fn lemma_first_twist_unsolves(ty: PuzzleType, t: Twist)
    requires
        ty.wf(),
        ty.layers >= 2,
        ty.twist_valid(t),
    ensures
        ControllerModel::fresh(ty).twist_step(t).undo == seq![t],
        ControllerModel::fresh(ty).twist_step(t).latest != solved(ty),
        ControllerModel::fresh(ty).twist_step(t).caught_up().displayed != solved(ty),
{
    crate::state::lemma_twist_unsolves(ty, t);
    assert(Seq::<Twist>::empty().push(t) =~= seq![t]);
}

} // verus!
