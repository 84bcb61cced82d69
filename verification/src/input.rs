//! The player's input, gathered once per frame and spent in fixed steps.
use vstd::prelude::*;

verus! {

/// The horizontal direction that the held keys ask for: `1` for right,
/// `-1` for left, `0` for both or neither.
pub open spec fn spec_horizontal_axis(left: bool, right: bool) -> int {
    (if right { 1int } else { 0int }) - (if left { 1int } else { 0int })
}

/// The horizontal direction that the held keys ask for.
pub fn horizontal_axis(left: bool, right: bool) -> (h: i8)
    ensures
        h == spec_horizontal_axis(left, right),
        -1 <= h <= 1,
{
    let r: i8 = if right { 1 } else { 0 };
    let l: i8 = if left { 1 } else { 0 };
    r - l
}

/// The input that the fixed steps act on: the horizontal direction held in
/// the latest frame, and whether a jump was asked for since the last fixed
/// step.
#[derive(Clone, Copy, Debug, PartialEq, Eq, Structural)]
pub struct PlayerInputState {
    pub horizontal: i8,
    pub jump_queued: bool,
}

/// The state after one frame's input: the held keys set the direction, and
/// a fresh jump press is added to any jump still queued.
pub open spec fn collected(s: PlayerInputState, left: bool, right: bool, jump_pressed: bool) -> PlayerInputState {
    PlayerInputState {
        horizontal: spec_horizontal_axis(left, right) as i8,
        jump_queued: s.jump_queued || jump_pressed,
    }
}

/// The state after the frames `frames`, each given as
/// `(left held, right held, jump pressed)`, in order.
pub open spec fn collected_frames(s: PlayerInputState, frames: Seq<(bool, bool, bool)>) -> PlayerInputState
    decreases frames.len(),
{
    if frames.len() == 0 {
        s
    } else {
        let f = frames.last();
        collected(collected_frames(s, frames.drop_last()), f.0, f.1, f.2)
    }
}

/// The state after a fixed step: the queued jump is spent.
pub open spec fn cleared(s: PlayerInputState) -> PlayerInputState {
    PlayerInputState { jump_queued: false, ..s }
}

impl Default for PlayerInputState {
    fn default() -> (s: PlayerInputState)
        ensures
            s.horizontal == 0,
            !s.jump_queued,
    {
        PlayerInputState { horizontal: 0, jump_queued: false }
    }
}

/// What one fixed step of the player's movement does.
#[derive(Clone, Copy, Debug, PartialEq, Eq, Structural)]
pub struct FixedStepPlan {
    /// Grounded bodies take the jump speed upwards.
    pub apply_jump: bool,
    /// The body accelerates in the held direction, up to its top speed.
    pub apply_horizontal_movement: bool,
    /// The body's horizontal speed decays.
    pub apply_horizontal_damping: bool,
}

impl PlayerInputState {
    /// Takes in one frame's input.
    pub fn collect(&mut self, left: bool, right: bool, jump_pressed: bool)
        ensures
            *final(self) == collected(*old(self), left, right, jump_pressed),
            -1 <= final(self).horizontal <= 1,
            old(self).jump_queued ==> final(self).jump_queued,
    {
        self.horizontal = horizontal_axis(left, right);
        self.jump_queued = self.jump_queued || jump_pressed;
    }

    /// Spends the queued jump at the end of a fixed step.
    pub fn clear_jump_queue(&mut self)
        ensures
            *final(self) == cleared(*old(self)),
    {
        self.jump_queued = false;
    }

    /// What the next fixed step does: a queued jump is applied; with a
    /// direction held the body accelerates, and with none its horizontal
    /// speed is damped, never both.
    pub fn fixed_step_plan(&self) -> (plan: FixedStepPlan)
        ensures
            plan.apply_jump == self.jump_queued,
            plan.apply_horizontal_movement == (self.horizontal != 0),
            plan.apply_horizontal_damping == (self.horizontal == 0),
            plan.apply_horizontal_movement != plan.apply_horizontal_damping,
    {
        FixedStepPlan {
            apply_jump: self.jump_queued,
            apply_horizontal_movement: self.horizontal != 0,
            apply_horizontal_damping: self.horizontal == 0,
        }
    }
}

impl FixedStepPlan {
    /// Whether a body jumps in this step: only a grounded one, and only
    /// when a jump is queued.
    pub fn jumps(&self, grounded: bool) -> (j: bool)
        ensures
            j == (self.apply_jump && grounded),
    {
        self.apply_jump && grounded
    }
}

/// A jump pressed in any frame before a fixed step is applied in that step,
/// whatever the frames after the press hold.
pub proof fn lemma_jump_press_kept(s: PlayerInputState, frames: Seq<(bool, bool, bool)>, i: int)
    requires
        0 <= i < frames.len(),
        frames[i].2,
    ensures
        collected_frames(s, frames).jump_queued,
    decreases frames.len(),
{
    if i < frames.len() - 1 {
        lemma_jump_press_kept(s, frames.drop_last(), i);
    }
}

/// A jump is applied once per press: after a fixed step has spent the
/// queue, frames without a jump press queue no jump.
pub proof fn lemma_no_jump_without_press(s: PlayerInputState, frames: Seq<(bool, bool, bool)>)
    requires
        forall|i: int| 0 <= i < frames.len() ==> !(#[trigger] frames[i]).2,
    ensures
        !collected_frames(cleared(s), frames).jump_queued,
    decreases frames.len(),
{
    if frames.len() > 0 {
        lemma_no_jump_without_press(s, frames.drop_last());
        assert(!frames[frames.len() - 1].2);
    }
}

/// The horizontal direction after a frame depends on that frame's keys
/// alone, and is always `-1`, `0` or `1`.
pub proof fn lemma_direction_from_last_frame(s: PlayerInputState, frames: Seq<(bool, bool, bool)>)
    requires
        frames.len() > 0,
    ensures
        collected_frames(s, frames).horizontal == spec_horizontal_axis(frames.last().0, frames.last().1),
        -1 <= collected_frames(s, frames).horizontal <= 1,
{
}

} // verus!
