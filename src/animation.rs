use vstd::prelude::*;

verus! {

/// The animations a character can play.
#[derive(PartialEq, Eq, Hash, Debug, Copy, Clone, Structural)]
pub enum AnimationId {
    WalkUp,
    WalkDown,
    WalkLeft,
    WalkRight,
    WalkUpLeft,
    WalkDownLeft,
    WalkUpRight,
    WalkDownRight,
    DieUp,
    DieDown,
    DieLeft,
    DieRight,
    DieUpLeft,
    DieDownLeft,
    DieUpRight,
    DieDownRight,
}

impl AnimationId {
    /// The dying animations, which end on their last frame instead of looping.
    pub open spec fn is_terminal_spec(&self) -> bool {
        match self {
            AnimationId::DieUp | AnimationId::DieDown | AnimationId::DieLeft | AnimationId::DieRight
            | AnimationId::DieUpLeft | AnimationId::DieDownLeft | AnimationId::DieUpRight
            | AnimationId::DieDownRight => true,
            _ => false,
        }
    }

    pub fn is_terminal(&self) -> (r: bool)
        ensures
            r == self.is_terminal_spec(),
    {
        match self {
            AnimationId::DieUp | AnimationId::DieDown | AnimationId::DieLeft | AnimationId::DieRight
            | AnimationId::DieUpLeft | AnimationId::DieDownLeft | AnimationId::DieUpRight
            | AnimationId::DieDownRight => true,
            _ => false,
        }
    }
}

/// The animation an entity plays, the one queued after it, and whether it has finished.
#[derive(Debug, Clone, Copy)]
pub struct Animation {
    pub current: Option<AnimationId>,
    pub next: Option<AnimationId>,
    pub is_done: bool,
}

impl Default for Animation {
    fn default() -> (r: Animation)
        ensures
            r.current is None,
            r.next is None,
            !r.is_done,
    {
        Animation { current: None, next: None, is_done: false }
    }
}

/// The dying animation that follows a walking one, facing the same way.
pub open spec fn dying_spec(current: Option<AnimationId>) -> Option<AnimationId> {
    match current {
        Some(AnimationId::WalkUp) => Some(AnimationId::DieUp),
        Some(AnimationId::WalkDown) => Some(AnimationId::DieDown),
        Some(AnimationId::WalkLeft) => Some(AnimationId::DieLeft),
        Some(AnimationId::WalkRight) => Some(AnimationId::DieRight),
        Some(AnimationId::WalkUpLeft) => Some(AnimationId::DieUpLeft),
        Some(AnimationId::WalkDownLeft) => Some(AnimationId::DieDownLeft),
        Some(AnimationId::WalkUpRight) => Some(AnimationId::DieUpRight),
        Some(AnimationId::WalkDownRight) => Some(AnimationId::DieDownRight),
        _ => None,
    }
}

/// Entities past their age die.
pub struct Murder;

impl Murder {
    pub fn dying_animation(current: Option<AnimationId>) -> (r: Option<AnimationId>)
        ensures
            r == dying_spec(current),
    {
        match current {
            Some(AnimationId::WalkUp) => Some(AnimationId::DieUp),
            Some(AnimationId::WalkDown) => Some(AnimationId::DieDown),
            Some(AnimationId::WalkLeft) => Some(AnimationId::DieLeft),
            Some(AnimationId::WalkRight) => Some(AnimationId::DieRight),
            Some(AnimationId::WalkUpLeft) => Some(AnimationId::DieUpLeft),
            Some(AnimationId::WalkDownLeft) => Some(AnimationId::DieDownLeft),
            Some(AnimationId::WalkUpRight) => Some(AnimationId::DieUpRight),
            Some(AnimationId::WalkDownRight) => Some(AnimationId::DieDownRight),
            _ => None,
        }
    }

    /// Queues the dying animation that matches the walking one being played; an entity that is
    /// not walking keeps what it had queued.
    pub fn kill(anim: &mut Animation)
        ensures
            final(anim).current == old(anim).current,
            final(anim).is_done == old(anim).is_done,
            final(anim).next == match dying_spec(old(anim).current) {
                Some(d) => Some(d),
                None => old(anim).next,
            },
    {
        if let Some(next) = Murder::dying_animation(anim.current) {
            anim.next = Some(next);
        }
    }
}

} // verus!
