//! Animation settings: direction, trigger, value range and easing curve.
use vstd::prelude::*;

verus! {

/// Which way an animation runs through its range.
#[derive(Debug, Clone, Copy, PartialEq, Eq, Structural)]
pub enum AnimationDirection {
    Forward,
    Backward,
    Alternate,
    AlternateReverse,
}

impl AnimationDirection {
    /// Whether the animation turns around at each end of its range.
    pub fn is_flippable(&self) -> (r: bool)
        ensures
            r == (*self == AnimationDirection::Alternate || *self == AnimationDirection::AlternateReverse),
    {
        match self {
            AnimationDirection::Alternate | AnimationDirection::AlternateReverse => true,
            _ => false,
        }
    }
}

/// When an animation plays: while hovered, all the time, or as a modal
/// opens (entry) or closes (exit).
#[derive(Debug, Clone, Copy, PartialEq, Eq, Structural)]
pub enum AnimationWhen {
    Hover,
    Forever,
    Entry,
    Exit,
}

/// The two ends of an animated value.
#[derive(Debug, Clone, Copy)]
pub struct AnimationRange<T> {
    pub from: T,
    pub to: T,
}

impl<T> AnimationRange<T> {
    pub fn new(from: T, to: T) -> (r: Self)
        ensures
            r.from == from,
            r.to == to,
    {
        AnimationRange { from, to }
    }
}

/// The easing curves an animation can follow.
#[derive(Debug, Clone, Copy, PartialEq, Eq, Structural)]
pub enum EasingFunction {
    Linear,
    EaseInSine,
    EaseInQuad,
    EaseInCubic,
    EaseInQuart,
    EaseInQuint,
    EaseInExpo,
    EaseInCirc,
    EaseInBack,
    EaseInElastic,
    EaseInBounce,
    EaseOutSine,
    EaseOutQuad,
    EaseOutCubic,
    EaseOutQuart,
    EaseOutQuint,
    EaseOutExpo,
    EaseOutCirc,
    EaseOutBack,
    EaseOutBounce,
    EaseOutElastic,
    EaseInOutSine,
    EaseInOutQuad,
    EaseInOutCubic,
    EaseInOutQuart,
    EaseInOutQuint,
    EaseInOutExpo,
    EaseInOutCirc,
    EaseInOutBack,
    EaseInOutBounce,
    EaseInOutElastic,
}

} // verus!
