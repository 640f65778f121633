//! Painting a canvas: which parts of the last frame can be used again.

use vstd::prelude::*;

verus! {

/// The size of a frame.
#[derive(Clone, Copy, Debug, PartialEq, Eq, Structural)]
pub struct FrameSize {
    pub width: u32,
    pub height: u32,
}

/// What painting has to make anew.
#[derive(Clone, Copy, Debug, PartialEq, Eq, Structural)]
pub struct PaintPlan {
    /// The drawing context is fetched.
    pub fetch_context: bool,
    /// A frame of the canvas's size is made.
    pub new_frame: bool,
}

/// What painting has to make anew: the context once, and a frame whenever there
/// is none of the canvas's size.
pub fn paint_plan(has_context: bool, frame: Option<FrameSize>, canvas: FrameSize) -> (plan: PaintPlan)
    ensures
        plan.fetch_context == !has_context,
        plan.new_frame == (frame != Some(canvas)),
{
    let new_frame: bool = match frame {
        Some(size) => size.width != canvas.width || size.height != canvas.height,
        None => true,
    };
    PaintPlan { fetch_context: !has_context, new_frame }
}

/// A frame is used again exactly where it is as wide and as high as the canvas, and the
/// context is fetched exactly once: painting twice on one canvas makes nothing anew the
/// second time.
pub proof fn law_painting_again_makes_nothing_anew(
    has_context: bool,
    frame: Option<FrameSize>,
    canvas: FrameSize,
    plan: PaintPlan,
    next: PaintPlan,
)
    requires
        call_ensures(paint_plan, (has_context, frame, canvas), plan),
        call_ensures(paint_plan, (true, Some(canvas), canvas), next),
    ensures
        plan.fetch_context || has_context,
        !(plan.fetch_context && has_context),
        frame is None ==> plan.new_frame,
        frame matches Some(size) ==> plan.new_frame == (size.width != canvas.width || size.height
            != canvas.height),
        !next.fetch_context && !next.new_frame,
{
}

} // verus!
