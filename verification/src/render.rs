//! The steps of presenting one frame.
//!
//! Acquiring a frame and drawing it is the work of the caller, who owns the
//! surface. What to do next is decided here: a step takes where the render
//! stands and what happened, and gives where it stands then and what to do.

use vstd::prelude::*;
use crate::error::Error;

verus! {

/// Where a render stands.
#[derive(Debug)]
pub enum RenderState {
    /// No frame is in the making.
    Idle,
    /// A frame was asked of the surface. `retried` says whether the surface
    /// was configured anew after a first failure.
    Acquiring { retried: bool },
    /// A frame is held: the dirty regions are uploaded and the frame is drawn.
    Drawing,
}

/// What happened since the last step.
#[derive(Debug)]
pub enum RenderEvent {
    /// A frame was requested for a surface of this size.
    Requested { surface_width: u32, surface_height: u32 },
    /// The surface gave a frame.
    FrameAcquired,
    /// The surface gave no frame.
    AcquireFailed(wgpu::SurfaceError),
    /// The frame was drawn and presented.
    Presented,
}

/// What to do next.
#[derive(Debug)]
pub enum RenderAction {
    /// Nothing: the render is over, or the event does not belong here.
    Nothing,
    /// Ask the surface for a frame.
    AcquireFrame,
    /// Configure the surface anew, then ask it for a frame.
    ConfigureAndAcquireFrame,
    /// Upload the dirty regions, draw inside the clip rectangle, present.
    UploadAndDraw,
    /// Give up with this error.
    Fail(Error),
}

/// The step of a render. A surface without pixels is not rendered to. A
/// first failure to acquire a frame has the surface configured anew and the
/// frame asked for once more; a second failure ends the render with the
/// surface's error.
pub open spec fn spec_render_step(state: RenderState, event: RenderEvent) -> (
    RenderState,
    RenderAction,
) {
    match (state, event) {
        (RenderState::Idle, RenderEvent::Requested { surface_width, surface_height }) => {
            if surface_width == 0 || surface_height == 0 {
                (RenderState::Idle, RenderAction::Nothing)
            } else {
                (RenderState::Acquiring { retried: false }, RenderAction::AcquireFrame)
            }
        },
        (RenderState::Acquiring { retried }, RenderEvent::FrameAcquired) => (
            RenderState::Drawing,
            RenderAction::UploadAndDraw,
        ),
        (RenderState::Acquiring { retried }, RenderEvent::AcquireFailed(error)) => {
            if retried {
                (RenderState::Idle, RenderAction::Fail(Error::Surface(error)))
            } else {
                (RenderState::Acquiring { retried: true }, RenderAction::ConfigureAndAcquireFrame)
            }
        },
        (RenderState::Drawing, RenderEvent::Presented) => (
            RenderState::Idle,
            RenderAction::Nothing,
        ),
        (state, _) => (state, RenderAction::Nothing),
    }
}

/// One step of a render: where it stands after `event`, and what to do.
pub fn render_step(state: RenderState, event: RenderEvent) -> (next: (RenderState, RenderAction))
    ensures
        next == spec_render_step(state, event),
{
    match (state, event) {
        (RenderState::Idle, RenderEvent::Requested { surface_width, surface_height }) => {
            if surface_width == 0 || surface_height == 0 {
                (RenderState::Idle, RenderAction::Nothing)
            } else {
                (RenderState::Acquiring { retried: false }, RenderAction::AcquireFrame)
            }
        },
        (RenderState::Acquiring { retried }, RenderEvent::FrameAcquired) => (
            RenderState::Drawing,
            RenderAction::UploadAndDraw,
        ),
        (RenderState::Acquiring { retried }, RenderEvent::AcquireFailed(error)) => {
            if retried {
                (RenderState::Idle, RenderAction::Fail(Error::Surface(error)))
            } else {
                (RenderState::Acquiring { retried: true }, RenderAction::ConfigureAndAcquireFrame)
            }
        },
        (RenderState::Drawing, RenderEvent::Presented) => (
            RenderState::Idle,
            RenderAction::Nothing,
        ),
        (state, _) => (state, RenderAction::Nothing),
    }
}

/// A render configures the surface anew at most once: after it has done so,
/// no event leads to doing it again before the render is over.
pub proof fn lemma_one_retry(event: RenderEvent)
    ensures
        spec_render_step(RenderState::Acquiring { retried: true }, event).1
            != RenderAction::ConfigureAndAcquireFrame,
        spec_render_step(RenderState::Drawing, event).1 != RenderAction::ConfigureAndAcquireFrame,
        spec_render_step(RenderState::Idle, event).1 != RenderAction::ConfigureAndAcquireFrame,
{
}

/// Nothing is uploaded or drawn without a frame: that action follows only
/// the event that the surface gave one.
pub proof fn lemma_draw_needs_frame(state: RenderState, event: RenderEvent)
    requires
        spec_render_step(state, event).1 == RenderAction::UploadAndDraw,
    ensures
        event == RenderEvent::FrameAcquired,
        state is Acquiring,
        spec_render_step(state, event).0 == RenderState::Drawing,
{
}

} // verus!
