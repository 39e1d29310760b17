use vstd::prelude::*;

verus! {

/// The length of a frame, in nanoseconds: a sixtieth of a second.
pub const FRAME_LENGTH_NS: u64 = 16_666_666;

/// When the next frame is due after a frame drawn at `now`: one frame length
/// after the previous due time, unless that leaves less than a frame from now,
/// in which case one frame length from now.
pub open spec fn spec_next_frame_time(now: u64, next_frame_time: u64) -> int {
    if next_frame_time + FRAME_LENGTH_NS > now {
        now + FRAME_LENGTH_NS
    } else {
        next_frame_time + FRAME_LENGTH_NS
    }
}

/// Decides, at time `now`, whether a frame is due (when `now` is past
/// `next_frame_time`), and when the following one will be. Times are in
/// nanoseconds since a fixed start.
pub fn frame_step(now: u64, next_frame_time: u64) -> (res: (bool, u64))
    requires
        now + FRAME_LENGTH_NS <= u64::MAX,
        next_frame_time + FRAME_LENGTH_NS <= u64::MAX,
    ensures
        res.0 == (now > next_frame_time),
        res.0 ==> res.1 == spec_next_frame_time(now, next_frame_time),
        !res.0 ==> res.1 == next_frame_time,
{
    if now > next_frame_time {
        let next = if next_frame_time + FRAME_LENGTH_NS > now {
            now + FRAME_LENGTH_NS
        } else {
            next_frame_time + FRAME_LENGTH_NS
        };
        (true, next)
    } else {
        (false, next_frame_time)
    }
}

/// Whether the main loop should sleep until the next window event: nothing
/// needs to be redrawn and no rendered frame is waiting.
pub fn should_wait_for_events(needs_redraw: bool, frame_ready: bool) -> (wait: bool)
    ensures
        wait == (!needs_redraw && !frame_ready),
{
    !needs_redraw && !frame_ready
}

} // verus!

verus! {

/// After a frame is drawn, the next one is due later than the one just drawn,
/// and no more than one frame length from now; when drawing has fallen behind
/// by more than a frame, the next frame is still due now, to catch up.
pub proof fn law_next_frame_in_future(now: u64, next_frame_time: u64)
    requires
        now > next_frame_time,
    ensures
        next_frame_time < spec_next_frame_time(now, next_frame_time) <= now + FRAME_LENGTH_NS,
        next_frame_time + FRAME_LENGTH_NS > now ==> spec_next_frame_time(now, next_frame_time) > now,
{
}

/// While frames are drawn on time, they keep a steady pace of one frame length.
pub proof fn law_steady_frame_pace(now: u64, next_frame_time: u64)
    requires
        now > next_frame_time,
        next_frame_time + FRAME_LENGTH_NS <= now,
    ensures
        spec_next_frame_time(now, next_frame_time) == next_frame_time + FRAME_LENGTH_NS,
{
}

} // verus!
