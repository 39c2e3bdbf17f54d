//! Piecewise linear functions given by their breakpoints, and the clip
//! that finds where such a function crosses zero.
use crate::float::{Extended, Float};
use crate::generics::Bool;
use std::ops::Range;
use vstd::prelude::*;

verus! {

/// A breakpoint as two real numbers: once the running coordinate crosses
/// `x`, the slope of the function changes by `slope`.
pub struct Breakpoint {
    /// Where the slope changes.
    pub x: real,
    /// By how much it changes.
    pub slope: real,
}

impl Breakpoint {
    /// What the breakpoint adds to the offset of a line that takes it in.
    pub open spec fn offset(self) -> real {
        -self.x * self.slope
    }
}

/// A breakpoint of a piecewise linear function.
#[derive(Debug, PartialEq)]
pub struct Event<F: Float> {
    /// Where the slope changes.
    pub x: F,
    /// By how much it changes.
    pub slope: F,
}

impl<F: Float> Event<F> {
    /// Both numbers are real.
    pub open spec fn wf(&self) -> bool {
        self.x@.is_finite() && self.slope@.is_finite()
    }

    /// The breakpoint as two real numbers.
    pub open spec fn view(&self) -> Breakpoint {
        Breakpoint { x: self.x@.value(), slope: self.slope@.value() }
    }

    /// The breakpoint at 0 that changes nothing.
    pub fn zero() -> (e: Self)
        ensures
            e.wf(),
            e@ == (Breakpoint { x: 0real, slope: 0real }),
    {
        Event { x: F::from_i16(0), slope: F::from_i16(0) }
    }

    /// What the breakpoint adds to the offset of a line that takes it in.
    pub fn offset(&self) -> (o: F)
        requires
            self.wf(),
        ensures
            o@ == Extended::Finite(self@.offset()),
    {
        self.x.negated().times(&self.slope)
    }
}

/// The breakpoints of a buffer of events, as real numbers.
pub open spec fn breakpoints<F: Float>(events: Seq<Event<F>>) -> Seq<Breakpoint> {
    Seq::new(events.len(), |i: int| events[i]@)
}

/// Every event of the window `[start, end)` holds real numbers.
pub open spec fn window_wf<F: Float>(events: Seq<Event<F>>, start: int, end: int) -> bool {
    &&& 0 <= start <= end <= events.len()
    &&& forall|i: int| start <= i < end ==> #[trigger] events[i].wf()
}

/// Where a walk along the breakpoints stopped, and the line it arrived with.
pub struct Walk {
    /// The end of the window that the walk moved: its start when walking
    /// forward, its end when walking backward.
    pub at: int,
    /// The slope of the line.
    pub slope: real,
    /// The offset of the line.
    pub offset: real,
}

/// Walk from the low end of the window `[start, end)`: as long as the line
/// is negative at the first breakpoint left, take that breakpoint into the
/// line and pass it.
pub open spec fn walk_forward(
    events: Seq<Breakpoint>,
    start: int,
    end: int,
    slope: real,
    offset: real,
) -> Walk
    decreases end - start,
{
    if start < end && slope * events[start].x + offset < 0real {
        walk_forward(
            events,
            start + 1,
            end,
            slope + events[start].slope,
            offset + events[start].offset(),
        )
    } else {
        Walk { at: start, slope, offset }
    }
}

/// Walk from the high end of the window `[start, end)`: as long as the line
/// is negative at the last breakpoint left, take that breakpoint into the
/// line and pass it.
pub open spec fn walk_backward(
    events: Seq<Breakpoint>,
    start: int,
    end: int,
    slope: real,
    offset: real,
) -> Walk
    decreases end - start,
{
    if start < end && slope * events[end - 1].x + offset < 0real {
        walk_backward(
            events,
            start,
            end - 1,
            slope + events[end - 1].slope,
            offset + events[end - 1].offset(),
        )
    } else {
        Walk { at: end, slope, offset }
    }
}

/// A slope within the tolerance `eps` of 0.
pub open spec fn is_flat(slope: real, eps: real) -> bool {
    -eps <= slope <= eps
}

/// What a clip leaves: the crossing, the window and the breakpoints.
pub struct Clipped {
    /// Where the line crosses zero; an infinity where it is flat.
    pub x: Extended,
    /// The start of the window.
    pub start: int,
    /// The end of the window.
    pub end: int,
    /// The buffer of breakpoints.
    pub events: Seq<Breakpoint>,
}

/// Clip from the low end: walk forward, then solve the line for its root
/// and put a breakpoint there in front of the window. A flat line has no
/// root: the crossing is at minus infinity and no breakpoint is added.
pub open spec fn clip_forward(
    events: Seq<Breakpoint>,
    start: int,
    end: int,
    slope: real,
    offset: real,
    eps: real,
) -> Clipped {
    let w = walk_forward(events, start, end, slope, offset);
    if is_flat(w.slope, eps) {
        Clipped { x: Extended::NegInf, start: w.at, end, events }
    } else {
        let x = -w.offset / w.slope;
        Clipped {
            x: Extended::Finite(x),
            start: w.at - 1,
            end,
            events: events.update(w.at - 1, Breakpoint { x, slope: w.slope }),
        }
    }
}

/// Clip from the high end: walk backward, then solve the line for its
/// root and put a breakpoint there behind the window. A flat line has no
/// root: the crossing is at plus infinity and no breakpoint is added.
pub open spec fn clip_backward(
    events: Seq<Breakpoint>,
    start: int,
    end: int,
    slope: real,
    offset: real,
    eps: real,
) -> Clipped {
    let w = walk_backward(events, start, end, slope, offset);
    if is_flat(w.slope, eps) {
        Clipped { x: Extended::PosInf, start, end: w.at, events }
    } else {
        let x = -w.offset / w.slope;
        Clipped {
            x: Extended::Finite(x),
            start,
            end: w.at + 1,
            events: events.update(w.at, Breakpoint { x, slope: w.slope }),
        }
    }
}

/// The clip in the direction that `forward` tells.
pub open spec fn clipped(
    forward: bool,
    events: Seq<Breakpoint>,
    start: int,
    end: int,
    slope: real,
    offset: real,
    eps: real,
) -> Clipped {
    if forward {
        clip_forward(events, start, end, slope, offset, eps)
    } else {
        clip_backward(events, start, end, slope, offset, eps)
    }
}

/// A forward walk stops inside the window.
pub proof fn lemma_walk_forward_stops(
    events: Seq<Breakpoint>,
    start: int,
    end: int,
    slope: real,
    offset: real,
)
    requires
        start <= end,
    ensures
        start <= walk_forward(events, start, end, slope, offset).at <= end,
    decreases end - start,
{
    if start < end && slope * events[start].x + offset < 0real {
        lemma_walk_forward_stops(
            events,
            start + 1,
            end,
            slope + events[start].slope,
            offset + events[start].offset(),
        );
    }
}

/// A backward walk stops inside the window.
pub proof fn lemma_walk_backward_stops(
    events: Seq<Breakpoint>,
    start: int,
    end: int,
    slope: real,
    offset: real,
)
    requires
        start <= end,
    ensures
        start <= walk_backward(events, start, end, slope, offset).at <= end,
    decreases end - start,
{
    if start < end && slope * events[end - 1].x + offset < 0real {
        lemma_walk_backward_stops(
            events,
            start,
            end - 1,
            slope + events[end - 1].slope,
            offset + events[end - 1].offset(),
        );
    }
}

/// A clip moves the end of the window that it walks from, by one slot
/// outward at most, and leaves the other end and the length of the buffer.
pub proof fn lemma_clipped_window(
    forward: bool,
    events: Seq<Breakpoint>,
    start: int,
    end: int,
    slope: real,
    offset: real,
    eps: real,
)
    requires
        0 <= start <= end <= events.len(),
        forward ==> start >= 1,
        !forward ==> end < events.len(),
    ensures
        ({
            let c = clipped(forward, events, start, end, slope, offset, eps);
            &&& c.events.len() == events.len()
            &&& forward ==> start - 1 <= c.start <= c.end == end
            &&& !forward ==> start == c.start <= c.end <= end + 1
        }),
{
    lemma_walk_forward_stops(events, start, end, slope, offset);
    lemma_walk_backward_stops(events, start, end, slope, offset);
}

/// Whether the line `slope * x + offset` is negative at the breakpoint.
fn negative_at<F: Float>(slope: &F, offset: &F, e: &Event<F>) -> (b: bool)
    requires
        slope@.is_finite(),
        offset@.is_finite(),
        e.wf(),
    ensures
        b == (slope@.value() * e@.x + offset@.value() < 0real),
{
    let zero = F::from_i16(0);
    slope.times(&e.x).plus(offset).less(&zero)
}

/// Walk the line `slope * x + offset` along the breakpoints from the
/// first on: as long as the line is negative at the next breakpoint, take
/// that breakpoint in. The line that the walk arrives with is returned as
/// its slope and its offset.
pub fn clip_front<F: Float>(events: &[Event<F>], slope: F, offset: F) -> (line: (F, F))
    requires
        window_wf(events@, 0, events@.len() as int),
        slope@.is_finite(),
        offset@.is_finite(),
    ensures
        ({
            let w = walk_forward(
                breakpoints(events@),
                0,
                events@.len() as int,
                slope@.value(),
                offset@.value(),
            );
            &&& line.0@ == Extended::Finite(w.slope)
            &&& line.1@ == Extended::Finite(w.offset)
        }),
{
    let ghost bs = breakpoints(events@);
    let ghost slope0 = slope@.value();
    let ghost offset0 = offset@.value();
    let mut slope = slope;
    let mut offset = offset;
    let mut k: usize = 0;
    while k < events.len()
        invariant
            k <= events@.len(),
            bs == breakpoints(events@),
            window_wf(events@, 0, events@.len() as int),
            slope@.is_finite(),
            offset@.is_finite(),
            walk_forward(bs, 0, events@.len() as int, slope0, offset0) == walk_forward(
                bs,
                k as int,
                events@.len() as int,
                slope@.value(),
                offset@.value(),
            ),
        ensures
            walk_forward(bs, 0, events@.len() as int, slope0, offset0) == (Walk {
                at: k as int,
                slope: slope@.value(),
                offset: offset@.value(),
            }),
        decreases events@.len() - k,
    {
        let e = &events[k];
        assert(e.wf());
        assert(bs[k as int] == e@);
        if !negative_at(&slope, &offset, e) {
            break ;
        }
        offset = offset.plus(&e.offset());
        slope = slope.plus(&e.slope);
        k += 1;
    }
    (slope, offset)
}

/// Find where the line `slope * x + offset`, corrected by the breakpoints
/// that it passes, crosses zero, and leave a breakpoint there.
///
/// The window `pq` of `elements` holds the breakpoints not yet passed. The
/// walk starts at its low end if `Forward` is true, at its high end
/// otherwise, and the new breakpoint goes to the slot next to that end.
pub fn clip<F: Float, Forward: Bool>(
    elements: &mut [Event<F>],
    pq: &mut Range<usize>,
    slope: F,
    offset: F,
) -> (x: F)
    requires
        window_wf(old(elements)@, old(pq).start as int, old(pq).end as int),
        Forward::value() ==> old(pq).start >= 1,
        !Forward::value() ==> old(pq).end < old(elements)@.len(),
        slope@.is_finite(),
        offset@.is_finite(),
    ensures
        ({
            let c = clipped(
                Forward::value(),
                breakpoints(old(elements)@),
                old(pq).start as int,
                old(pq).end as int,
                slope@.value(),
                offset@.value(),
                F::tolerance().value(),
            );
            &&& x@ == c.x
            &&& final(pq).start == c.start
            &&& final(pq).end == c.end
            &&& breakpoints(final(elements)@) == c.events
            &&& window_wf(final(elements)@, c.start, c.end)
        }),
{
    let ghost events = breakpoints(elements@);
    let ghost start0 = pq.start as int;
    let ghost end0 = pq.end as int;
    let ghost slope0 = slope@.value();
    let ghost offset0 = offset@.value();
    let mut start: usize = pq.start;
    let mut end: usize = pq.end;
    let mut slope = slope;
    let mut offset = offset;
    let eps = F::eps();
    if Forward::is_true() {
        loop
            invariant
                elements@ == old(elements)@,
                events == breakpoints(elements@),
                window_wf(elements@, start0, end0),
                start0 <= start <= end == end0,
                slope@.is_finite(),
                offset@.is_finite(),
                walk_forward(events, start0, end0, slope0, offset0) == walk_forward(
                    events,
                    start as int,
                    end as int,
                    slope@.value(),
                    offset@.value(),
                ),
            ensures
                walk_forward(events, start0, end0, slope0, offset0) == (Walk {
                    at: start as int,
                    slope: slope@.value(),
                    offset: offset@.value(),
                }),
            decreases end - start,
        {
            if start >= end {
                break ;
            }
            let e = &elements[start];
            assert(e.wf());
            assert(events[start as int] == e@);
            if !negative_at(&slope, &offset, e) {
                break ;
            }
            offset = offset.plus(&e.offset());
            slope = slope.plus(&e.slope);
            start += 1;
        }
        if !eps.less(&slope.abs()) {
            *pq = start..end;
            F::infinity().negated()
        } else {
            let x = offset.negated().over(&slope);
            start -= 1;
            elements[start] = Event { x: x.copy(), slope };
            *pq = start..end;
            proof {
                assert(breakpoints(elements@) =~= events.update(start as int, elements@[start as int]@));
            }
            x
        }
    } else {
        loop
            invariant
                elements@ == old(elements)@,
                events == breakpoints(elements@),
                window_wf(elements@, start0, end0),
                start0 == start <= end <= end0,
                slope@.is_finite(),
                offset@.is_finite(),
                walk_backward(events, start0, end0, slope0, offset0) == walk_backward(
                    events,
                    start as int,
                    end as int,
                    slope@.value(),
                    offset@.value(),
                ),
            ensures
                walk_backward(events, start0, end0, slope0, offset0) == (Walk {
                    at: end as int,
                    slope: slope@.value(),
                    offset: offset@.value(),
                }),
            decreases end - start,
        {
            if start >= end {
                break ;
            }
            let e = &elements[end - 1];
            assert(e.wf());
            assert(events[end - 1] == e@);
            if !negative_at(&slope, &offset, e) {
                break ;
            }
            offset = offset.plus(&e.offset());
            slope = slope.plus(&e.slope);
            end -= 1;
        }
        if !eps.less(&slope.abs()) {
            *pq = start..end;
            F::infinity()
        } else {
            let x = offset.negated().over(&slope);
            elements[end] = Event { x: x.copy(), slope };
            end += 1;
            *pq = start..end;
            proof {
                assert(breakpoints(elements@) =~= events.update(end - 1, elements@[end - 1]@));
            }
            x
        }
    }
}

} // verus!
