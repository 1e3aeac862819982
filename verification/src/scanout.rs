//! The search for the framebuffer being scanned out: CRTCs first, then planes.
//!
//! The caller queries the device and reports each outcome as an event; this
//! module decides what to do next.
use vstd::prelude::*;

verus! {

/// Which kind of display object is being examined.
#[derive(Clone, Copy, Debug, PartialEq, Eq, Structural)]
pub enum SearchPhase {
    Crtcs,
    Planes,
}

/// What the last query of the device reported.
#[derive(Clone, Copy, Debug, PartialEq, Eq, Structural)]
pub enum SearchEvent {
    /// The next object's state: whether it is in use (a CRTC with a mode set,
    /// a plane attached to a CRTC) and the framebuffer it shows, if any.
    Object { in_use: bool, framebuffer: Option<u32> },
    /// Listing the objects or reading one of them failed.
    QueryFailed,
    /// Every object of the current phase has been examined.
    Exhausted,
}

/// What the caller does next.
#[derive(Clone, Copy, Debug, PartialEq, Eq, Structural)]
pub enum SearchAction {
    /// Query the next object of this phase (listing its objects first when
    /// the phase has just begun).
    Examine(SearchPhase),
    /// Stop; the framebuffer found, if any.
    Finish(Option<u32>),
}

/// The decision the search makes for each event.
pub open spec fn spec_search_step(phase: SearchPhase, event: SearchEvent) -> SearchAction {
    match event {
        SearchEvent::Object { in_use, framebuffer } => if in_use {
            SearchAction::Finish(framebuffer)
        } else {
            SearchAction::Examine(phase)
        },
        SearchEvent::QueryFailed => SearchAction::Finish(None),
        SearchEvent::Exhausted => match phase {
            SearchPhase::Crtcs => SearchAction::Examine(SearchPhase::Planes),
            SearchPhase::Planes => SearchAction::Finish(None),
        },
    }
}

/// Decides what follows an event of the search: the first object in use
/// ends it with its framebuffer, a failed query ends it with none, and
/// running out of CRTCs moves on to the planes.
pub fn search_step(phase: SearchPhase, event: SearchEvent) -> (a: SearchAction)
    ensures
        a == spec_search_step(phase, event),
{
    match event {
        SearchEvent::Object { in_use, framebuffer } => {
            if in_use {
                SearchAction::Finish(framebuffer)
            } else {
                SearchAction::Examine(phase)
            }
        },
        SearchEvent::QueryFailed => SearchAction::Finish(None),
        SearchEvent::Exhausted => match phase {
            SearchPhase::Crtcs => SearchAction::Examine(SearchPhase::Planes),
            SearchPhase::Planes => SearchAction::Finish(None),
        },
    }
}

/// The outcome of feeding `events` to the search from `phase`: the result it
/// finishes with, or `None` while it still wants to examine more.
pub open spec fn run_search(phase: SearchPhase, events: Seq<SearchEvent>) -> Option<Option<u32>>
    decreases events.len(),
{
    if events.len() == 0 {
        None
    } else {
        match spec_search_step(phase, events[0]) {
            SearchAction::Finish(fb) => Some(fb),
            SearchAction::Examine(next) => run_search(next, events.drop_first()),
        }
    }
}

/// The events reporting a list of objects, each given as `(in_use, framebuffer)`.
pub open spec fn object_events(objects: Seq<(bool, Option<u32>)>) -> Seq<SearchEvent> {
    objects.map_values(
        |o: (bool, Option<u32>)| SearchEvent::Object { in_use: o.0, framebuffer: o.1 },
    )
}

/// The framebuffer of the first object in use, if one is.
pub open spec fn first_in_use(objects: Seq<(bool, Option<u32>)>) -> Option<Option<u32>>
    decreases objects.len(),
{
    if objects.len() == 0 {
        None
    } else if objects[0].0 {
        Some(objects[0].1)
    } else {
        first_in_use(objects.drop_first())
    }
}

proof fn lemma_run_through_objects(
    phase: SearchPhase,
    objects: Seq<(bool, Option<u32>)>,
    rest: Seq<SearchEvent>,
)
    ensures
        run_search(phase, object_events(objects) + rest) == match first_in_use(objects) {
            Some(fb) => Some(fb),
            None => run_search(phase, rest),
        },
    decreases objects.len(),
{
    if objects.len() > 0 {
        let events = object_events(objects) + rest;
        assert(events[0] == SearchEvent::Object { in_use: objects[0].0, framebuffer: objects[0].1 });
        assert(events.drop_first() =~= object_events(objects.drop_first()) + rest);
        lemma_run_through_objects(phase, objects.drop_first(), rest);
    } else {
        assert(object_events(objects) + rest =~= rest);
    }
}

/// When every query succeeds, the search finishes with the framebuffer of
/// the first CRTC in use, or else of the first plane in use, or else none.
pub proof fn lemma_search_finds_first_in_use(
    crtcs: Seq<(bool, Option<u32>)>,
    planes: Seq<(bool, Option<u32>)>,
)
    ensures
        run_search(
            SearchPhase::Crtcs,
            object_events(crtcs) + seq![SearchEvent::Exhausted] + object_events(planes) + seq![
                SearchEvent::Exhausted,
            ],
        ) == Some(
            match first_in_use(crtcs) {
                Some(fb) => fb,
                None => match first_in_use(planes) {
                    Some(fb) => fb,
                    None => None,
                },
            },
        ),
{
    let tail = object_events(planes) + seq![SearchEvent::Exhausted];
    let after_crtcs = seq![SearchEvent::Exhausted] + tail;
    assert(object_events(crtcs) + seq![SearchEvent::Exhausted] + object_events(planes) + seq![
        SearchEvent::Exhausted,
    ] =~= object_events(crtcs) + after_crtcs);
    lemma_run_through_objects(SearchPhase::Crtcs, crtcs, after_crtcs);
    assert(after_crtcs.drop_first() =~= tail);
    lemma_run_through_objects(SearchPhase::Planes, planes, seq![SearchEvent::Exhausted]);
    assert(seq![SearchEvent::Exhausted].drop_first() =~= Seq::<SearchEvent>::empty());
}

} // verus!
