use drm_grabber::scanout::{search_step, SearchAction, SearchEvent, SearchPhase};

fn object(in_use: bool, framebuffer: Option<u32>) -> SearchEvent {
    SearchEvent::Object { in_use, framebuffer }
}

#[test]
fn crtc_with_mode_ends_search() {
    assert_eq!(
        search_step(SearchPhase::Crtcs, object(true, Some(42))),
        SearchAction::Finish(Some(42))
    );
    assert_eq!(search_step(SearchPhase::Crtcs, object(true, None)), SearchAction::Finish(None));
}

#[test]
fn idle_objects_are_skipped() {
    assert_eq!(
        search_step(SearchPhase::Crtcs, object(false, Some(42))),
        SearchAction::Examine(SearchPhase::Crtcs)
    );
    assert_eq!(
        search_step(SearchPhase::Planes, object(false, None)),
        SearchAction::Examine(SearchPhase::Planes)
    );
}

#[test]
fn crtcs_then_planes_then_nothing() {
    assert_eq!(
        search_step(SearchPhase::Crtcs, SearchEvent::Exhausted),
        SearchAction::Examine(SearchPhase::Planes)
    );
    assert_eq!(search_step(SearchPhase::Planes, SearchEvent::Exhausted), SearchAction::Finish(None));
}

#[test]
fn failed_query_gives_up() {
    assert_eq!(search_step(SearchPhase::Crtcs, SearchEvent::QueryFailed), SearchAction::Finish(None));
    assert_eq!(search_step(SearchPhase::Planes, SearchEvent::QueryFailed), SearchAction::Finish(None));
}

/// Runs the search over a device whose queries all succeed.
fn run(crtcs: &[(bool, Option<u32>)], planes: &[(bool, Option<u32>)]) -> Option<u32> {
    let mut phase = SearchPhase::Crtcs;
    let mut events: Vec<SearchEvent> = crtcs.iter().map(|&(u, f)| object(u, f)).collect();
    events.push(SearchEvent::Exhausted);
    events.extend(planes.iter().map(|&(u, f)| object(u, f)));
    events.push(SearchEvent::Exhausted);
    for e in events {
        match search_step(phase, e) {
            SearchAction::Finish(fb) => return fb,
            SearchAction::Examine(p) => phase = p,
        }
    }
    panic!("search did not finish")
}

#[test]
fn search_finds_first_in_use() {
    assert_eq!(run(&[(false, Some(1)), (true, Some(2)), (true, Some(3))], &[(true, Some(9))]), Some(2));
    assert_eq!(run(&[(false, Some(1))], &[(false, Some(8)), (true, Some(9))]), Some(9));
    assert_eq!(run(&[], &[]), None);
    assert_eq!(run(&[(false, None)], &[(false, Some(3))]), None);
}
