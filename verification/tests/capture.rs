use launchr::capture::{
    channel_offsets, is_supported, Action, Event, Mapping, State, ABGR8888, ARGB8888, XBGR8888,
    XRGB8888,
};

fn buffer(format: u32, width: u32, height: u32) -> Event {
    Event::Buffer { format, width, height, stride: width * 4 }
}

fn begun(version: u32, outputs: usize) -> State {
    let mut state = State::new(version, outputs);
    for _ in 0..outputs {
        state.begin();
    }
    state
}

#[test]
fn four_formats_are_supported() {
    for format in [ARGB8888, XRGB8888, XBGR8888, ABGR8888] {
        assert!(is_supported(format));
    }
    assert!(!is_supported(0x3633_3152));
    assert_eq!(channel_offsets(XRGB8888), (2, 1, 0));
    assert_eq!(channel_offsets(ARGB8888), (2, 1, 0));
    assert_eq!(channel_offsets(XBGR8888), (0, 1, 2));
    assert_eq!(channel_offsets(ABGR8888), (0, 1, 2));
}

#[test]
fn offers_are_collected_until_they_are_done() {
    let mut state = begun(3, 1);
    assert!(matches!(state.event(0, buffer(99, 1, 1)), Action::Nothing));
    assert!(matches!(state.event(0, Event::BufferDone), Action::Nothing));
    assert!(matches!(state.event(0, buffer(XRGB8888, 10, 20)), Action::Nothing));
    // The first usable offer stays.
    assert!(matches!(state.event(0, buffer(ABGR8888, 30, 40)), Action::Nothing));
    match state.event(0, Event::BufferDone) {
        Action::Copy { size, format, width, height, stride } => {
            assert_eq!((size, format, width, height, stride), (800, XRGB8888, 10, 20, 40));
        }
        _ => panic!("a copy should be asked for"),
    }
}

#[test]
fn a_copy_is_asked_for_once() {
    let mut state = begun(1, 1);
    assert!(matches!(state.event(0, buffer(XRGB8888, 1, 1)), Action::Copy { .. }));
    // Not yet asked for: no buffer could be had.
    assert!(matches!(state.event(0, buffer(XRGB8888, 1, 1)), Action::Copy { .. }));
    assert!(matches!(state.event(0, Event::Requested), Action::Nothing));
    assert!(matches!(state.event(0, buffer(XRGB8888, 1, 1)), Action::Nothing));
    assert!(matches!(state.event(0, Event::BufferDone), Action::Nothing));
}

#[test]
fn the_wait_ends_with_the_last_shot() {
    let mut state = begun(3, 2);
    assert!(state.waits(0, false));
    assert!(!state.waits(200, false));
    assert!(!state.waits(0, true));
    assert!(matches!(state.event(1, Event::Failed), Action::Destroy));
    assert!(state.waits(199, false));
    assert!(matches!(state.event(0, Event::Ready), Action::Destroy));
    assert!(!state.waits(0, false));
    state.event(0, Event::Failed);
    assert_eq!(state.pending, 0);
}

#[test]
fn a_finished_shot_becomes_a_frame() {
    let mut state = begun(3, 2);
    assert!(state.needs_names());
    assert!(!State::new(3, 1).needs_names());
    state.name_output(1, "DP-1".to_owned());
    state.event(1, buffer(ABGR8888, 2, 1));
    state.event(1, Event::BufferDone);
    state.event(1, Event::Requested);
    assert!(state.shot(1).is_none());
    state.event(1, Event::Ready);
    assert_eq!(state.shot(1), Some(8));
    let pixels = [1, 2, 3, 4, 5, 6, 7, 8];
    let frame = state.frame(1, Mapping::new(&pixels).unwrap()).unwrap();
    assert_eq!(frame.connector.as_deref(), Some("DP-1"));
    assert_eq!((frame.width, frame.height, frame.stride), (2, 1, 8));
    assert_eq!(frame.channels, (0, 1, 2));
    assert_eq!(frame.data.bytes(), pixels);
    assert!(state.frame(0, Mapping::new(&pixels).unwrap()).is_none());
}
