use rdraw::profiler::{
    begin_frame, close_block, end_frame, last_counter, last_frame, open_block, reduce_profile_events, root_block,
    sleep_millis, Frame, ProfileError, ProfileEvent, Profiler, FRAME_CAPACITY, FrameBegan,
};

#[test]
fn events_build_a_frame() {
    let mut p = Profiler::new(1000);
    let mut events: Vec<ProfileEvent> = Vec::new();
    begin_frame(&mut events, 100);
    open_block(&mut events, 110, "main.rs", 7, "update".to_string());
    open_block(&mut events, 120, "main.rs", 9, "physics".to_string());
    close_block(&mut events, 130);
    close_block(&mut events, 140);
    assert_eq!(events.len(), 5);
    assert_eq!(reduce_profile_events(&mut p, &mut events), Ok(()));
    assert!(events.is_empty());
    assert_eq!(last_counter(&p), Some(100));

    let frame = p.current_frame().unwrap();
    assert_eq!(frame.begin_counter(), 100);
    let root = frame.root_block();
    let update = root.children().next().unwrap();
    let block = update.node().data();
    assert_eq!(block.name(), "update");
    assert_eq!(block.file(), "main.rs");
    assert_eq!(block.line(), 7);
    assert_eq!((block.begin, block.end), (110, 140));
    let mut dfs = frame.dfs_block_iter();
    let mut names = Vec::new();
    while let Some(n) = dfs.next() {
        names.push(n.node().data().name().to_string());
    }
    assert_eq!(names, vec!["", "update", "physics"]);

    end_frame(&mut events, 150);
    assert_eq!(reduce_profile_events(&mut p, &mut events), Ok(()));
    assert_eq!(last_counter(&p), None);
    let last = last_frame(&p).unwrap();
    assert_eq!(last.begin_counter(), 100);
    assert_eq!(last.root_block().node().data().end, 150);
}

#[test]
fn misordered_events_are_refused() {
    let mut p = Profiler::new(1000);
    let mut events = Vec::new();
    end_frame(&mut events, 1);
    assert_eq!(reduce_profile_events(&mut p, &mut events), Err(ProfileError::NoFrame));
    begin_frame(&mut events, 2);
    begin_frame(&mut events, 3);
    assert_eq!(reduce_profile_events(&mut p, &mut events), Err(ProfileError::FrameAlreadyBegun));
    close_block(&mut events, 4);
    assert_eq!(reduce_profile_events(&mut p, &mut events), Err(ProfileError::NoOpenBlock));
    open_block(&mut events, 5, "a.rs", 1, "x".to_string());
    end_frame(&mut events, 6);
    assert_eq!(reduce_profile_events(&mut p, &mut events), Err(ProfileError::BlocksOpen));
}

#[test]
fn block_events_without_frame_are_ignored() {
    let mut p = Profiler::new(1000);
    let mut events = Vec::new();
    open_block(&mut events, 5, "a.rs", 1, "x".to_string());
    close_block(&mut events, 6);
    assert_eq!(reduce_profile_events(&mut p, &mut events), Ok(()));
    assert!(p.current_frame().is_none());
    assert!(last_frame(&p).is_none());
}

#[test]
fn frames_wrap_around_the_ring() {
    let mut p = Profiler::new(10);
    for i in 0..(FRAME_CAPACITY as u64 + 3) {
        p.begin_frame(i * 10);
        p.end_frame(i * 10 + 5);
    }
    let last = p.last_frame().unwrap();
    assert_eq!(last.begin_counter(), (FRAME_CAPACITY as u64 + 2) * 10);
    p.on_frame_began(FrameBegan { counter: 7 });
    assert_eq!(p.current_frame().unwrap().begin_counter(), 7);
    assert_eq!(p.last_frame().unwrap().begin_counter(), (FRAME_CAPACITY as u64 + 2) * 10);
}

#[test]
fn root_block_spans_the_frame() {
    let b = root_block(60, 42);
    assert_eq!((b.frequency, b.begin, b.end, b.line), (60, 42, 42, 0));
    assert_eq!(b.name(), "");
    let f = Frame::new();
    assert!(!f.has_open_block());
}

#[test]
fn sleep_fills_the_frame() {
    assert_eq!(sleep_millis(1000, 60000, 500, 100), 10);
    assert_eq!(sleep_millis(1000, 1000, 2000, 100), 0);
    assert_eq!(sleep_millis(1000, 1000, 1100, 100), 0);
}
