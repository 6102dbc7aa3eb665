use framepack::schedule::Frame;
use framepack::schedule::IDLE_FRAMES;
use framepack::schedule::TAP_FRAMES;
use framepack::schedule::all_frames;

#[test]
fn schedule_orders_idle_prep_tap() {
    let frames = all_frames();
    assert_eq!(frames.len(), IDLE_FRAMES + 1 + TAP_FRAMES);
    assert_eq!(
        frames,
        vec![
            Frame::Idle(0),
            Frame::Idle(1),
            Frame::Idle(2),
            Frame::Idle(3),
            Frame::Idle(4),
            Frame::Prep,
            Frame::Tap(0),
            Frame::Tap(1),
        ]
    );
}
