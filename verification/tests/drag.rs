use rcard_host::drag::{drag_step, DragAction, FileDrag};
use rcard_host::ids::FirmwareId;

fn pane() -> FileDrag {
    FileDrag { firmware_id: FirmwareId(4), tile: 9, dropped: false }
}

#[test]
fn hovering_an_archive_starts_a_load() {
    assert_eq!(drag_step(None, true, false, true), (None, DragAction::LoadHovered));
    assert_eq!(drag_step(None, true, false, false), (None, DragAction::NoArchive));
    assert_eq!(drag_step(None, false, false, false), (None, DragAction::Nothing));
}

#[test]
fn a_drop_keeps_the_pane() {
    let d = pane();
    assert_eq!(drag_step(Some(d), true, false, true), (Some(d), DragAction::Nothing));
    let (after, action) = drag_step(Some(d), true, true, true);
    assert_eq!(action, DragAction::MarkDropped);
    let kept = FileDrag { dropped: true, ..d };
    assert_eq!(after, Some(kept));
    assert_eq!(drag_step(after, false, false, false), (None, DragAction::Finish(kept)));
}

#[test]
fn leaving_without_a_drop_discards_the_pane() {
    let d = pane();
    assert_eq!(drag_step(Some(d), false, false, false), (None, DragAction::Finish(d)));
}
