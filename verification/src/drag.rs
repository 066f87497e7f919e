//! Dragging firmware archives onto the window: what each frame's file
//! hover and drop reports mean for the pane shown for the archive.

use vstd::prelude::*;

use crate::ids::FirmwareId;

verus! {

/// An archive being dragged over the window: the firmware loaded for it,
/// the pane shown (hidden) for it, and whether the files were dropped.
#[derive(Clone, Copy, Debug, PartialEq, Eq, Structural)]
pub struct FileDrag {
    pub firmware_id: FirmwareId,
    pub tile: u64,
    pub dropped: bool,
}

/// What the window does with one frame's report.
#[derive(Clone, Copy, Debug, PartialEq, Eq, Structural)]
pub enum DragAction {
    /// Files started hovering and one is an archive: load it and insert a
    /// hidden pane for it, then start dragging that pane.
    LoadHovered,
    /// Files started hovering but none is an archive.
    NoArchive,
    /// The files were dropped: the pane stays.
    MarkDropped,
    /// The hover ended: show the pane if the files were dropped, else
    /// remove it and forget the firmware loaded for it.
    Finish(FileDrag),
    /// Nothing changes.
    Nothing,
}

/// The drag after one frame in which files were `hovering` or `dropping`
/// over the window (`archive_hovered`: one of the hovered files is an
/// archive), and what to do about it.
pub open spec fn spec_drag_step(drag: Option<FileDrag>, hovering: bool, dropping: bool, archive_hovered: bool) -> (
    Option<FileDrag>,
    DragAction,
) {
    if hovering && drag is None {
        (None, if archive_hovered { DragAction::LoadHovered } else { DragAction::NoArchive })
    } else if dropping {
        (
            match drag {
                Some(d) => Some(FileDrag { dropped: true, ..d }),
                None => None,
            },
            DragAction::MarkDropped,
        )
    } else if !hovering {
        match drag {
            Some(d) => (None, DragAction::Finish(d)),
            None => (None, DragAction::Nothing),
        }
    } else {
        (drag, DragAction::Nothing)
    }
}

/// One frame of file dragging (see [`spec_drag_step`]).
pub fn drag_step(drag: Option<FileDrag>, hovering: bool, dropping: bool, archive_hovered: bool) -> (r: (
    Option<FileDrag>,
    DragAction,
))
    ensures
        r == spec_drag_step(drag, hovering, dropping, archive_hovered),
{
    if hovering && drag.is_none() {
        (None, if archive_hovered { DragAction::LoadHovered } else { DragAction::NoArchive })
    } else if dropping {
        let d = match drag {
            Some(d) => Some(FileDrag { dropped: true, ..d }),
            None => None,
        };
        (d, DragAction::MarkDropped)
    } else if !hovering {
        match drag {
            Some(d) => (None, DragAction::Finish(d)),
            None => (None, DragAction::Nothing),
        }
    } else {
        (drag, DragAction::Nothing)
    }
}

/// Once a pane is being dragged, more hovering changes nothing; leaving
/// finishes the drag as it stands, and a drop before leaving is what
/// keeps the pane: it is recorded and handed over with the finish.
pub proof fn law_drop_decides_the_pane(d: FileDrag, archive_hovered: bool)
    ensures
        spec_drag_step(Some(d), true, false, archive_hovered) == (Some(d), DragAction::Nothing),
        spec_drag_step(Some(d), false, false, archive_hovered) == (None::<FileDrag>, DragAction::Finish(d)),
        ({
            let (after_drop, _) = spec_drag_step(Some(d), true, true, archive_hovered);
            spec_drag_step(after_drop, false, false, archive_hovered) == (
                None::<FileDrag>,
                DragAction::Finish(FileDrag { dropped: true, ..d }),
            )
        }),
{
}

} // verus!
