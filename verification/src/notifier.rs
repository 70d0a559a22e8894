//! The canonical event stream: platform file-change events are collapsed
//! to the three kinds the reaction loop acts on, everything else is
//! dropped.

use vstd::prelude::*;

verus! {

/// A canonical event for one watched path.
pub struct Event {
    pub path: String,
    pub ty: EventType,
}

/// What the reaction loop can act on.
#[derive(Clone, Copy, Debug, PartialEq, Eq, Structural)]
pub enum EventType {
    Modified,
    Removed,
    Created,
}

/// The categories of platform events, as the watcher reports them.
#[derive(Clone, Copy, Debug, PartialEq, Eq, Structural)]
pub enum RawEvent {
    /// The data of the file changed.
    DataModification,
    /// The file's name changed.
    NameModification,
    /// The file was removed.
    Remove,
    /// The file was created.
    Create,
    /// Any other kind.
    Other,
}

/// The collapse table: data changes are modifications; name changes are
/// creations while the path exists, removals otherwise; removals and
/// creations pass through; everything else is dropped.
pub open spec fn spec_collapse(kind: RawEvent, path_exists: bool) -> Option<EventType> {
    match kind {
        RawEvent::DataModification => Some(EventType::Modified),
        RawEvent::NameModification => Some(
            if path_exists {
                EventType::Created
            } else {
                EventType::Removed
            },
        ),
        RawEvent::Remove => Some(EventType::Removed),
        RawEvent::Create => Some(EventType::Created),
        RawEvent::Other => None,
    }
}

/// Collapses one platform event to the canonical kind, exactly by the
/// table.
pub fn collapse(kind: RawEvent, path_exists: bool) -> (r: Option<EventType>)
    ensures
        r == spec_collapse(kind, path_exists),
{
    match kind {
        RawEvent::DataModification => Some(EventType::Modified),
        RawEvent::NameModification => Some(
            if path_exists {
                EventType::Created
            } else {
                EventType::Removed
            },
        ),
        RawEvent::Remove => Some(EventType::Removed),
        RawEvent::Create => Some(EventType::Created),
        RawEvent::Other => None,
    }
}

} // verus!
