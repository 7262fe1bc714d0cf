use vstd::prelude::*;

verus! {

/// What a controller reports about one of its connectors.
///
/// `Unknown` is an inconclusive reading: it is never treated as equal to
/// `Connected` or `Disconnected`.
#[derive(Clone, Copy, Debug, PartialEq, Eq, Structural)]
pub enum ConnectorState {
    Connected,
    Disconnected,
    Unknown,
}

impl ConnectorState {
    /// The flag that a scripted reaction hook receives for a stable change
    /// to this state: `true` for `Connected`, `false` for `Disconnected`.
    /// An `Unknown` reading is inconclusive and has none.
    pub fn hook_flag(&self) -> (r: Option<bool>)
        ensures
            r == match *self {
                ConnectorState::Connected => Some(true),
                ConnectorState::Disconnected => Some(false),
                ConnectorState::Unknown => None::<bool>,
            },
    {
        match self {
            ConnectorState::Connected => Some(true),
            ConnectorState::Disconnected => Some(false),
            ConnectorState::Unknown => None,
        }
    }
}

/// The kind of a hardware-change notification from the event source.
#[derive(Clone, Copy, Debug, PartialEq, Eq, Structural)]
pub enum EventKind {
    Add,
    Change,
    Remove,
    Bind,
    Unbind,
    Unknown,
}

/// Whether an event of this kind can mean that connector states changed.
pub open spec fn is_wake_event(kind: EventKind) -> bool {
    kind is Add || kind is Change
}

/// Whether a batch of events calls for a fresh snapshot of every controller:
/// only `Add` and `Change` events do.
pub fn batch_requests_snapshot(events: &Vec<EventKind>) -> (r: bool)
    ensures
        r == exists|i: int| 0 <= i < events@.len() && is_wake_event(#[trigger] events@[i]),
{
    let mut i: usize = 0;
    while i < events.len()
        invariant
            0 <= i <= events@.len(),
            forall|j: int| 0 <= j < i ==> !is_wake_event(#[trigger] events@[j]),
        decreases events@.len() - i,
    {
        match events[i] {
            EventKind::Add | EventKind::Change => {
                return true;
            },
            _ => {},
        }
        i = i + 1;
    }
    false
}

} // verus!
