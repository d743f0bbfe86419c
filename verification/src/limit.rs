//! The per-row limit state machine: a row (the global one, or one program's)
//! holds four editable rate fields and an active flag. Toggling on applies
//! the fields, toggling off explicitly drives the backend to "no limit", and
//! editing any field while active auto-disables the row without a message,
//! so a stale rate can never silently remain applied.

use vstd::prelude::*;
use crate::protocol::Message;
use crate::protocol::MessageModel;
use crate::protocol::Rate;

verus! {

/// Which row the limits belong to: the global row or one program's row.
#[derive(PartialEq, Eq, Debug)]
pub enum RowTarget {
    Global,
    Program(String),
}

pub enum RowTargetModel {
    Global,
    Program(Seq<char>),
}

impl View for RowTarget {
    type V = RowTargetModel;

    open spec fn view(&self) -> RowTargetModel {
        match self {
            RowTarget::Global => RowTargetModel::Global,
            RowTarget::Program(name) => RowTargetModel::Program(name@),
        }
    }
}

/// The state of one limit row.
#[derive(Clone, Copy, PartialEq, Eq, Debug)]
pub struct RowState {
    pub active: bool,
    pub down: Option<Rate>,
    pub up: Option<Rate>,
    pub down_min: Option<Rate>,
    pub up_min: Option<Rate>,
}

/// One user action on a row.
#[derive(Clone, Copy, PartialEq, Eq, Debug)]
pub enum RowEvent {
    ToggleOn,
    ToggleOff,
    SetDown(Option<Rate>),
    SetUp(Option<Rate>),
    SetDownMin(Option<Rate>),
    SetUpMin(Option<Rate>),
}

/// The intent a row emits when its limit is applied with the given fields;
/// the global row has no floor rates.
pub open spec fn limit_msg_spec(
    t: RowTargetModel,
    down: Option<Rate>,
    up: Option<Rate>,
    down_min: Option<Rate>,
    up_min: Option<Rate>,
) -> MessageModel {
    match t {
        RowTargetModel::Global => MessageModel::Global(down, up),
        RowTargetModel::Program(name) => MessageModel::Program(name, (down, up, down_min, up_min)),
    }
}

/// What one event does to a row. Toggling on captures the fields as they
/// stand; toggling off always sends the explicit all-unset intent rather
/// than staying silent; a field edit while active disables the row and
/// sends nothing until it is re-toggled.
pub open spec fn step_spec(s: RowState, e: RowEvent, t: RowTargetModel) -> (RowState, Option<
    MessageModel,
>) {
    match e {
        RowEvent::ToggleOn => (
            RowState { active: true, ..s },
            Some(limit_msg_spec(t, s.down, s.up, s.down_min, s.up_min)),
        ),
        RowEvent::ToggleOff => (
            RowState { active: false, ..s },
            Some(limit_msg_spec(t, None, None, None, None)),
        ),
        RowEvent::SetDown(v) => (RowState { active: false, down: v, ..s }, None),
        RowEvent::SetUp(v) => (RowState { active: false, up: v, ..s }, None),
        RowEvent::SetDownMin(v) => (RowState { active: false, down_min: v, ..s }, None),
        RowEvent::SetUpMin(v) => (RowState { active: false, up_min: v, ..s }, None),
    }
}

fn limit_msg(
    target: &RowTarget,
    down: Option<Rate>,
    up: Option<Rate>,
    down_min: Option<Rate>,
    up_min: Option<Rate>,
) -> (m: Message)
    ensures
        m@ == limit_msg_spec(target@, down, up, down_min, up_min),
{
    match target {
        RowTarget::Global => Message::Global(down, up),
        RowTarget::Program(name) => {
            let n = name.clone();
            proof {
                assert(n@ == name@);
            }
            Message::Program(n, (down, up, down_min, up_min))
        },
    }
}

impl RowState {
    /// A fresh row: inactive, no rate set.
    pub fn new() -> (s: RowState)
        ensures
            s == (RowState { active: false, down: None, up: None, down_min: None, up_min: None }),
    {
        RowState { active: false, down: None, up: None, down_min: None, up_min: None }
    }

    /// Applies one user action and returns the intent to send, if any.
    pub fn step(&mut self, event: RowEvent, target: &RowTarget) -> (msg: Option<Message>)
        ensures
            *final(self) == step_spec(*old(self), event, target@).0,
            match msg {
                Some(m) => step_spec(*old(self), event, target@).1 == Some(m@),
                None => step_spec(*old(self), event, target@).1 is None,
            },
    {
        match event {
            RowEvent::ToggleOn => {
                self.active = true;
                Some(limit_msg(target, self.down, self.up, self.down_min, self.up_min))
            },
            RowEvent::ToggleOff => {
                self.active = false;
                Some(limit_msg(target, None, None, None, None))
            },
            RowEvent::SetDown(v) => {
                self.active = false;
                self.down = v;
                None
            },
            RowEvent::SetUp(v) => {
                self.active = false;
                self.up = v;
                None
            },
            RowEvent::SetDownMin(v) => {
                self.active = false;
                self.down_min = v;
                None
            },
            RowEvent::SetUpMin(v) => {
                self.active = false;
                self.up_min = v;
                None
            },
        }
    }
}

} // verus!
