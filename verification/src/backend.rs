//! Ghost model of the shaping backend's visible state, used to state what
//! repeated delivery of an intent does: nothing beyond the first delivery.

use vstd::prelude::*;
use crate::protocol::MessageModel;
use crate::protocol::Rate;

verus! {

/// The limits the backend holds after the intents it has received.
#[verifier::ext_equal]
pub struct BackendModel {
    pub global_down: Option<Rate>,
    pub global_up: Option<Rate>,
    pub programs: Map<Seq<char>, (Option<Rate>, Option<Rate>, Option<Rate>, Option<Rate>)>,
    pub interface: Option<Seq<char>>,
}

/// How one received intent changes the backend's state: each intent drives
/// its part of the state to a known value.
pub open spec fn apply_msg(s: BackendModel, m: MessageModel) -> BackendModel {
    match m {
        MessageModel::Global(d, u) => BackendModel { global_down: d, global_up: u, ..s },
        MessageModel::Program(name, r) => BackendModel {
            programs: s.programs.insert(name, r),
            ..s
        },
        MessageModel::Interface(name) => BackendModel { interface: Some(name), ..s },
    }
}

/// Receiving the same intent a second time changes nothing: the first
/// delivery already drove the backend to the intended state.
pub proof fn lemma_apply_idempotent(s: BackendModel, m: MessageModel)
    ensures
        apply_msg(apply_msg(s, m), m) == apply_msg(s, m),
{
    match m {
        MessageModel::Program(name, r) => {
            assert(apply_msg(s, m).programs.insert(name, r) =~= s.programs.insert(name, r));
            assert(apply_msg(apply_msg(s, m), m) =~= apply_msg(s, m));
        },
        _ => {
            assert(apply_msg(apply_msg(s, m), m) =~= apply_msg(s, m));
        },
    }
}

/// Sending the same encoded intent twice over the wire leaves the backend
/// exactly where one delivery left it.
pub proof fn lemma_resend_unchanged(s: BackendModel, m: MessageModel)
    requires
        crate::protocol::msg_wf(m),
    ensures
        ({
            let line = crate::protocol::encode_msg(m);
            match crate::protocol::decode_msg(line) {
                Some(got) => apply_msg(apply_msg(s, got), got) == apply_msg(s, got),
                None => false,
            }
        }),
{
    crate::protocol::lemma_encode_decode(m);
    lemma_apply_idempotent(s, m);
}

} // verus!
