//! What a dispatch does with the outcome of the entry function, in both
//! modes.
use crate::capability::{params_spec, Capability};
use crate::codec::{enc, encodable, encode, Value};
use vstd::prelude::*;

verus! {

/// The code reported for an exception raised by the entry function.
pub const ERROR_CODE: i32 = 500;

/// What the correlation-mode dispatcher does once the entry function has
/// returned.
#[derive(Debug, PartialEq, Eq)]
pub enum DispatchAction {
    /// The call succeeded: nothing is reported on its behalf.
    Done,
    /// The call raised: report the message through `return_error`, tagged
    /// with the request's token.
    ReportError { code: i32, message: Vec<u8>, ident: i32 },
}

/// The token an action is tagged with, if it reports anything.
pub open spec fn action_token(a: DispatchAction) -> Option<i32> {
    match a {
        DispatchAction::Done => None,
        DispatchAction::ReportError { ident, .. } => Some(ident),
    }
}

/// Correlation mode: success reports nothing (no output is made up for a
/// script that never called `return_result`); an exception's message is
/// reported with the fixed error code and the same token.
pub fn correlation_outcome(ident: i32, call: Result<(), Vec<u8>>) -> (r: DispatchAction)
    ensures
        match call {
            Ok(()) => r is Done,
            Err(m) => r == (DispatchAction::ReportError { code: ERROR_CODE, message: m, ident }),
        },
        action_token(r) == (if call is Err {
            Some(ident)
        } else {
            None::<i32>
        }),
{
    match call {
        Ok(()) => DispatchAction::Done,
        Err(message) => DispatchAction::ReportError { code: ERROR_CODE, message, ident },
    }
}

/// The arguments of the `return_error` call that reports a message of
/// `message_len` bytes stored at `message_ptr`; `None` where the length does
/// not fit in a 32-bit argument.
pub fn return_error_args(message_ptr: i32, message_len: usize, ident: i32) -> (r: Option<Vec<i32>>)
    ensures
        r is Some <==> message_len <= i32::MAX,
        r matches Some(v) ==> v@ == seq![ERROR_CODE, message_ptr, message_len as i32, ident],
        r matches Some(v) ==> v@.len() == params_spec(Capability::ReturnError).len(),
{
    if message_len > 0x7fff_ffffusize {
        return None;
    }
    let mut v: Vec<i32> = Vec::new();
    v.push(ERROR_CODE);
    v.push(message_ptr);
    v.push(message_len as i32);
    v.push(ident);
    assert(v@ =~= seq![ERROR_CODE, message_ptr, message_len as i32, ident]);
    Some(v)
}

/// Why a single-shot run produced no output.
#[derive(Debug, PartialEq, Eq)]
pub enum RunError {
    /// The entry function raised: code and message.
    Script { code: i32, message: Vec<u8> },
    /// The returned value has a length that the codec cannot represent.
    Unencodable,
}

/// Single-shot mode: the returned value, encoded; or the exception's
/// message with the fixed error code.
pub fn single_shot_outcome(call: Result<Value, Vec<u8>>) -> (r: Result<Vec<u8>, RunError>)
    ensures
        match call {
            Ok(v) => if encodable(v.deep()) {
                r matches Ok(b) && b@ == enc(v.deep())
            } else {
                r matches Err(RunError::Unencodable)
            },
            Err(m) => r == Err::<Vec<u8>, RunError>(RunError::Script { code: ERROR_CODE, message: m }),
        },
{
    match call {
        Ok(v) => match encode(&v) {
            Some(b) => Ok(b),
            None => Err(RunError::Unencodable),
        },
        Err(message) => Err(RunError::Script { code: ERROR_CODE, message }),
    }
}

/// Two correlation-mode dispatches with distinct tokens stay apart: what
/// each reports is tagged with its own token, never with the other's, and
/// the `return_error` arguments built for one carry its token alone.
pub proof fn lemma_dispatch_isolation(
    a: i32,
    b: i32,
    ra: DispatchAction,
    rb: DispatchAction,
    call_a_failed: bool,
    call_b_failed: bool,
    args_a: Seq<i32>,
)
    requires
        a != b,
        action_token(ra) == (if call_a_failed {
            Some(a)
        } else {
            None::<i32>
        }),
        action_token(rb) == (if call_b_failed {
            Some(b)
        } else {
            None::<i32>
        }),
        exists|p: i32, n: i32| args_a == seq![ERROR_CODE, p, n, a],
    ensures
        action_token(ra) != Some(b),
        action_token(rb) != Some(a),
        args_a.last() == a,
        args_a.last() != b,
{
}

} // verus!
