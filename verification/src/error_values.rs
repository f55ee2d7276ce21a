//! Semantic queries over checked MIR values represented by the builtin
//! `error` type.
//!
//! Native code generation currently inlines zero-argument error helpers. The
//! helper contract is derived here from checked MIR so buildability and
//! projection never maintain a second AST-level model of the function body.

use crate::model::{Body, Operand, Place, Rvalue, Statement, Terminator};
use vstd::prelude::*;

verus! {

/// The code and message a static error helper produces.
#[derive(Debug, Clone, PartialEq, Eq)]
pub struct StaticErrorPayload {
    pub code: Vec<u8>,
    pub message: Vec<u8>,
}

/// The code and message bytes of `body` when it has the static error-helper
/// form: one block that returns after one statement, which assigns an error
/// built from two static strings to the return local.
pub open spec fn static_error_form(body: Body) -> Option<(Seq<u8>, Seq<u8>)> {
    if body.blocks@.len() == 1 && body.blocks@[0].terminator is Return
        && body.blocks@[0].statements@.len() == 1 {
        match body.blocks@[0].statements@[0] {
            Statement::Assign { destination, value, .. } => {
                if destination == (Place { local: body.return_local, projection: None }) {
                    match value {
                        Rvalue::Error { code, message } => match (code, message) {
                            (
                                Operand::StaticStr { bytes: code, .. },
                                Operand::StaticStr { bytes: message, .. },
                            ) => Some((code@, message@)),
                            _ => None,
                        },
                        _ => None,
                    }
                } else {
                    None
                }
            },
            _ => None,
        }
    } else {
        None
    }
}

/// A copy of `bytes`.
fn copy_bytes(bytes: &Vec<u8>) -> (copy: Vec<u8>)
    ensures
        copy@ == bytes@,
{
    let copy = bytes.clone();
    proof {
        assert(copy@ =~= bytes@);
    }
    copy
}

/// Returns the payload of the deliberately narrow native error-helper form.
///
/// A static helper has one checked block, assigns two static string operands
/// directly to its return place, and returns. Keeping the query strict makes
/// every additional supported error-producing form an explicit MIR/backend
/// capability instead of an accidental source-pattern exception.
pub fn static_error_payload(body: &Body) -> (payload: Option<StaticErrorPayload>)
    ensures
        match payload {
            Some(payload) => static_error_form(*body) == Some((payload.code@, payload.message@)),
            None => static_error_form(*body) is None,
        },
{
    if body.blocks.len() != 1 {
        return None;
    }
    let block = &body.blocks[0];
    match block.terminator {
        Terminator::Return => {},
        _ => return None,
    }
    if block.statements.len() != 1 {
        return None;
    }
    match &block.statements[0] {
        Statement::Assign { destination, value: Rvalue::Error { code, message }, .. } => {
            if *destination != Place::local(body.return_local) {
                return None;
            }
            match (code, message) {
                (
                    Operand::StaticStr { bytes: code_bytes, .. },
                    Operand::StaticStr { bytes: message_bytes, .. },
                ) => Some(
                    StaticErrorPayload {
                        code: copy_bytes(code_bytes),
                        message: copy_bytes(message_bytes),
                    },
                ),
                _ => None,
            }
        },
        _ => None,
    }
}

} // verus!
