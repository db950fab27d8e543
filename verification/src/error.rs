//! The error taxonomy of the node, and its wire form.
//!
//! Every error carries a stable numeric code; a protocol error is answered
//! on the wire by an `error`-typed body built in [`MaelstromError::to_json_error`].

use crate::json::{JsonVal, JsonValue};
use crate::message::MsgId;
use vstd::prelude::*;

verus! {

pub type ErrCode = u16;

#[derive(Debug, PartialEq, Eq)]
pub enum MaelstromError {
    EndOfInput,
    JoinError(String),
    /// The request was valid JSON but did not fit the expected schema.
    MalformedRequest(String),
    MissingMessageId,
    MissingWorkloadHandlers,
    /// The node received another initialization message.
    NodeAlreadyInitialized,
    /// The node got a valid message before the initialization message.
    NodeNotInitialized,
    PoisonError(String),
    RWLockError(String),
    /// The text of a message could not be read or written as JSON.
    SerdeJsonError(String),
    StdinReadError(String),
    StdinUtf8ReadError(String),
    NoHandlerForRequestType,
    UnknownRequestType,
    /// Some kind of general, indefinite error occurred.
    Crash,
}

/// The stable numeric code of each error, part of the wire contract.
pub open spec fn code_spec(e: MaelstromError) -> ErrCode {
    match e {
        MaelstromError::EndOfInput => 1000,
        MaelstromError::JoinError(_) => 1013,
        MaelstromError::MalformedRequest(_) => 1001,
        MaelstromError::MissingWorkloadHandlers => 1002,
        MaelstromError::NodeAlreadyInitialized => 1003,
        MaelstromError::NodeNotInitialized => 1004,
        MaelstromError::SerdeJsonError(_) => 1005,
        MaelstromError::StdinReadError(_) => 1006,
        MaelstromError::StdinUtf8ReadError(_) => 1007,
        MaelstromError::NoHandlerForRequestType => 1008,
        MaelstromError::UnknownRequestType => 1009,
        MaelstromError::Crash => 13,
        MaelstromError::MissingMessageId => 1010,
        MaelstromError::RWLockError(_) => 1011,
        MaelstromError::PoisonError(_) => 1012,
    }
}

impl MaelstromError {
    pub fn code(&self) -> (c: ErrCode)
        ensures
            c == code_spec(*self),
    {
        match self {
            MaelstromError::EndOfInput => 1000,
            MaelstromError::JoinError(_) => 1013,
            MaelstromError::MalformedRequest(_) => 1001,
            MaelstromError::MissingWorkloadHandlers => 1002,
            MaelstromError::NodeAlreadyInitialized => 1003,
            MaelstromError::NodeNotInitialized => 1004,
            MaelstromError::SerdeJsonError(_) => 1005,
            MaelstromError::StdinReadError(_) => 1006,
            MaelstromError::StdinUtf8ReadError(_) => 1007,
            MaelstromError::NoHandlerForRequestType => 1008,
            MaelstromError::UnknownRequestType => 1009,
            MaelstromError::Crash => 13,
            MaelstromError::MissingMessageId => 1010,
            MaelstromError::RWLockError(_) => 1011,
            MaelstromError::PoisonError(_) => 1012,
        }
    }

    /// A short description of the error; fixed text per variant.
    pub fn message(&self) -> (m: String)
        ensures
            m@ == message_spec(*self),
    {
        match self {
            MaelstromError::EndOfInput => String::from_str("End of input"),
            MaelstromError::JoinError(_) => String::from_str("JoinError"),
            MaelstromError::MalformedRequest(_) => String::from_str("Invalid client request"),
            MaelstromError::MissingWorkloadHandlers => String::from_str(
                "No workload handlers registered",
            ),
            MaelstromError::NodeAlreadyInitialized => String::from_str(
                "Node is already initialized.",
            ),
            MaelstromError::NodeNotInitialized => String::from_str(
                "Node got a valid message, but it was not the 'init' message.",
            ),
            MaelstromError::SerdeJsonError(_) => String::from_str("Serde Json Error"),
            MaelstromError::StdinReadError(_) => String::from_str("Error reading from STDIN"),
            MaelstromError::StdinUtf8ReadError(_) => String::from_str(
                "Error reading Utf8 from STDIN",
            ),
            MaelstromError::NoHandlerForRequestType => String::from_str(
                "No handler found for request type",
            ),
            MaelstromError::UnknownRequestType => String::from_str(
                "Unknown request type received",
            ),
            MaelstromError::Crash => String::from_str("Unexpected error occurred"),
            MaelstromError::MissingMessageId => String::from_str(
                "No message ID found in request body",
            ),
            MaelstromError::RWLockError(_) => String::from_str("Context RW lock error"),
            MaelstromError::PoisonError(_) => String::from_str("Context poison error"),
        }
    }
}

/// The fixed description text of each error.
pub open spec fn message_spec(e: MaelstromError) -> Seq<char> {
    match e {
        MaelstromError::EndOfInput => "End of input"@,
        MaelstromError::JoinError(_) => "JoinError"@,
        MaelstromError::MalformedRequest(_) => "Invalid client request"@,
        MaelstromError::MissingWorkloadHandlers => "No workload handlers registered"@,
        MaelstromError::NodeAlreadyInitialized => "Node is already initialized."@,
        MaelstromError::NodeNotInitialized
            => "Node got a valid message, but it was not the 'init' message."@,
        MaelstromError::SerdeJsonError(_) => "Serde Json Error"@,
        MaelstromError::StdinReadError(_) => "Error reading from STDIN"@,
        MaelstromError::StdinUtf8ReadError(_) => "Error reading Utf8 from STDIN"@,
        MaelstromError::NoHandlerForRequestType => "No handler found for request type"@,
        MaelstromError::UnknownRequestType => "Unknown request type received"@,
        MaelstromError::Crash => "Unexpected error occurred"@,
        MaelstromError::MissingMessageId => "No message ID found in request body"@,
        MaelstromError::RWLockError(_) => "Context RW lock error"@,
        MaelstromError::PoisonError(_) => "Context poison error"@,
    }
}

/// The body of an `error` reply as it goes on the wire.
#[derive(Debug, PartialEq, Eq)]
pub struct MaelstromErrorBody {
    pub e_type: String,
    pub in_reply_to: MsgId,
    pub code: ErrCode,
    pub text: String,
}

impl MaelstromErrorBody {
    pub fn new(e_type: String, in_reply_to: MsgId, code: ErrCode, text: String) -> (r:
        MaelstromErrorBody)
        ensures
            r.e_type == e_type,
            r.in_reply_to == in_reply_to,
            r.code == code,
            r.text == text,
    {
        MaelstromErrorBody { e_type, in_reply_to, code, text }
    }
}

/// The wire form of an error reply to the message `msg_id`.
pub open spec fn error_reply_spec(e: MaelstromError, msg_id: MsgId) -> JsonVal {
    JsonVal::Obj(
        seq![
            ("type"@, JsonVal::Str("error"@)),
            ("in_reply_to"@, JsonVal::Num(msg_id)),
            ("code"@, JsonVal::Num(code_spec(e) as u64)),
            ("text"@, JsonVal::Str(message_spec(e))),
        ],
    )
}

impl MaelstromError {
    /// The `error`-typed body answering the message `msg_id`.
    pub fn to_json_error(&self, msg_id: MsgId) -> (r: JsonValue)
        ensures
            r@ == error_reply_spec(*self, msg_id),
    {
        let body = MaelstromErrorBody::new(
            String::from_str("error"),
            msg_id,
            self.code(),
            self.message(),
        );
        let mut fields: Vec<(String, JsonValue)> = Vec::new();
        fields.push((String::from_str("type"), JsonValue::Str(body.e_type)));
        fields.push((String::from_str("in_reply_to"), JsonValue::Num(body.in_reply_to)));
        fields.push((String::from_str("code"), JsonValue::Num(body.code as u64)));
        fields.push((String::from_str("text"), JsonValue::Str(body.text)));
        let r = JsonValue::Obj(fields);
        proof {
            let fs = r->Obj_0@;
            crate::json::lemma_views_of_fields_index(fs, 0);
            crate::json::lemma_views_of_fields_index(fs, 1);
            crate::json::lemma_views_of_fields_index(fs, 2);
            crate::json::lemma_views_of_fields_index(fs, 3);
            let vs = crate::json::views_of_fields(fs);
            assert(vs[0] == ("type"@, JsonVal::Str("error"@)));
            assert(vs[1] == ("in_reply_to"@, JsonVal::Num(msg_id)));
            assert(vs[2] == ("code"@, JsonVal::Num(code_spec(*self) as u64)));
            assert(vs[3] == ("text"@, JsonVal::Str(message_spec(*self))));
            assert(vs =~= error_reply_spec(*self, msg_id)->Obj_0);
            assert(r@ == error_reply_spec(*self, msg_id));
        }
        r
    }
}

/// An error reply is always a well-formed document.
pub proof fn lemma_error_reply_wf(e: MaelstromError, msg_id: MsgId)
    ensures
        crate::json::wf_val(error_reply_spec(e, msg_id)),
{
    reveal_strlit("type");
    reveal_strlit("error");
    reveal_strlit("in_reply_to");
    reveal_strlit("code");
    reveal_strlit("text");
    reveal_strlit("End of input");
    reveal_strlit("JoinError");
    reveal_strlit("Invalid client request");
    reveal_strlit("No workload handlers registered");
    reveal_strlit("Node is already initialized.");
    reveal_strlit("Node got a valid message, but it was not the 'init' message.");
    reveal_strlit("Serde Json Error");
    reveal_strlit("Error reading from STDIN");
    reveal_strlit("Error reading Utf8 from STDIN");
    reveal_strlit("No handler found for request type");
    reveal_strlit("Unknown request type received");
    reveal_strlit("Unexpected error occurred");
    reveal_strlit("No message ID found in request body");
    reveal_strlit("Context RW lock error");
    reveal_strlit("Context poison error");
    assert(crate::json::wf_string("type"@));
    assert(crate::json::wf_string("error"@));
    assert(crate::json::wf_string("in_reply_to"@));
    assert(crate::json::wf_string("code"@));
    assert(crate::json::wf_string("text"@));
    assert(crate::json::wf_string(message_spec(e)));
    let fs = error_reply_spec(e, msg_id)->Obj_0;
    assert forall|i: int|
        0 <= i < fs.len() implies crate::json::wf_string(#[trigger] fs[i].0)
        && crate::json::wf_val(fs[i].1) by {}
    crate::json::lemma_wf_fields_all(fs);
}

/// The wire line answering `msg_id` with the error `e`: the body alone, as
/// the router sends it.
pub fn error_line(e: &MaelstromError, msg_id: MsgId) -> (r: String)
    ensures
        r@ == crate::json::encode(error_reply_spec(*e, msg_id)),
{
    let v = e.to_json_error(msg_id);
    proof {
        lemma_error_reply_wf(*e, msg_id);
    }
    crate::json::to_text(&v)
}

} // verus!
