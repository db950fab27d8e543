//! Routing of inbound lines to workload handlers.
//!
//! A line is parsed, classified by its body's `type` tag, checked against
//! the registered request types of the workload being served, and handed
//! to that workload's handler. Whatever goes wrong becomes a well-formed
//! `error` reply instead, so the harness always sees an answer.

use crate::error::{error_reply_spec, MaelstromError};
use crate::json::{
    encode, obj_get, obj_get_ref, parse_text, parse_text_spec, JsonVal, JsonValue,
};
use crate::message::{type_of_tag, type_of_tag_spec, RequestTypes};
use crate::server::stdio::{IoServerContext, IoServerType};
use vstd::prelude::*;

verus! {

/// The request types each workload serves; `init` is always served.
pub open spec fn registered_spec(workload: IoServerType, t: RequestTypes) -> bool {
    t == RequestTypes::Init || match workload {
        IoServerType::Echo => t == RequestTypes::Echo,
        IoServerType::Broadcast => t == RequestTypes::Broadcast || t == RequestTypes::Read || t
            == RequestTypes::Sync || t == RequestTypes::Topology,
        IoServerType::Gcounter => t == RequestTypes::Add || t == RequestTypes::Read || t
            == RequestTypes::SyncCounter,
        IoServerType::Generate => t == RequestTypes::Generate,
        IoServerType::Init => false,
    }
}

fn registered(workload: IoServerType, t: RequestTypes) -> (r: bool)
    ensures
        r == registered_spec(workload, t),
{
    t == RequestTypes::Init || match workload {
        IoServerType::Echo => t == RequestTypes::Echo,
        IoServerType::Broadcast => t == RequestTypes::Broadcast || t == RequestTypes::Read || t
            == RequestTypes::Sync || t == RequestTypes::Topology,
        IoServerType::Gcounter => t == RequestTypes::Add || t == RequestTypes::Read || t
            == RequestTypes::SyncCounter,
        IoServerType::Generate => t == RequestTypes::Generate,
        IoServerType::Init => false,
    }
}

/// The type tag a parsed line carries, if any: read from the body object
/// of the envelope.
pub open spec fn line_tag_spec(v: JsonVal) -> Option<JsonVal> {
    match crate::message::envelope_spec(v) {
        Some((src, dest, mid, irt, content)) => match content {
            JsonVal::Obj(cfs) => obj_get(cfs, "type"@),
            _ => None,
        },
        None => None,
    }
}

/// Everything the handler chosen for `(workload, rt)` promises of the
/// dispatched call: `init` always serves its own tag; every other tag goes
/// to the workload's handler.
pub open spec fn dispatched_response_post(
    workload: IoServerType,
    rt: RequestTypes,
    pre: IoServerContext,
    post: IoServerContext,
    r: Result<String, MaelstromError>,
    req: JsonVal,
) -> bool {
    if rt == RequestTypes::Init {
        crate::message::init::response_post(pre, post, r, req)
    } else {
        match workload {
            IoServerType::Echo => crate::message::echo::response_post(pre, post, r, req),
            IoServerType::Broadcast => crate::message::broadcast::response_post(
                pre,
                post,
                r,
                req,
            ),
            IoServerType::Gcounter => crate::message::g_counter::response_post(
                pre,
                post,
                r,
                req,
            ),
            IoServerType::Generate => crate::message::generate::response_post(pre, post, r, req),
            IoServerType::Init => false,
        }
    }
}

/// As [`dispatched_response_post`], evaluated on the state the router
/// hands the handler: the state before, with the request type recorded.
pub open spec fn dispatched_from(
    workload: IoServerType,
    rt: RequestTypes,
    pre0: IoServerContext,
    post: IoServerContext,
    r: Result<String, MaelstromError>,
    req: JsonVal,
) -> bool {
    dispatched_response_post(
        workload,
        rt,
        (IoServerContext { message_type: rt, ..pre0 }),
        post,
        r,
        req,
    )
}

/// Routes one line to the handler registered for its type tag.
///
/// The routing layer itself decides exactly which error comes back when
/// the line cannot be dispatched: unparsable text or a bad envelope, a
/// missing tag, an unknown tag, an unregistered type, or a message ahead
/// of the initialization handshake. A dispatched request is answered by
/// the workload's handler under that handler's own contract.
pub fn route_message_to_handler(
    workload: IoServerType,
    ctx: &mut IoServerContext,
    req: &str,
) -> (r: Result<String, MaelstromError>)
    requires
        old(ctx).wf(),
        old(ctx).msg_id < u64::MAX,
    ensures
        final(ctx).wf(),
        old(ctx).msg_id <= final(ctx).msg_id <= old(ctx).msg_id + 1,
        final(ctx).node_id@ == old(ctx).node_id@ || !old(ctx).initialized,
        match parse_text_spec(req@) {
            None => r matches Err(e) && e is SerdeJsonError && *final(ctx) == *old(ctx),
            Some(v) => if crate::message::envelope_spec(v) is None {
                r matches Err(e) && e is SerdeJsonError && *final(ctx) == *old(ctx)
            } else {
                match line_tag_spec(v) {
                    None => r matches Err(e) && e is UnknownRequestType && *final(ctx) == *old(
                        ctx,
                    ),
                    Some(tag) => match tag {
                        JsonVal::Str(ts) => match type_of_tag_spec(ts) {
                            None => r matches Err(e) && e is SerdeJsonError && *final(ctx)
                                == *old(ctx),
                            Some(rt) => if !registered_spec(workload, rt) {
                                r matches Err(e) && e is NoHandlerForRequestType && *final(ctx)
                                    == *old(ctx)
                            } else if rt != RequestTypes::Init && !old(ctx).initialized {
                                r matches Err(e) && e is NodeNotInitialized && *final(ctx)
                                    == (IoServerContext {
                                    message_type: rt,
                                    ..*old(ctx)
                                })
                            } else {
                                &&& final(ctx).message_type == rt
                                &&& dispatched_from(
                                    workload,
                                    rt,
                                    *old(ctx),
                                    *final(ctx),
                                    r,
                                    v,
                                )
                            },
                        },
                        _ => r matches Err(e) && e is SerdeJsonError && *final(ctx) == *old(
                            ctx,
                        ),
                    },
                }
            },
        },
{
    let v = match parse_text(req) {
        Some(v) => v,
        None => {
            return Err(
                MaelstromError::SerdeJsonError(String::from_str("Unable to parse json")),
            );
        },
    };
    proof {
        crate::json::lemma_parse_text_wf(req@);
    }
    let m = match crate::message::decode_envelope(&v) {
        Ok(m) => m,
        Err(e) => {
            return Err(e);
        },
    };
    let rt: RequestTypes;
    match &m.body.content {
        JsonValue::Obj(cfs) => {
            match obj_get_ref(cfs, "type") {
                None => {
                    return Err(MaelstromError::UnknownRequestType);
                },
                Some(tv) => match tv {
                    JsonValue::Str(ts) => match type_of_tag(ts) {
                        Some(t) => {
                            rt = t;
                        },
                        None => {
                            return Err(
                                MaelstromError::SerdeJsonError(
                                    String::from_str("Unknown request type received"),
                                ),
                            );
                        },
                    },
                    _ => {
                        return Err(
                            MaelstromError::SerdeJsonError(
                                String::from_str("a type tag is a string"),
                            ),
                        );
                    },
                },
            }
        },
        _ => {
            return Err(
                MaelstromError::SerdeJsonError(String::from_str("a body is an object")),
            );
        },
    }
    if !registered(workload, rt) {
        return Err(MaelstromError::NoHandlerForRequestType);
    }
    ctx.message_type(rt);
    proof {
        assert(*ctx == (IoServerContext { message_type: rt, ..*old(ctx) }));
        assert(ctx.wf());
    }
    if !(rt == RequestTypes::Init) && !ctx.initialized {
        return Err(MaelstromError::NodeNotInitialized);
    }
    proof {
        assert(ctx.message_type == rt);
    }
    match workload {
        IoServerType::Echo => {
            if rt == RequestTypes::Init {
                crate::message::init::Handler::response(ctx, &v)
            } else {
                crate::message::echo::Handler::response(ctx, &v)
            }
        },
        IoServerType::Broadcast => {
            if rt == RequestTypes::Init {
                crate::message::init::Handler::response(ctx, &v)
            } else {
                crate::message::broadcast::Handler::response(ctx, &v)
            }
        },
        IoServerType::Gcounter => {
            if rt == RequestTypes::Init {
                crate::message::init::Handler::response(ctx, &v)
            } else {
                crate::message::g_counter::Handler::response(ctx, &v)
            }
        },
        IoServerType::Generate => {
            if rt == RequestTypes::Init {
                crate::message::init::Handler::response(ctx, &v)
            } else {
                crate::message::generate::Handler::response(ctx, &v)
            }
        },
        IoServerType::Init => crate::message::init::Handler::response(ctx, &v),
    }
}

/// Serves one inbound line: routes it, and turns a routing or handler
/// error into the `error` reply the harness expects, quoting the
/// request's message id where the line carried one.
/// The message id an error reply quotes: the inbound one where the line
/// carried one, else 1.
pub open spec fn reply_to_spec(req: Seq<char>) -> u64 {
    match parse_text_spec(req) {
        Some(v) => match crate::message::envelope_spec(v) {
            Some((src, dest, mid, irt, content)) => match mid {
                Some(m) => m,
                None => 1,
            },
            None => 1,
        },
        None => 1,
    }
}

/// `out` is the encoded `error` reply for some error of the same sort as
/// `witness`, quoting the request's message id.
pub open spec fn is_error_reply(out: Seq<char>, req: Seq<char>, witness: MaelstromError) -> bool {
    exists|e: MaelstromError|
        code_of_pair(e, witness) && out == encode(
            crate::error::error_reply_spec(e, reply_to_spec(req)),
        )
}

/// Two errors of the same sort: equal codes and equal description text.
pub open spec fn code_of_pair(e: MaelstromError, witness: MaelstromError) -> bool {
    crate::error::code_spec(e) == crate::error::code_spec(witness)
        && crate::error::message_spec(e) == crate::error::message_spec(witness)
}

/// Stands in for the free-form text an error may carry; the text plays no
/// part in the reply's code or description.
pub open spec fn witness_text() -> String {
    vstd::pervasive::arbitrary()
}

pub fn process_messages(workload: IoServerType, ctx: &mut IoServerContext, req: &str) -> (out:
    String)
    requires
        old(ctx).wf(),
        old(ctx).msg_id < u64::MAX,
    ensures
        final(ctx).wf(),
        old(ctx).msg_id <= final(ctx).msg_id <= old(ctx).msg_id + 1,
        match parse_text_spec(req@) {
            None => is_error_reply(
                out@,
                req@,
                MaelstromError::SerdeJsonError(witness_text()),
            ) && *final(ctx) == *old(ctx),
            Some(v) => if crate::message::envelope_spec(v) is None {
                is_error_reply(out@, req@, MaelstromError::SerdeJsonError(witness_text()))
                    && *final(ctx) == *old(ctx)
            } else {
                match line_tag_spec(v) {
                    None => is_error_reply(out@, req@, MaelstromError::UnknownRequestType)
                        && *final(ctx) == *old(ctx),
                    Some(tag) => match tag {
                        JsonVal::Str(ts) => match type_of_tag_spec(ts) {
                            None => is_error_reply(
                                out@,
                                req@,
                                MaelstromError::SerdeJsonError(witness_text()),
                            ) && *final(ctx) == *old(ctx),
                            Some(rt) => if !registered_spec(workload, rt) {
                                is_error_reply(
                                    out@,
                                    req@,
                                    MaelstromError::NoHandlerForRequestType,
                                ) && *final(ctx) == *old(ctx)
                            } else if rt != RequestTypes::Init && !old(ctx).initialized {
                                is_error_reply(out@, req@, MaelstromError::NodeNotInitialized)
                                    && *final(ctx) == (IoServerContext {
                                    message_type: rt,
                                    ..*old(ctx)
                                })
                            } else {
                                &&& final(ctx).message_type == rt
                                &&& exists|rr: Result<String, MaelstromError>|
                                    #[trigger] dispatched_from(
                                        workload,
                                        rt,
                                        *old(ctx),
                                        *final(ctx),
                                        rr,
                                        v,
                                    ) && (match rr {
                                        Ok(s) => out == s,
                                        Err(e) => out@ == encode(
                                            crate::error::error_reply_spec(
                                                e,
                                                reply_to_spec(req@),
                                            ),
                                        ),
                                    })
                            },
                        },
                        _ => is_error_reply(
                            out@,
                            req@,
                            MaelstromError::SerdeJsonError(witness_text()),
                        ) && *final(ctx) == *old(ctx),
                    },
                }
            },
        },
{
    let mut reply_to: u64 = 1;
    match parse_text(req) {
        Some(v) => {
            match crate::message::decode_envelope(&v) {
                Ok(m) => {
                    if let Some(mid) = m.body.msg_id {
                        reply_to = mid;
                    }
                },
                Err(_) => {},
            }
        },
        None => {},
    }
    proof {
        assert(reply_to == reply_to_spec(req@));
    }
    let res = route_message_to_handler(workload, ctx, req);
    let ghost rr = res;
    match res {
        Ok(s) => s,
        Err(e) => {
            let line = crate::error::error_line(&e, reply_to);
            proof {
                if e is SerdeJsonError {
                    assert(code_of_pair(e, MaelstromError::SerdeJsonError(witness_text())));
                }
                if e is UnknownRequestType {
                    assert(code_of_pair(e, MaelstromError::UnknownRequestType));
                }
                if e is NoHandlerForRequestType {
                    assert(code_of_pair(e, MaelstromError::NoHandlerForRequestType));
                }
                if e is NodeNotInitialized {
                    assert(code_of_pair(e, MaelstromError::NodeNotInitialized));
                }
            }
            line
        },
    }
}

} // verus!
