//! The `echo` workload: a request carries any value, the reply carries it
//! back unchanged.

use crate::error::MaelstromError;
use crate::json::{
    encode, lemma_parse_text_wf, lemma_views_of_fields_index, lemma_wf_obj_get, obj_get,
    obj_get_ref, to_text, views_of_fields, wf_fields, wf_string, wf_val, JsonVal, JsonValue,
};
use crate::message::{
    build_reply, decode_envelope, envelope_spec, envelope_val_spec, lemma_envelope_wf, str_is,
    Message, Request,
};
use crate::server::stdio::IoServerContext;
use vstd::prelude::*;
use vstd::string::StringExecFns;

verus! {

#[derive(Debug, PartialEq, Eq)]
pub enum RequestBody {
    Echo(Body),
}

#[derive(Debug, PartialEq, Eq)]
pub enum ResponseBody {
    EchoOk(Body),
}

#[derive(Debug, PartialEq, Eq)]
pub struct Body {
    pub echo: JsonValue,
}

pub struct Handler;

/// The value an `echo` body carries, if the body is one.
pub open spec fn echo_req_spec(content: JsonVal) -> Option<JsonVal> {
    match content {
        JsonVal::Obj(cfs) => if obj_get(cfs, "type"@) == Some(JsonVal::Str("echo"@)) {
            obj_get(cfs, "echo"@)
        } else {
            None
        },
        _ => None,
    }
}

/// The content fields of an `echo_ok` reply.
pub open spec fn echo_ok_fields(e: JsonVal) -> Seq<(Seq<char>, JsonVal)> {
    seq![("type"@, JsonVal::Str("echo_ok"@)), ("echo"@, e)]
}

/// Everything the echo handler promises of one call, over the state
/// before, the state after, the result and the request document.
pub open spec fn response_post(
    pre: IoServerContext,
    post: IoServerContext,
    r: Result<String, MaelstromError>,
    req: JsonVal,
) -> bool {
    match r {
        Ok(s) => {
            &&& post == (IoServerContext { msg_id: (pre.msg_id + 1) as u64, ..pre })
            &&& envelope_spec(req) matches Some((src, dest, mid, irt, content))
                && echo_req_spec(content) matches Some(e) && s@ == encode(
                envelope_val_spec(
                    pre.node_id@,
                    if src == pre.node_id@ {
                        dest
                    } else {
                        src
                    },
                    Some((pre.msg_id + 1) as u64),
                    mid,
                    echo_ok_fields(e),
                ),
            )
        },
        Err(e) => {
            &&& post == pre
            &&& e is SerdeJsonError
            &&& match envelope_spec(req) {
                None => true,
                Some((src, dest, mid, irt, content)) => echo_req_spec(content) is None,
            }
        },
    }
}

impl Handler {
    /// Answers an `echo` request with `echo_ok` carrying the same value.
    pub fn response(ctx: &mut IoServerContext, req: &JsonValue) -> (r: Result<
        String,
        MaelstromError,
    >)
        requires
            old(ctx).wf_maps(),
            wf_val(req@),
            old(ctx).msg_id < u64::MAX,
        ensures
            final(ctx).wf_maps(),
            response_post(*old(ctx), *final(ctx), r, req@),
    {
        let m = match decode_envelope(req) {
            Ok(m) => m,
            Err(e) => {
                return Err(e);
            },
        };
        let e: JsonValue;
        match &m.body.content {
            JsonValue::Obj(cfs) => {
                let tag_ok = match obj_get_ref(cfs, "type") {
                    Some(JsonValue::Str(t)) => str_is(t, "echo"),
                    _ => false,
                };
                if !tag_ok {
                    return Err(
                        MaelstromError::SerdeJsonError(
                            String::from_str("not an echo request body"),
                        ),
                    );
                }
                match obj_get_ref(cfs, "echo") {
                    Some(v) => {
                        e = v.duplicate();
                    },
                    None => {
                        return Err(
                            MaelstromError::SerdeJsonError(
                                String::from_str("an echo request carries an echo field"),
                            ),
                        );
                    },
                }
            },
            _ => {
                return Err(
                    MaelstromError::SerdeJsonError(
                        String::from_str("not an echo request body"),
                    ),
                );
            },
        }
        let ghost ev = e@;
        proof {
            reveal_strlit("type");
            reveal_strlit("echo");
            reveal_strlit("echo_ok");
            match envelope_spec(req@) {
                Some((src, dest, mid, irt, content)) => {
                    lemma_wf_obj_get(req@->Obj_0, "body"@);
                    lemma_wf_obj_get(content->Obj_0, "echo"@);
                },
                None => {},
            }
            assert(wf_string("type"@));
            assert(wf_string("echo"@));
            assert(wf_string("echo_ok"@));
            assert forall|i: int|
                0 <= i < echo_ok_fields(ev).len() implies wf_string(
                #[trigger] echo_ok_fields(ev)[i].0,
            ) && wf_val(echo_ok_fields(ev)[i].1) by {}
            crate::json::lemma_wf_fields_all(echo_ok_fields(ev));
        }
        let mut fields: Vec<(String, JsonValue)> = Vec::new();
        fields.push((String::from_str("type"), JsonValue::Str(String::from_str("echo_ok"))));
        fields.push((String::from_str("echo"), e));
        proof {
            lemma_views_of_fields_index(fields@, 0);
            lemma_views_of_fields_index(fields@, 1);
            assert(views_of_fields(fields@) =~= echo_ok_fields(ev));
        }
        let ghost srcv = m.src@;
        let ghost destv = m.dest@;
        let ghost midv = m.body.msg_id;
        let reply = build_reply(Request::new(m), ctx, fields);
        proof {
            match envelope_spec(req@) {
                Some((src, dest, mid, irt, content)) => {
                    lemma_wf_obj_get(req@->Obj_0, "src"@);
                    lemma_wf_obj_get(req@->Obj_0, "dest"@);
                    lemma_envelope_wf(
                        ctx.node_id@,
                        if srcv == ctx.node_id@ {
                            destv
                        } else {
                            srcv
                        },
                        Some(ctx.msg_id),
                        midv,
                        echo_ok_fields(ev),
                    );
                },
                None => {},
            }
        }
        Ok(to_text(&reply))
    }
}

} // verus!
