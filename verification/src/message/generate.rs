//! The `generate` workload: each request is answered with a freshly drawn
//! identifier, unique across the cluster with overwhelming probability.

use crate::error::MaelstromError;
use crate::json::{
    encode, lemma_views_of_fields_index, lemma_wf_obj_get, obj_get, obj_get_ref, to_text,
    views_of_fields, wf_string, wf_val, JsonVal, JsonValue,
};
use crate::message::{
    build_reply, decode_envelope, envelope_spec, envelope_val_spec, lemma_envelope_wf, str_is,
    Request,
};
use crate::server::stdio::IoServerContext;
use vstd::prelude::*;
use vstd::string::StringExecFns;

verus! {

#[derive(Debug, PartialEq, Eq)]
pub enum RequestBody {
    Generate,
}

#[derive(Debug, PartialEq, Eq)]
pub enum ResponseBody {
    GenerateOk(Body),
}

#[derive(Debug, PartialEq, Eq)]
pub struct Body {
    pub id: String,
}

pub struct Handler;

/// Relies on `uuid::Uuid::new_v4` and its `Display` form: a version-4
/// random identifier written as 36 characters, hexadecimal digits and
/// hyphens. Nothing is promised about which identifier comes back. Like
/// an allocation failure, a failure of the operating system's entropy
/// source aborts the process inside the call; no input causes or avoids
/// it.
#[verifier::external_body]
fn fresh_uuid() -> (r: String)
    ensures
        r@.len() == 36,
        wf_string(r@),
{
    uuid::Uuid::new_v4().to_string()
}

/// Whether a body is a `generate` request.
pub open spec fn generate_req_spec(content: JsonVal) -> bool {
    match content {
        JsonVal::Obj(cfs) => obj_get(cfs, "type"@) == Some(JsonVal::Str("generate"@)),
        _ => false,
    }
}

/// The content fields of a `generate_ok` reply carrying the identifier `id`.
pub open spec fn generate_ok_fields(id: Seq<char>) -> Seq<(Seq<char>, JsonVal)> {
    seq![("type"@, JsonVal::Str("generate_ok"@)), ("id"@, JsonVal::Str(id))]
}

/// Everything the generate handler promises of one call, over the state
/// before, the state after, the result and the request document. Which
/// identifier was drawn stays unspecified: only its shape is fixed.
pub open spec fn response_post(
    pre: IoServerContext,
    post: IoServerContext,
    r: Result<String, MaelstromError>,
    req: JsonVal,
) -> bool {
    match r {
        Ok(s) => {
            &&& post == (IoServerContext { msg_id: (pre.msg_id + 1) as u64, ..pre })
            &&& envelope_spec(req) matches Some((src, dest, mid, irt, content))
                && generate_req_spec(content) && (exists|id: Seq<char>|
                wf_string(id) && id.len() == 36 && s@ == encode(
                    envelope_val_spec(
                        pre.node_id@,
                        if src == pre.node_id@ {
                            dest
                        } else {
                            src
                        },
                        Some((pre.msg_id + 1) as u64),
                        mid,
                        generate_ok_fields(id),
                    ),
                ))
        },
        Err(e) => {
            &&& post == pre
            &&& e is SerdeJsonError
            &&& match envelope_spec(req) {
                None => true,
                Some((src, dest, mid, irt, content)) => !generate_req_spec(content),
            }
        },
    }
}

impl Handler {
    /// Answers a `generate` request with `generate_ok` and a fresh
    /// identifier. Which identifier is drawn is not specified; the reply
    /// carries whatever came back, well formed and 36 characters long.
    pub fn response(ctx: &mut IoServerContext, req: &JsonValue) -> (r: Result<
        String,
        MaelstromError,
    >)
        requires
            old(ctx).wf_maps(),
            wf_val(req@),
            old(ctx).msg_id < u64::MAX,
        ensures
            final(ctx).wf_maps(),
            response_post(*old(ctx), *final(ctx), r, req@),
    {
        let m = match decode_envelope(req) {
            Ok(m) => m,
            Err(e) => {
                return Err(e);
            },
        };
        match &m.body.content {
            JsonValue::Obj(cfs) => {
                let tag_ok = match obj_get_ref(cfs, "type") {
                    Some(JsonValue::Str(t)) => str_is(t, "generate"),
                    _ => false,
                };
                if !tag_ok {
                    return Err(
                        MaelstromError::SerdeJsonError(
                            String::from_str("not a generate request body"),
                        ),
                    );
                }
            },
            _ => {
                return Err(
                    MaelstromError::SerdeJsonError(
                        String::from_str("not a generate request body"),
                    ),
                );
            },
        }
        let id = fresh_uuid();
        let ghost idv = id@;
        let mut fields: Vec<(String, JsonValue)> = Vec::new();
        fields.push(
            (String::from_str("type"), JsonValue::Str(String::from_str("generate_ok"))),
        );
        fields.push((String::from_str("id"), JsonValue::Str(id)));
        proof {
            lemma_views_of_fields_index(fields@, 0);
            lemma_views_of_fields_index(fields@, 1);
            assert(views_of_fields(fields@) =~= generate_ok_fields(idv));
            reveal_strlit("type");
            reveal_strlit("id");
            reveal_strlit("generate_ok");
            assert(wf_string("type"@));
            assert(wf_string("id"@));
            assert(wf_string("generate_ok"@));
            assert forall|i: int|
                0 <= i < generate_ok_fields(idv).len() implies wf_string(
                #[trigger] generate_ok_fields(idv)[i].0,
            ) && wf_val(generate_ok_fields(idv)[i].1) by {}
            crate::json::lemma_wf_fields_all(generate_ok_fields(idv));
            match envelope_spec(req@) {
                Some((src, dest, mid, irt, content)) => {
                    lemma_wf_obj_get(req@->Obj_0, "src"@);
                    lemma_wf_obj_get(req@->Obj_0, "dest"@);
                },
                None => {},
            }
        }
        let ghost srcv = m.src@;
        let ghost destv = m.dest@;
        let ghost midv = m.body.msg_id;
        let reply = build_reply(Request::new(m), ctx, fields);
        proof {
            lemma_envelope_wf(
                ctx.node_id@,
                if srcv == ctx.node_id@ {
                    destv
                } else {
                    srcv
                },
                Some(ctx.msg_id),
                midv,
                generate_ok_fields(idv),
            );
        }
        Ok(to_text(&reply))
    }
}

} // verus!
