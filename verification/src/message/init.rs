//! The `init` workload: the one-shot handshake that gives the node its
//! identity and its first neighbor set.

use crate::error::MaelstromError;
use crate::json::{
    encode, lemma_views_of_fields_index, lemma_wf_obj_get, obj_get, obj_get_ref, to_text,
    views_of_fields, wf_string, wf_val, JsonVal, JsonValue,
};
use crate::message::{
    build_reply, decode_envelope, envelope_spec, envelope_val_spec, lemma_envelope_wf, str_is,
    Request,
};
use crate::server::stdio::{dedup_names, has_name, lemma_dedup_names, IoServerContext};
use vstd::prelude::*;
use vstd::string::StringExecFns;

verus! {

#[derive(Debug, PartialEq, Eq)]
pub enum RequestBody {
    Init(Body),
}

#[derive(Debug, PartialEq, Eq)]
pub enum ResponseBody {
    InitOk,
}

#[derive(Debug, PartialEq, Eq)]
pub struct Body {
    pub node_id: String,
    pub node_ids: Vec<String>,
}

pub struct Handler;

/// The strings of an array of string documents, if they all are ones.
pub open spec fn strs_of(items: Seq<JsonVal>) -> Option<Seq<Seq<char>>>
    decreases items.len(),
{
    if items.len() == 0 {
        Some(Seq::empty())
    } else {
        match strs_of(items.subrange(0, items.len() - 1)) {
            None => None,
            Some(pre) => match items[items.len() - 1] {
                JsonVal::Str(s) => Some(pre.push(s)),
                _ => None,
            },
        }
    }
}

/// What an `init` body carries: this node's id and the cluster's ids.
pub open spec fn init_req_spec(content: JsonVal) -> Option<(Seq<char>, Seq<Seq<char>>)> {
    match content {
        JsonVal::Obj(cfs) => if obj_get(cfs, "type"@) == Some(JsonVal::Str("init"@)) {
            match (obj_get(cfs, "node_id"@), obj_get(cfs, "node_ids"@)) {
                (Some(JsonVal::Str(nid)), Some(JsonVal::Arr(items))) => match strs_of(items) {
                    Some(ids) => Some((nid, ids)),
                    None => None,
                },
                _ => None,
            }
        } else {
            None
        },
        _ => None,
    }
}

/// The content fields of an `init_ok` reply.
pub open spec fn init_ok_fields() -> Seq<(Seq<char>, JsonVal)> {
    seq![("type"@, JsonVal::Str("init_ok"@))]
}

pub fn decode_strings(items: &Vec<JsonValue>) -> (r: Option<Vec<String>>)
    ensures
        match r {
            Some(v) => strs_of(crate::json::views_of_items(items@)) == Some(v.deep_view())
                && v@.len() == items@.len(),
            None => strs_of(crate::json::views_of_items(items@)) is None,
        },
{
    let ghost vs = crate::json::views_of_items(items@);
    proof {
        crate::json::lemma_views_of_items_len(items@);
    }
    let mut out: Vec<String> = Vec::new();
    let mut k: usize = 0;
    while k < items.len()
        invariant
            k <= items@.len(),
            vs == crate::json::views_of_items(items@),
            vs.len() == items@.len(),
            out@.len() == k,
            strs_of(vs.subrange(0, k as int)) == Some(out.deep_view()),
        decreases items@.len() - k,
    {
        proof {
            crate::json::lemma_views_of_items_index(items@, k as int);
            let pre = vs.subrange(0, k as int);
            let post = vs.subrange(0, k as int + 1);
            assert(post.subrange(0, post.len() - 1) =~= pre);
            assert(post[post.len() - 1] == vs[k as int]);
        }
        match &items[k] {
            JsonValue::Str(s) => {
                let ghost d0 = out.deep_view();
                out.push(s.clone());
                proof {
                    assert(out.deep_view() =~= d0.push(out@[out@.len() - 1]@));
                    assert(strs_of(vs.subrange(0, k as int + 1)) == Some(out.deep_view()));
                }
            },
            _ => {
                proof {
                    let whole = vs.subrange(0, vs.len() as int);
                    assert(whole =~= vs);
                    lemma_strs_of_prefix_none(vs, k as int);
                }
                return None;
            },
        }
        k += 1;
    }
    proof {
        assert(vs.subrange(0, vs.len() as int) =~= vs);
    }
    Some(out)
}

/// The strings of a well-formed array of string documents need no escaping.
pub proof fn lemma_strs_wf(vs: Seq<JsonVal>, ids: Seq<Seq<char>>)
    requires
        crate::json::wf_items(vs),
        strs_of(vs) == Some(ids),
    ensures
        forall|k: int| 0 <= k < ids.len() ==> wf_string(#[trigger] ids[k]),
    decreases vs.len(),
{
    if vs.len() > 0 {
        let pre = vs.subrange(0, vs.len() - 1);
        assert(crate::json::wf_items(pre)) by {
            assert forall|i: int| 0 <= i < pre.len() implies crate::json::wf_val(
                #[trigger] pre[i],
            ) by {
                crate::json::lemma_wf_items_index(vs, i);
            }
            crate::json::lemma_wf_items_all(pre);
        }
        match strs_of(pre) {
            Some(pids) => {
                lemma_strs_wf(pre, pids);
                crate::json::lemma_wf_items_index(vs, vs.len() - 1);
                assert(ids == pids.push(vs[vs.len() - 1]->Str_0));
                assert forall|k: int| 0 <= k < ids.len() implies wf_string(
                    #[trigger] ids[k],
                ) by {
                    if k < pids.len() {
                        assert(ids[k] == pids[k]);
                    }
                }
            },
            None => {},
        }
    }
}

/// A non-string at position `k` spoils the whole array.
proof fn lemma_strs_of_prefix_none(vs: Seq<JsonVal>, k: int)
    requires
        0 <= k < vs.len(),
        !(vs[k] is Str),
    ensures
        strs_of(vs) is None,
    decreases vs.len(),
{
    if vs.len() > 0 {
        if k < vs.len() - 1 {
            lemma_strs_of_prefix_none(vs.subrange(0, vs.len() - 1), k);
        }
    }
}

/// Everything the init handler promises of one call, over the state
/// before, the state after, the result and the request document.
pub open spec fn response_post(
    pre: IoServerContext,
    post: IoServerContext,
    r: Result<String, MaelstromError>,
    req: JsonVal,
) -> bool {
    match r {
        Ok(s) => {
            &&& envelope_spec(req) matches Some((src, dest, mid, irt, content))
                && init_req_spec(content) matches Some((nid, ids)) && {
                &&& !pre.initialized
                &&& post.initialized
                &&& post.node_id@ == nid
                &&& post.msg_id == pre.msg_id + 1
                &&& post.messages_saved == pre.messages_saved
                &&& post.messages_queued == pre.messages_queued
                &&& post.messages_neighbors_have == pre.messages_neighbors_have
                &&& post.node_counters == pre.node_counters
                &&& post.counter == pre.counter
                &&& post.message_type == pre.message_type
                &&& post.last_sync == pre.last_sync
                &&& crate::server::stdio::distinct_names(post.neighbors@)
                &&& (forall|k: Seq<char>|
                    #[trigger] has_name(post.neighbors@, k) <==> (k != nid && ids.contains(
                        k,
                    )))
                &&& s@ == encode(
                    envelope_val_spec(
                        nid,
                        if src == nid {
                            dest
                        } else {
                            src
                        },
                        Some((pre.msg_id + 1) as u64),
                        mid,
                        init_ok_fields(),
                    ),
                )
            }
        },
        Err(e) => {
            &&& post == pre
            &&& match envelope_spec(req) {
                None => e is SerdeJsonError,
                Some((src, dest, mid, irt, content)) => match init_req_spec(content) {
                    None => e is SerdeJsonError,
                    Some(_) => e is NodeAlreadyInitialized && pre.initialized,
                },
            }
        },
    }
}

impl Handler {
    /// Accepts the initialization handshake: adopts the given id, takes
    /// the other ids as neighbors, and answers `init_ok`. A second
    /// handshake is refused.
    pub fn response(ctx: &mut IoServerContext, req: &JsonValue) -> (r: Result<
        String,
        MaelstromError,
    >)
        requires
            old(ctx).wf_maps(),
            wf_val(req@),
            old(ctx).msg_id < u64::MAX,
        ensures
            final(ctx).wf_maps(),
            response_post(*old(ctx), *final(ctx), r, req@),
    {
        let m = match decode_envelope(req) {
            Ok(m) => m,
            Err(e) => {
                return Err(e);
            },
        };
        let nid: String;
        let ids: Vec<String>;
        match &m.body.content {
            JsonValue::Obj(cfs) => {
                let tag_ok = match obj_get_ref(cfs, "type") {
                    Some(JsonValue::Str(t)) => str_is(t, "init"),
                    _ => false,
                };
                if !tag_ok {
                    return Err(
                        MaelstromError::SerdeJsonError(
                            String::from_str("not an init request body"),
                        ),
                    );
                }
                match obj_get_ref(cfs, "node_id") {
                    Some(JsonValue::Str(s)) => {
                        nid = s.clone();
                    },
                    _ => {
                        return Err(
                            MaelstromError::SerdeJsonError(
                                String::from_str("an init request names a node_id"),
                            ),
                        );
                    },
                }
                match obj_get_ref(cfs, "node_ids") {
                    Some(JsonValue::Arr(items)) => {
                        match decode_strings(items) {
                            Some(v) => {
                                ids = v;
                            },
                            None => {
                                return Err(
                                    MaelstromError::SerdeJsonError(
                                        String::from_str("node_ids holds strings"),
                                    ),
                                );
                            },
                        }
                    },
                    _ => {
                        return Err(
                            MaelstromError::SerdeJsonError(
                                String::from_str("an init request lists node_ids"),
                            ),
                        );
                    },
                }
            },
            _ => {
                return Err(
                    MaelstromError::SerdeJsonError(
                        String::from_str("not an init request body"),
                    ),
                );
            },
        }
        if ctx.initialized {
            return Err(MaelstromError::NodeAlreadyInitialized);
        }
        let ghost nidv = nid@;
        let ghost idsv = ids.deep_view();
        proof {
            match envelope_spec(req@) {
                Some((src, dest, mid, irt, content)) => {
                    lemma_wf_obj_get(req@->Obj_0, "body"@);
                    lemma_wf_obj_get(content->Obj_0, "node_id"@);
                    lemma_wf_obj_get(content->Obj_0, "node_ids"@);
                    lemma_wf_obj_get(req@->Obj_0, "src"@);
                    lemma_wf_obj_get(req@->Obj_0, "dest"@);
                },
                None => {},
            }
            match init_req_spec(m.body.content@) {
                Some((n2, ids2)) => {
                    assert(ids2 == idsv);
                    match m.body.content@ {
                        JsonVal::Obj(cfs) => {
                            match obj_get(cfs, "node_ids"@) {
                                Some(JsonVal::Arr(items)) => {
                                    lemma_strs_wf(items, idsv);
                                },
                                _ => {},
                            }
                        },
                        _ => {},
                    }
                },
                None => {},
            }
            assert forall|i: int| 0 <= i < ids@.len() implies wf_string(
                (#[trigger] ids@[i])@,
            ) by {
                assert(idsv[i] == ids@[i]@);
            }
        }
        ctx.set_node(nid);
        ctx.initialized = true;
        ctx.set_neighbors(ids.as_slice());
        proof {
            lemma_dedup_names(ids@, nidv);
            assert forall|k: Seq<char>| #[trigger]
                has_name(ctx.neighbors@, k) <==> (k != nidv && idsv.contains(k)) by {
                assert(has_name(ctx.neighbors@, k) == has_name(dedup_names(ids@, nidv), k));
                if has_name(ids@, k) {
                    let i = choose|i: int| 0 <= i < ids@.len() && ids@[i]@ == k;
                    assert(idsv[i] == k);
                }
                if idsv.contains(k) {
                    let i = choose|i: int| 0 <= i < idsv.len() && idsv[i] == k;
                    assert(ids@[i]@ == k);
                    assert(has_name(ids@, k));
                }
            }
            assert forall|i: int|
                0 <= i < ctx.neighbors@.len() implies ctx.neighbors@[i]@ != ctx.node_id@
                && wf_string((#[trigger] ctx.neighbors@[i])@) by {
                assert(has_name(ctx.neighbors@, ctx.neighbors@[i]@));
                assert(idsv.contains(ctx.neighbors@[i]@));
                let j = choose|j: int| 0 <= j < idsv.len() && idsv[j] == ctx.neighbors@[i]@;
            }
            assert(ctx.wf_maps());
        }
        let mut fields: Vec<(String, JsonValue)> = Vec::new();
        fields.push((String::from_str("type"), JsonValue::Str(String::from_str("init_ok"))));
        proof {
            lemma_views_of_fields_index(fields@, 0);
            assert(views_of_fields(fields@) =~= init_ok_fields());
            reveal_strlit("type");
            reveal_strlit("init_ok");
            assert(wf_string("type"@));
            assert(wf_string("init_ok"@));
            assert forall|i: int|
                0 <= i < init_ok_fields().len() implies wf_string(
                #[trigger] init_ok_fields()[i].0,
            ) && wf_val(init_ok_fields()[i].1) by {}
            crate::json::lemma_wf_fields_all(init_ok_fields());
        }
        let ghost srcv = m.src@;
        let ghost destv = m.dest@;
        let ghost midv = m.body.msg_id;
        let reply = build_reply(Request::new(m), ctx, fields);
        proof {
            lemma_envelope_wf(
                ctx.node_id@,
                if srcv == nidv {
                    destv
                } else {
                    srcv
                },
                Some(ctx.msg_id),
                midv,
                init_ok_fields(),
            );
        }
        Ok(to_text(&reply))
    }
}

} // verus!
