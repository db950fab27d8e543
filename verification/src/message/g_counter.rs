//! The `g_counter` workload: a grow-only counter. Each node owns its own
//! contribution; peers exchange whole vectors and merge by per-key maximum.

use crate::error::MaelstromError;
use crate::json::{
    encode, lemma_obj_get_snoc, lemma_views_of_fields_index, lemma_wf_obj_get, obj_get,
    obj_get_ref, to_text, views_of_fields, wf_string, wf_val, JsonVal, JsonValue,
};
use crate::message::{
    build_reply, decode_envelope, envelope_spec, envelope_val_spec, lemma_envelope_wf, str_is,
    Request,
};
use crate::server::stdio::{
    clamp_u64, counter_or_zero, counters_merged, distinct_keys, find_key,
    lemma_map_get_is_entry, lemma_sum_counters_nonneg, lemma_sum_entry, map_get, sum_counters,
    IoServerContext, NodeCounters, NumericMessage,
};
use vstd::prelude::*;
use vstd::string::StringExecFns;

verus! {

#[derive(Debug, PartialEq, Eq)]
pub enum RequestBody {
    Add(AddBody),
    Read,
    SyncCounter(SyncBody),
}

#[derive(Debug, PartialEq, Eq)]
pub enum ResponseBody {
    AddOk,
    ReadOk(ReadOkBody),
}

#[derive(Debug, PartialEq, Eq)]
pub struct AddBody {
    pub delta: NumericMessage,
}

#[derive(Debug, PartialEq, Eq)]
pub struct SyncBody {
    pub messages: NodeCounters,
}

#[derive(Debug, PartialEq, Eq)]
pub struct ReadOkBody {
    pub value: NumericMessage,
}

pub struct Handler;

/// The delta of an `add` body.
pub open spec fn add_req_spec(content: JsonVal) -> Option<u64> {
    match content {
        JsonVal::Obj(cfs) => if obj_get(cfs, "type"@) == Some(JsonVal::Str("add"@)) {
            match obj_get(cfs, "delta"@) {
                Some(JsonVal::Num(n)) => Some(n),
                _ => None,
            }
        } else {
            None
        },
        _ => None,
    }
}

/// Whether a body is a counter `read` request.
pub open spec fn read_req_spec(content: JsonVal) -> bool {
    match content {
        JsonVal::Obj(cfs) => obj_get(cfs, "type"@) == Some(JsonVal::Str("read"@)),
        _ => false,
    }
}

/// Whether every field of a counter vector is a number.
pub open spec fn all_nums(fields: Seq<(Seq<char>, JsonVal)>) -> bool {
    forall|i: int| 0 <= i < fields.len() ==> (#[trigger] fields[i].1) is Num
}

/// The number held under `k`, if the field is there and is one.
pub open spec fn num_of_field(o: Option<JsonVal>) -> Option<u64> {
    match o {
        Some(JsonVal::Num(n)) => Some(n),
        _ => None,
    }
}

/// The counter vector of a `sync_counter` body: its field list, when every
/// field is a number.
pub open spec fn counter_sync_req_spec(content: JsonVal) -> Option<Seq<(Seq<char>, JsonVal)>> {
    match content {
        JsonVal::Obj(cfs) => if obj_get(cfs, "type"@) == Some(JsonVal::Str("sync_counter"@)) {
            match obj_get(cfs, "messages"@) {
                Some(JsonVal::Obj(mfs)) => if all_nums(mfs) {
                    Some(mfs)
                } else {
                    None
                },
                _ => None,
            }
        } else {
            None
        },
        _ => None,
    }
}

/// The merge of a reported vector, read off the wire fields.
pub open spec fn counters_merged_view(
    oldm: Seq<(String, u64)>,
    mfs: Seq<(Seq<char>, JsonVal)>,
    me: Seq<char>,
    k: Seq<char>,
) -> Option<u64> {
    if k == me {
        map_get(oldm, k)
    } else {
        match num_of_field(obj_get(mfs, k)) {
            None => map_get(oldm, k),
            Some(nv) => match map_get(oldm, k) {
                None => Some(nv),
                Some(ov) => Some(if nv > ov {
                    nv
                } else {
                    ov
                }),
            },
        }
    }
}

pub open spec fn add_ok_fields() -> Seq<(Seq<char>, JsonVal)> {
    seq![("type"@, JsonVal::Str("add_ok"@))]
}

pub open spec fn read_ok_fields(value: u64) -> Seq<(Seq<char>, JsonVal)> {
    seq![("type"@, JsonVal::Str("read_ok"@)), ("value"@, JsonVal::Num(value))]
}

/// Reads a counter vector out of an object's fields: every value must be
/// a number; of fields sharing a name, the first counts.
fn decode_counters(fs: &Vec<(String, JsonValue)>) -> (r: Option<NodeCounters>)
    ensures
        match r {
            Some(nc) => distinct_keys(nc@) && all_nums(views_of_fields(fs@)) && (forall|
                k: Seq<char>,
            |
                #![trigger map_get(nc@, k)]
                map_get(nc@, k) == num_of_field(obj_get(views_of_fields(fs@), k)))
                && (crate::json::wf_fields(views_of_fields(fs@)) ==> forall|i: int|
                0 <= i < nc@.len() ==> wf_string((#[trigger] nc@[i]).0@)),
            None => !all_nums(views_of_fields(fs@)),
        },
{
    let ghost vs = views_of_fields(fs@);
    proof {
        crate::json::lemma_views_of_fields_len(fs@);
    }
    let mut out: NodeCounters = Vec::new();
    let mut i: usize = 0;
    while i < fs.len()
        invariant
            i <= fs@.len(),
            vs == views_of_fields(fs@),
            vs.len() == fs@.len(),
            distinct_keys(out@),
            forall|j: int| 0 <= j < i ==> (#[trigger] vs[j].1) is Num,
            forall|k: Seq<char>|
                #![trigger map_get(out@, k)]
                map_get(out@, k) == num_of_field(obj_get(vs.subrange(0, i as int), k)),
            crate::json::wf_fields(vs) ==> forall|j: int|
                0 <= j < out@.len() ==> wf_string((#[trigger] out@[j]).0@),
        decreases fs@.len() - i,
    {
        proof {
            crate::json::lemma_views_of_fields_index(fs@, i as int);
            let pre = vs.subrange(0, i as int);
            let post = vs.subrange(0, i as int + 1);
            assert(post.subrange(0, post.len() - 1) =~= pre);
            assert(post[post.len() - 1] == vs[i as int]);
            assert(post =~= pre.push(vs[i as int]));
            lemma_obj_get_snoc(pre, vs[i as int]);
        }
        let ghost out_before = out@;
        let n = match &fs[i].1 {
            JsonValue::Num(n) => *n,
            _ => {
                proof {
                    assert(!((vs[i as int].1) is Num));
                    assert(!all_nums(vs));
                }
                return None;
            },
        };
        match find_key(&out, &fs[i].0) {
            Some(_) => {},
            None => {
                let ghost out0 = out@;
                out.push((fs[i].0.clone(), n));
                proof {
                    crate::server::stdio::lemma_map_get_push(
                        out0,
                        out@[out@.len() - 1],
                    );
                    if crate::json::wf_fields(vs) {
                        crate::json::lemma_wf_fields_index(vs, i as int);
                        assert forall|j: int| 0 <= j < out@.len() implies wf_string(
                            (#[trigger] out@[j]).0@,
                        ) by {
                            if j < out0.len() {
                                assert(out@[j] == out0[j]);
                            }
                        }
                    }
                }
            },
        }
        proof {
            let pre = vs.subrange(0, i as int);
            let post = vs.subrange(0, i as int + 1);
            assert forall|k: Seq<char>|
                #![trigger map_get(out@, k)]
                map_get(out@, k) == num_of_field(obj_get(post, k)) by {
                assert(obj_get(post, k) == obj_get(pre.push(vs[i as int]), k));
                assert(map_get(out_before, k) == num_of_field(obj_get(pre, k)));
                crate::json::lemma_obj_get_is_entry(pre, k);
                match obj_get(pre, k) {
                    Some(v) => {
                        let j = choose|j: int|
                            0 <= j < pre.len() && #[trigger] pre[j].0 == k && pre[j].1 == v;
                        assert(pre[j] == vs[j]);
                        assert(v is Num);
                    },
                    None => {},
                }
                if out@.len() != out_before.len() {
                    assert(map_get(out@, k) == map_get(
                        out_before.push(out@[out@.len() - 1]),
                        k,
                    ));
                }
            }
        }
        i += 1;
    }
    proof {
        assert(vs.subrange(0, vs.len() as int) =~= vs);
    }
    Some(out)
}

/// Everything the counter-workload handler promises of one call, over the
/// state before, the state after, the result and the request document:
/// one disjunct per request type, each pinning the state change and the
/// reply text.
pub open spec fn response_post(
    pre: IoServerContext,
    post: IoServerContext,
    r: Result<String, MaelstromError>,
    req: JsonVal,
) -> bool {
    match r {
        Ok(s) => envelope_spec(req) matches Some((src, dest, mid, irt, content)) && {
            let reply_dest = if src == pre.node_id@ {
                dest
            } else {
                src
            };
            let next = (pre.msg_id + 1) as u64;
            ||| (add_req_spec(content) matches Some(delta) && {
                &&& post == (IoServerContext {
                    msg_id: next,
                    counter: post.counter,
                    node_counters: post.node_counters,
                    ..pre
                })
                &&& (delta == 0 ==> post.node_counters == pre.node_counters && post.counter
                    == pre.counter)
                &&& (delta > 0 ==> map_get(post.node_counters@, pre.node_id@) == Some(
                    clamp_u64(counter_or_zero(pre.node_counters@, pre.node_id@) + delta),
                ) && (forall|k2: Seq<char>|
                    k2 != pre.node_id@ ==> map_get(post.node_counters@, k2) == map_get(
                        pre.node_counters@,
                        k2,
                    )))
                &&& s@ == encode(
                    envelope_val_spec(
                        pre.node_id@,
                        reply_dest,
                        Some(next),
                        mid,
                        add_ok_fields(),
                    ),
                )
            })
            ||| (read_req_spec(content) && {
                &&& post == (IoServerContext { msg_id: next, ..pre })
                &&& s@ == encode(
                    envelope_val_spec(
                        pre.node_id@,
                        reply_dest,
                        Some(next),
                        mid,
                        read_ok_fields(pre.counter),
                    ),
                )
            })
            ||| (counter_sync_req_spec(content) matches Some(mfs) && {
                &&& post == (IoServerContext {
                    counter: post.counter,
                    node_counters: post.node_counters,
                    ..pre
                })
                &&& (forall|k: Seq<char>|
                    #![trigger map_get(post.node_counters@, k)]
                    map_get(post.node_counters@, k) == counters_merged_view(
                        pre.node_counters@,
                        mfs,
                        pre.node_id@,
                        k,
                    ))
                &&& post.node_counters@.len() >= pre.node_counters@.len()
                &&& (forall|i: int|
                    0 <= i < pre.node_counters@.len() ==> (#[trigger] post.node_counters@[i]).0
                        == pre.node_counters@[i].0)
                &&& (forall|i: int|
                    pre.node_counters@.len() <= i < post.node_counters@.len() ==> ((
                    #[trigger] post.node_counters@[i]).0@ != pre.node_id@ && map_get(
                        pre.node_counters@,
                        post.node_counters@[i].0@,
                    ) is None && num_of_field(obj_get(mfs, post.node_counters@[i].0@)) == Some(
                        post.node_counters@[i].1,
                    )))
                &&& s@.len() == 0
            })
        },
        Err(e) => {
            &&& post == pre
            &&& e is SerdeJsonError
            &&& match envelope_spec(req) {
                None => true,
                Some((src, dest, mid, irt, content)) => {
                    &&& add_req_spec(content) is None
                    &&& !read_req_spec(content)
                    &&& counter_sync_req_spec(content) is None
                },
            }
        },
    }
}

impl Handler {
    /// Applies an `add`: the local total rises by the delta, and for a
    /// positive delta so does this node's own contribution.
    pub fn process_add(ctx: &mut IoServerContext, body: &AddBody) -> (r: Result<
        ResponseBody,
        MaelstromError,
    >)
        requires
            old(ctx).wf(),
        ensures
            final(ctx).wf(),
            r == Ok::<ResponseBody, MaelstromError>(ResponseBody::AddOk),
            *final(ctx) == (IoServerContext {
                counter: final(ctx).counter,
                node_counters: final(ctx).node_counters,
                ..*old(ctx)
            }),
            body.delta == 0 ==> final(ctx).node_counters == old(ctx).node_counters
                && final(ctx).counter == old(ctx).counter,
            body.delta > 0 ==> map_get(final(ctx).node_counters@, old(ctx).node_id@) == Some(
                clamp_u64(
                    counter_or_zero(old(ctx).node_counters@, old(ctx).node_id@) + body.delta,
                ),
            ) && (forall|k2: Seq<char>|
                k2 != old(ctx).node_id@ ==> map_get(final(ctx).node_counters@, k2) == map_get(
                    old(ctx).node_counters@,
                    k2,
                )),
    {
        proof {
            lemma_sum_counters_nonneg(ctx.node_counters@);
        }
        ctx.update_local_node_counter(body.delta);
        let node = ctx.node().clone();
        if body.delta > 0 {
            let ghost e = counter_or_zero(ctx.node_counters@, ctx.node_id@);
            proof {
                lemma_map_get_is_entry(ctx.node_counters@, ctx.node_id@);
                match map_get(ctx.node_counters@, ctx.node_id@) {
                    Some(v) => {
                        let j = choose|j: int|
                            0 <= j < ctx.node_counters@.len()
                                && #[trigger] ctx.node_counters@[j].0@ == ctx.node_id@
                                && ctx.node_counters@[j].1 == v;
                        lemma_sum_entry(ctx.node_counters@, j);
                    },
                    None => {},
                }
            }
            ctx.add_node_counter(node, body.delta);
        }
        Ok(ResponseBody::AddOk)
    }

    /// Reads the counter total.
    pub fn process_read(ctx: &IoServerContext) -> (r: Result<ResponseBody, MaelstromError>)
        ensures
            r == Ok::<ResponseBody, MaelstromError>(
                ResponseBody::ReadOk(ReadOkBody { value: ctx.counter }),
            ),
    {
        let value = ctx.counter();
        Ok(ResponseBody::ReadOk(ReadOkBody { value }))
    }

    /// Merges a peer's reported vector by per-key maximum, leaving this
    /// node's own entry alone, and raises the total to the new sum.
    pub fn process_sync(ctx: &mut IoServerContext, new_counters: NodeCounters) -> (r: Result<
        String,
        MaelstromError,
    >)
        requires
            old(ctx).wf(),
            distinct_keys(new_counters@),
            forall|i: int|
                0 <= i < new_counters@.len() ==> wf_string((#[trigger] new_counters@[i]).0@),
        ensures
            final(ctx).wf(),
            r matches Ok(s) && s@.len() == 0,
            *final(ctx) == (IoServerContext {
                counter: final(ctx).counter,
                node_counters: final(ctx).node_counters,
                ..*old(ctx)
            }),
            forall|k: Seq<char>|
                #![trigger map_get(final(ctx).node_counters@, k)]
                map_get(final(ctx).node_counters@, k) == counters_merged(
                    old(ctx).node_counters@,
                    new_counters@,
                    old(ctx).node_id@,
                    k,
                ),
            final(ctx).node_counters@ == crate::server::stdio::merged_counters_vec(
                old(ctx).node_counters@,
                new_counters@,
                old(ctx).node_id@,
            ),
    {
        ctx.update_all_node_counters(new_counters);
        let max_neighbor_counter = ctx.max_node_counter();
        let _ = ctx.cas_local_node_counter(max_neighbor_counter);
        Ok(String::new())
    }

    /// See [`response_post`] for everything this promises.
    ///
    /// Routes one counter-workload request: `add` and `read` get their
    /// replies; `sync_counter` is merged and answered with nothing at all.
    pub fn response(ctx: &mut IoServerContext, req: &JsonValue) -> (r: Result<
        String,
        MaelstromError,
    >)
        requires
            old(ctx).wf(),
            wf_val(req@),
            old(ctx).msg_id < u64::MAX,
        ensures
            final(ctx).wf(),
            response_post(*old(ctx), *final(ctx), r, req@),
    {
        let m = match decode_envelope(req) {
            Ok(m) => m,
            Err(e) => {
                return Err(e);
            },
        };
        proof {
            if let Some((src, dest, mid, irt, content)) = envelope_spec(req@) {
                lemma_wf_obj_get(req@->Obj_0, "src"@);
                lemma_wf_obj_get(req@->Obj_0, "dest"@);
                lemma_wf_obj_get(req@->Obj_0, "body"@);
            }
        }
        let content_fields: Vec<(String, JsonValue)>;
        match &m.body.content {
            JsonValue::Obj(cfs) => {
                let tag = match obj_get_ref(cfs, "type") {
                    Some(JsonValue::Str(t)) => t.clone(),
                    _ => {
                        return Err(
                            MaelstromError::SerdeJsonError(
                                String::from_str("a request body carries a type tag"),
                            ),
                        );
                    },
                };
                proof {
                    reveal_strlit("add");
                    reveal_strlit("read");
                    reveal_strlit("sync_counter");
                    assert("add"@.len() == 3);
                    assert("read"@.len() == 4);
                    assert("sync_counter"@.len() == 12);
                    assert("add"@ != "read"@);
                    assert("add"@ != "sync_counter"@);
                    assert("read"@ != "sync_counter"@);
                }
                if str_is(&tag, "add") {
                    let delta = match obj_get_ref(cfs, "delta") {
                        Some(JsonValue::Num(n)) => *n,
                        _ => {
                            return Err(
                                MaelstromError::SerdeJsonError(
                                    String::from_str("an add request carries a delta"),
                                ),
                            );
                        },
                    };
                    let body = AddBody { delta };
                    match Self::process_add(ctx, &body) {
                        Ok(_) => {},
                        Err(_) => {
                            return Err(
                                MaelstromError::SerdeJsonError(String::from_str("unreachable")),
                            );
                        },
                    }
                    let mut fields: Vec<(String, JsonValue)> = Vec::new();
                    fields.push(
                        (String::from_str("type"), JsonValue::Str(String::from_str("add_ok"))),
                    );
                    proof {
                        lemma_views_of_fields_index(fields@, 0);
                        assert(views_of_fields(fields@) =~= add_ok_fields());
                        lemma_counter_fields_wf();
                    }
                    content_fields = fields;
                } else if str_is(&tag, "read") {
                    let b = match Self::process_read(ctx) {
                        Ok(ResponseBody::ReadOk(b)) => b,
                        _ => {
                            return Err(
                                MaelstromError::SerdeJsonError(String::from_str("unreachable")),
                            );
                        },
                    };
                    let mut fields: Vec<(String, JsonValue)> = Vec::new();
                    fields.push(
                        (String::from_str("type"), JsonValue::Str(String::from_str("read_ok"))),
                    );
                    fields.push((String::from_str("value"), JsonValue::Num(b.value)));
                    proof {
                        lemma_views_of_fields_index(fields@, 0);
                        lemma_views_of_fields_index(fields@, 1);
                        assert(views_of_fields(fields@) =~= read_ok_fields(ctx.counter));
                        lemma_counter_fields_wf();
                        assert forall|i: int|
                            0 <= i < read_ok_fields(ctx.counter).len() implies wf_string(
                            #[trigger] read_ok_fields(ctx.counter)[i].0,
                        ) && wf_val(read_ok_fields(ctx.counter)[i].1) by {}
                        crate::json::lemma_wf_fields_all(read_ok_fields(ctx.counter));
                    }
                    content_fields = fields;
                } else if str_is(&tag, "sync_counter") {
                    let nc = match obj_get_ref(cfs, "messages") {
                        Some(JsonValue::Obj(mfs)) => match decode_counters(mfs) {
                            Some(nc) => nc,
                            None => {
                                return Err(
                                    MaelstromError::SerdeJsonError(
                                        String::from_str("a counter vector holds numbers"),
                                    ),
                                );
                            },
                        },
                        _ => {
                            return Err(
                                MaelstromError::SerdeJsonError(
                                    String::from_str("a sync_counter request carries a vector"),
                                ),
                            );
                        },
                    };
                    proof {
                        match m.body.content@ {
                            JsonVal::Obj(ccfs) => {
                                lemma_wf_obj_get(req@->Obj_0, "body"@);
                                lemma_wf_obj_get(ccfs, "messages"@);
                            },
                            _ => {},
                        }
                    }
                    let ghost ncv = nc@;
                    let ghost oldnc = ctx.node_counters@;
                    let ghost mev = ctx.node_id@;
                    match Self::process_sync(ctx, nc) {
                        Ok(_) => {},
                        Err(_) => {
                            return Err(
                                MaelstromError::SerdeJsonError(String::from_str("unreachable")),
                            );
                        },
                    }
                    proof {
                        let appended = crate::server::stdio::appended_counters(
                            oldnc,
                            ncv,
                            mev,
                        );
                        crate::server::stdio::lemma_appended_fresh(oldnc, ncv, mev);
                        crate::server::stdio::lemma_appended_entries(oldnc, ncv, mev);
                        assert forall|i: int|
                            oldnc.len() <= i < ctx.node_counters@.len() implies ((
                        #[trigger] ctx.node_counters@[i]).0@ != mev && map_get(
                            oldnc,
                            ctx.node_counters@[i].0@,
                        ) is None && num_of_field(
                            obj_get(
                                match m.body.content@ {
                                    JsonVal::Obj(ccfs) => match obj_get(ccfs, "messages"@) {
                                        Some(JsonVal::Obj(mfsv)) => mfsv,
                                        _ => Seq::empty(),
                                    },
                                    _ => Seq::empty(),
                                },
                                ctx.node_counters@[i].0@,
                            ),
                        ) == Some(ctx.node_counters@[i].1)) by {
                            let j = i - oldnc.len();
                            assert(ctx.node_counters@[i] == appended[j]);
                            assert(crate::server::stdio::appended_is_reported(
                                oldnc,
                                ncv,
                                mev,
                                j,
                            ));
                            let jj = choose|jj: int|
                                0 <= jj < ncv.len() && appended[j] == #[trigger] ncv[jj];
                            assert forall|tt: int| 0 <= tt < jj implies (#[trigger] ncv[tt]).0@
                                != ncv[jj].0@ by {}
                            crate::server::stdio::lemma_map_get_first(ncv, jj);
                            assert(map_get(ncv, ncv[jj].0@) == Some(ncv[jj].1));
                        }
                    }
                    return Ok(String::new());
                } else {
                    return Err(
                        MaelstromError::SerdeJsonError(
                            String::from_str("not a counter workload request"),
                        ),
                    );
                }
            },
            _ => {
                return Err(
                    MaelstromError::SerdeJsonError(
                        String::from_str("not a counter workload request"),
                    ),
                );
            },
        }
        let ghost cfv = views_of_fields(content_fields@);
        let ghost srcv = m.src@;
        let ghost destv = m.dest@;
        let ghost midv = m.body.msg_id;
        let reply = build_reply(Request::new(m), ctx, content_fields);
        proof {
            lemma_envelope_wf(
                ctx.node_id@,
                if srcv == ctx.node_id@ {
                    destv
                } else {
                    srcv
                },
                Some(ctx.msg_id),
                midv,
                cfv,
            );
        }
        Ok(to_text(&reply))
    }
}

/// The object fields of a counter vector on the wire.
pub open spec fn counter_obj_fields(nc: Seq<(String, u64)>) -> Seq<(Seq<char>, JsonVal)> {
    Seq::new(nc.len(), |i: int| (nc[i].0@, JsonVal::Num(nc[i].1)))
}

/// The content fields of a `sync_counter` gossip request.
pub open spec fn counter_sync_fields(nc: Seq<(String, u64)>) -> Seq<(Seq<char>, JsonVal)> {
    seq![
        ("type"@, JsonVal::Str("sync_counter"@)),
        ("messages"@, JsonVal::Obj(counter_obj_fields(nc))),
    ]
}

/// Builds the content fields of a `sync_counter` gossip request.
pub fn counter_sync_fields_value(nc: &NodeCounters) -> (r: Vec<(String, JsonValue)>)
    requires
        forall|i: int| 0 <= i < nc@.len() ==> wf_string((#[trigger] nc@[i]).0@),
    ensures
        views_of_fields(r@) == counter_sync_fields(nc@),
        crate::json::wf_fields(counter_sync_fields(nc@)),
{
    let mut entries: Vec<(String, JsonValue)> = Vec::new();
    let mut k: usize = 0;
    proof {
        assert(views_of_fields(entries@) =~= counter_obj_fields(nc@.subrange(0, 0)));
    }
    while k < nc.len()
        invariant
            k <= nc@.len(),
            forall|i: int| 0 <= i < nc@.len() ==> wf_string((#[trigger] nc@[i]).0@),
            views_of_fields(entries@) == counter_obj_fields(nc@.subrange(0, k as int)),
        decreases nc@.len() - k,
    {
        let ghost e0 = entries@;
        entries.push((nc[k].0.clone(), JsonValue::Num(nc[k].1)));
        proof {
            crate::json::lemma_views_of_fields_push(e0, entries@[entries@.len() - 1]);
            assert(views_of_fields(entries@) =~= counter_obj_fields(
                nc@.subrange(0, k as int + 1),
            ));
        }
        k += 1;
    }
    proof {
        assert(nc@.subrange(0, nc@.len() as int) =~= nc@);
    }
    let mut fields: Vec<(String, JsonValue)> = Vec::new();
    fields.push((String::from_str("type"), JsonValue::Str(String::from_str("sync_counter"))));
    fields.push((String::from_str("messages"), JsonValue::Obj(entries)));
    proof {
        lemma_views_of_fields_index(fields@, 0);
        lemma_views_of_fields_index(fields@, 1);
        assert(views_of_fields(fields@) =~= counter_sync_fields(nc@));
        reveal_strlit("type");
        reveal_strlit("messages");
        reveal_strlit("sync_counter");
        assert(wf_string("type"@));
        assert(wf_string("messages"@));
        assert(wf_string("sync_counter"@));
        assert forall|i: int|
            0 <= i < counter_obj_fields(nc@).len() implies wf_string(
            #[trigger] counter_obj_fields(nc@)[i].0,
        ) && wf_val(counter_obj_fields(nc@)[i].1) by {
            assert(counter_obj_fields(nc@)[i].0 == nc@[i].0@);
        }
        crate::json::lemma_wf_fields_all(counter_obj_fields(nc@));
        assert forall|i: int|
            0 <= i < counter_sync_fields(nc@).len() implies wf_string(
            #[trigger] counter_sync_fields(nc@)[i].0,
        ) && wf_val(counter_sync_fields(nc@)[i].1) by {}
        crate::json::lemma_wf_fields_all(counter_sync_fields(nc@));
    }
    fields
}

/// Wire fields of a counter vector read back as the vector's own entries.
proof fn lemma_counter_obj_get(nc: Seq<(String, u64)>, k: Seq<char>)
    ensures
        obj_get(counter_obj_fields(nc), k) == (match map_get(nc, k) {
            Some(v) => Some(JsonVal::Num(v)),
            None => None::<JsonVal>,
        }),
    decreases nc.len(),
{
    let fs = counter_obj_fields(nc);
    if nc.len() == 0 {
        assert(fs =~= Seq::<(Seq<char>, JsonVal)>::empty());
    } else {
        assert(fs[0] == (nc[0].0@, JsonVal::Num(nc[0].1)));
        assert(fs.subrange(1, fs.len() as int) =~= counter_obj_fields(
            nc.subrange(1, nc.len() as int),
        ));
        lemma_counter_obj_get(nc.subrange(1, nc.len() as int), k);
    }
}

/// The body a counter publication sends decodes as a `sync_counter`
/// request whose vector holds exactly the sender's entries.
pub proof fn lemma_counter_request_decodes(nc: Seq<(String, u64)>, mid: u64)
    ensures
        counter_sync_req_spec(
            JsonVal::Obj(
                crate::message::body_fields_spec(counter_sync_fields(nc), Some(mid), None),
            ),
        ) matches Some(mfs) && (forall|k: Seq<char>|
            #![trigger map_get(nc, k)]
            num_of_field(obj_get(mfs, k)) == (match map_get(nc, k) {
                Some(v) => Some(v),
                None => None::<u64>,
            })),
{
    reveal_strlit("type");
    reveal_strlit("sync_counter");
    reveal_strlit("messages");
    reveal_strlit("msg_id");
    assert("type"@.len() == 4 && "messages"@.len() == 8 && "msg_id"@.len() == 6
        && "sync_counter"@.len() == 12);
    let content = counter_sync_fields(nc);
    let mids = seq![("msg_id"@, JsonVal::Num(mid))];
    let bf = crate::message::body_fields_spec(content, Some(mid), None);
    assert(bf =~= content + mids);
    crate::json::lemma_obj_get_concat(content, mids, "type"@);
    crate::json::lemma_obj_get_concat(content, mids, "messages"@);
    assert(content[0] == ("type"@, JsonVal::Str("sync_counter"@)));
    assert(obj_get(content, "type"@) == Some(JsonVal::Str("sync_counter"@)));
    let c1 = content.subrange(1, 2);
    assert(c1[0] == ("messages"@, JsonVal::Obj(counter_obj_fields(nc))));
    assert(obj_get(c1, "messages"@) == Some(JsonVal::Obj(counter_obj_fields(nc))));
    assert(obj_get(content, "messages"@) == Some(JsonVal::Obj(counter_obj_fields(nc))));
    assert(all_nums(counter_obj_fields(nc))) by {
        assert forall|i: int|
            0 <= i < counter_obj_fields(nc).len() implies (#[trigger] counter_obj_fields(
            nc,
        )[i].1) is Num by {}
    }
    assert forall|k: Seq<char>|
        #![trigger map_get(nc, k)]
        num_of_field(obj_get(counter_obj_fields(nc), k)) == (match map_get(nc, k) {
            Some(v) => Some(v),
            None => None::<u64>,
        }) by {
        lemma_counter_obj_get(nc, k);
    }
}

/// What a published counter line says to its reader: it parses back to a
/// `sync_counter` request from this node to the neighbor, carrying this
/// node's whole counter vector under a fresh message id, answering
/// nothing.
pub proof fn lemma_counter_line_readable(
    node: Seq<char>,
    dest: Seq<char>,
    mid: u64,
    nc: Seq<(String, u64)>,
    line: Seq<char>,
)
    requires
        crate::json::wf_string(node),
        crate::json::wf_string(dest),
        forall|i: int| 0 <= i < nc.len() ==> wf_string((#[trigger] nc[i]).0@),
        line == crate::json::encode(
            crate::message::envelope_val_spec(
                node,
                dest,
                Some(mid),
                None,
                counter_sync_fields(nc),
            ),
        ),
    ensures
        crate::json::parse_text_spec(line) matches Some(v) && envelope_spec(v) matches Some(
            (src2, dest2, mid2, irt2, content),
        ) && src2 == node && dest2 == dest && mid2 == Some(mid) && irt2.is_none() && (
        counter_sync_req_spec(content) matches Some(mfs) && (forall|k: Seq<char>|
            #![trigger map_get(nc, k)]
            num_of_field(obj_get(mfs, k)) == (match map_get(nc, k) {
                Some(w) => Some(w),
                None => None::<u64>,
            }))),
{
    reveal_strlit("type");
    reveal_strlit("sync_counter");
    reveal_strlit("messages");
    reveal_strlit("msg_id");
    reveal_strlit("in_reply_to");
    assert("type"@.len() == 4 && "messages"@.len() == 8 && "msg_id"@.len() == 6
        && "in_reply_to"@.len() == 11);
    assert(wf_string("type"@));
    assert(wf_string("sync_counter"@));
    assert(wf_string("messages"@));
    let content = counter_sync_fields(nc);
    assert forall|i: int|
        0 <= i < counter_obj_fields(nc).len() implies wf_string(
        #[trigger] counter_obj_fields(nc)[i].0,
    ) && wf_val(counter_obj_fields(nc)[i].1) by {
        assert(counter_obj_fields(nc)[i].0 == nc[i].0@);
    }
    crate::json::lemma_wf_fields_all(counter_obj_fields(nc));
    assert forall|i: int|
        0 <= i < content.len() implies wf_string(#[trigger] content[i].0) && wf_val(
        content[i].1,
    ) by {}
    crate::json::lemma_wf_fields_all(content);
    let env = crate::message::envelope_val_spec(node, dest, Some(mid), None, content);
    crate::message::lemma_envelope_wf(node, dest, Some(mid), None, content);
    crate::json::lemma_round_trip(env);
    assert(obj_get(content, "msg_id"@) is None) by {
        assert(content.subrange(1, 2)[0] == content[1]);
        assert(content.subrange(1, 2).subrange(1, 1) =~= Seq::<(Seq<char>, JsonVal)>::empty());
        assert(obj_get(Seq::<(Seq<char>, JsonVal)>::empty(), "msg_id"@) is None);
        assert(obj_get(content.subrange(1, 2), "msg_id"@) is None);
    }
    assert(obj_get(content, "in_reply_to"@) is None) by {
        assert(content.subrange(1, 2)[0] == content[1]);
        assert(content.subrange(1, 2).subrange(1, 1) =~= Seq::<(Seq<char>, JsonVal)>::empty());
        assert(obj_get(Seq::<(Seq<char>, JsonVal)>::empty(), "in_reply_to"@) is None);
        assert(obj_get(content.subrange(1, 2), "in_reply_to"@) is None);
    }
    crate::message::lemma_envelope_round_trip(node, dest, Some(mid), None, content);
    lemma_counter_request_decodes(nc, mid);
}

/// The fixed reply tags are well-formed field lists.
proof fn lemma_counter_fields_wf()
    ensures
        crate::json::wf_fields(add_ok_fields()),
        wf_string("type"@),
        wf_string("read_ok"@),
        wf_string("value"@),
{
    reveal_strlit("type");
    reveal_strlit("add_ok");
    reveal_strlit("read_ok");
    reveal_strlit("value");
    assert(wf_string("type"@));
    assert(wf_string("add_ok"@));
    assert(wf_string("read_ok"@));
    assert(wf_string("value"@));
    assert forall|i: int|
        0 <= i < add_ok_fields().len() implies wf_string(#[trigger] add_ok_fields()[i].0)
        && wf_val(add_ok_fields()[i].1) by {}
    crate::json::lemma_wf_fields_all(add_ok_fields());
}

} // verus!
