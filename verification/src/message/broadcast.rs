//! The `broadcast` workload: saving broadcast values, handing them out
//! sorted, taking over the harness topology, and merging `sync` gossip.

use crate::error::MaelstromError;
use crate::json::{
    encode, lemma_views_of_fields_index, lemma_views_of_items_push, lemma_wf_obj_get, obj_get,
    obj_get_ref, to_text, views_of_fields, views_of_items, wf_string, wf_val, JsonVal, JsonValue,
};
use crate::message::init::strs_of;
use crate::message::{
    build_reply, decode_envelope, envelope_spec, envelope_val_spec, lemma_envelope_wf, str_is,
    Request,
};
use crate::server::stdio::{
    dedup_names, distinct_names, has_name, lemma_dedup_names, map_get, map_view, IoServerContext,
    NumericMessage,
};
use crate::sorted::{lemma_sort, sort_dedup, sort_spec, sorted_unique};
use vstd::prelude::*;
use vstd::string::StringExecFns;

verus! {

#[derive(Debug, PartialEq, Eq)]
pub enum RequestBody {
    Broadcast(Body),
    Read,
    Topology(TopologyBody),
    Sync(SyncBody),
}

#[derive(Debug, PartialEq, Eq)]
pub enum ResponseBody {
    BroadcastOk,
    ReadOk(ReadOkBody),
    TopologyOk,
}

#[derive(Debug, PartialEq, Eq)]
pub struct Body {
    pub message: NumericMessage,
}

#[derive(Debug, PartialEq, Eq)]
pub struct SyncBody {
    pub messages: Vec<NumericMessage>,
}

#[derive(Debug, PartialEq, Eq)]
pub struct MessageBody {
    pub messages: String,
}

#[derive(Debug, PartialEq, Eq)]
pub struct TopologyBody {
    pub topology: Vec<(String, Vec<String>)>,
}

#[derive(Debug, PartialEq, Eq)]
pub struct ReadOkBody {
    pub messages: Vec<NumericMessage>,
}

#[derive(Debug, PartialEq, Eq)]
pub struct SyncOkBody {
    pub messages: Vec<NumericMessage>,
}

pub struct Handler;

/// The numbers of an array of number documents, if they all are ones.
pub open spec fn nums_of(items: Seq<JsonVal>) -> Option<Seq<u64>>
    decreases items.len(),
{
    if items.len() == 0 {
        Some(Seq::empty())
    } else {
        match nums_of(items.subrange(0, items.len() - 1)) {
            None => None,
            Some(pre) => match items[items.len() - 1] {
                JsonVal::Num(n) => Some(pre.push(n)),
                _ => None,
            },
        }
    }
}

/// The number documents of a list of numbers.
pub open spec fn nums_of_seq(s: Seq<u64>) -> Seq<JsonVal> {
    Seq::new(s.len(), |i: int| JsonVal::Num(s[i]))
}

/// What the `topology` field denotes: per node, its proposed neighbors.
pub open spec fn topo_of(fields: Seq<(Seq<char>, JsonVal)>) -> Option<
    Seq<(Seq<char>, Seq<Seq<char>>)>,
>
    decreases fields.len(),
{
    if fields.len() == 0 {
        Some(Seq::empty())
    } else {
        match topo_of(fields.subrange(0, fields.len() - 1)) {
            None => None,
            Some(pre) => match fields[fields.len() - 1].1 {
                JsonVal::Arr(items) => match strs_of(items) {
                    Some(ids) => Some(pre.push((fields[fields.len() - 1].0, ids))),
                    None => None,
                },
                _ => None,
            },
        }
    }
}

/// The first topology entry named `k`, if any.
pub open spec fn topo_get(t: Seq<(Seq<char>, Seq<Seq<char>>)>, k: Seq<char>) -> Option<
    Seq<Seq<char>>,
>
    decreases t.len(),
{
    if t.len() == 0 {
        None
    } else if t[0].0 == k {
        Some(t[0].1)
    } else {
        topo_get(t.subrange(1, t.len() as int), k)
    }
}

/// The view of a decoded topology table.
pub open spec fn topo_view(t: Seq<(String, Vec<String>)>) -> Seq<(Seq<char>, Seq<Seq<char>>)> {
    Seq::new(t.len(), |i: int| (t[i].0@, t[i].1.deep_view()))
}

/// The broadcast value of a `broadcast` body.
pub open spec fn broadcast_req_spec(content: JsonVal) -> Option<u64> {
    match content {
        JsonVal::Obj(cfs) => if obj_get(cfs, "type"@) == Some(JsonVal::Str("broadcast"@)) {
            match obj_get(cfs, "message"@) {
                Some(JsonVal::Num(n)) => Some(n),
                _ => None,
            }
        } else {
            None
        },
        _ => None,
    }
}

/// Whether a body is a `read` request.
pub open spec fn read_req_spec(content: JsonVal) -> bool {
    match content {
        JsonVal::Obj(cfs) => obj_get(cfs, "type"@) == Some(JsonVal::Str("read"@)),
        _ => false,
    }
}

/// The values of a `sync` body.
pub open spec fn sync_req_spec(content: JsonVal) -> Option<Seq<u64>> {
    match content {
        JsonVal::Obj(cfs) => if obj_get(cfs, "type"@) == Some(JsonVal::Str("sync"@)) {
            match obj_get(cfs, "messages"@) {
                Some(JsonVal::Arr(items)) => nums_of(items),
                _ => None,
            }
        } else {
            None
        },
        _ => None,
    }
}

/// The table of a `topology` body.
pub open spec fn topology_req_spec(content: JsonVal) -> Option<
    Seq<(Seq<char>, Seq<Seq<char>>)>,
> {
    match content {
        JsonVal::Obj(cfs) => if obj_get(cfs, "type"@) == Some(JsonVal::Str("topology"@)) {
            match obj_get(cfs, "topology"@) {
                Some(JsonVal::Obj(tfs)) => topo_of(tfs),
                _ => None,
            }
        } else {
            None
        },
        _ => None,
    }
}

pub open spec fn broadcast_ok_fields() -> Seq<(Seq<char>, JsonVal)> {
    seq![("type"@, JsonVal::Str("broadcast_ok"@))]
}

pub open spec fn topology_ok_fields() -> Seq<(Seq<char>, JsonVal)> {
    seq![("type"@, JsonVal::Str("topology_ok"@))]
}

pub open spec fn read_ok_fields(msgs: Seq<u64>) -> Seq<(Seq<char>, JsonVal)> {
    seq![("type"@, JsonVal::Str("read_ok"@)), ("messages"@, JsonVal::Arr(nums_of_seq(msgs)))]
}

fn decode_nums(items: &Vec<JsonValue>) -> (r: Option<Vec<u64>>)
    ensures
        match r {
            Some(v) => nums_of(views_of_items(items@)) == Some(v@),
            None => nums_of(views_of_items(items@)) is None,
        },
{
    let ghost vs = views_of_items(items@);
    proof {
        crate::json::lemma_views_of_items_len(items@);
    }
    let mut out: Vec<u64> = Vec::new();
    let mut k: usize = 0;
    while k < items.len()
        invariant
            k <= items@.len(),
            vs == views_of_items(items@),
            vs.len() == items@.len(),
            nums_of(vs.subrange(0, k as int)) == Some(out@),
        decreases items@.len() - k,
    {
        proof {
            crate::json::lemma_views_of_items_index(items@, k as int);
            let pre = vs.subrange(0, k as int);
            let post = vs.subrange(0, k as int + 1);
            assert(post.subrange(0, post.len() - 1) =~= pre);
            assert(post[post.len() - 1] == vs[k as int]);
        }
        match &items[k] {
            JsonValue::Num(n) => {
                out.push(*n);
            },
            _ => {
                proof {
                    lemma_nums_of_prefix_none(vs, k as int);
                }
                return None;
            },
        }
        k += 1;
    }
    proof {
        assert(vs.subrange(0, vs.len() as int) =~= vs);
    }
    Some(out)
}

proof fn lemma_nums_of_prefix_none(vs: Seq<JsonVal>, k: int)
    requires
        0 <= k < vs.len(),
        !(vs[k] is Num),
    ensures
        nums_of(vs) is None,
    decreases vs.len(),
{
    if k < vs.len() - 1 {
        lemma_nums_of_prefix_none(vs.subrange(0, vs.len() - 1), k);
    }
}

fn decode_topology(tfs: &Vec<(String, JsonValue)>) -> (r: Option<Vec<(String, Vec<String>)>>)
    ensures
        match r {
            Some(t) => topo_of(views_of_fields(tfs@)) == Some(topo_view(t@)),
            None => topo_of(views_of_fields(tfs@)) is None,
        },
{
    let ghost vs = views_of_fields(tfs@);
    proof {
        crate::json::lemma_views_of_fields_len(tfs@);
    }
    let mut out: Vec<(String, Vec<String>)> = Vec::new();
    let mut k: usize = 0;
    proof {
        assert(topo_view(out@) =~= Seq::<(Seq<char>, Seq<Seq<char>>)>::empty());
    }
    while k < tfs.len()
        invariant
            k <= tfs@.len(),
            vs == views_of_fields(tfs@),
            vs.len() == tfs@.len(),
            out@.len() == k,
            topo_of(vs.subrange(0, k as int)) == Some(topo_view(out@)),
        decreases tfs@.len() - k,
    {
        proof {
            crate::json::lemma_views_of_fields_index(tfs@, k as int);
            let pre = vs.subrange(0, k as int);
            let post = vs.subrange(0, k as int + 1);
            assert(post.subrange(0, post.len() - 1) =~= pre);
            assert(post[post.len() - 1] == vs[k as int]);
        }
        match &tfs[k].1 {
            JsonValue::Arr(items) => {
                match crate::message::init::decode_strings(items) {
                    Some(ids) => {
                        let ghost t0 = topo_view(out@);
                        out.push((tfs[k].0.clone(), ids));
                        proof {
                            assert(topo_view(out@) =~= t0.push(
                                (out@[out@.len() - 1].0@, out@[out@.len() - 1].1.deep_view()),
                            ));
                        }
                    },
                    None => {
                        proof {
                            lemma_topo_of_prefix_none(vs, k as int);
                        }
                        return None;
                    },
                }
            },
            _ => {
                proof {
                    lemma_topo_of_prefix_none(vs, k as int);
                }
                return None;
            },
        }
        k += 1;
    }
    proof {
        assert(vs.subrange(0, vs.len() as int) =~= vs);
    }
    Some(out)
}

proof fn lemma_topo_of_prefix_none(vs: Seq<(Seq<char>, JsonVal)>, k: int)
    requires
        0 <= k < vs.len(),
        match vs[k].1 {
            JsonVal::Arr(items) => strs_of(items) is None,
            _ => true,
        },
    ensures
        topo_of(vs) is None,
    decreases vs.len(),
{
    if k < vs.len() - 1 {
        lemma_topo_of_prefix_none(vs.subrange(0, vs.len() - 1), k);
    }
}

/// A lookup in the decoded table matches a lookup in its view.
proof fn lemma_topo_get_view(t: Seq<(String, Vec<String>)>, k: Seq<char>)
    ensures
        match map_get(t, k) {
            Some(v) => topo_get(topo_view(t), k) == Some(v.deep_view()),
            None => topo_get(topo_view(t), k) is None,
        },
    decreases t.len(),
{
    if t.len() > 0 {
        assert(topo_view(t)[0] == (t[0].0@, t[0].1.deep_view()));
        if t[0].0@ == k {
        } else {
            lemma_topo_get_view(t.subrange(1, t.len() as int), k);
            assert(topo_view(t).subrange(1, topo_view(t).len() as int) =~= topo_view(
                t.subrange(1, t.len() as int),
            ));
        }
    }
}

/// Everything the broadcast-workload handler promises of one call, over
/// the state before, the state after, the result and the request document:
/// one disjunct per request type, each pinning the state change and the
/// reply text.
pub open spec fn response_post(
    pre: IoServerContext,
    post: IoServerContext,
    r: Result<String, MaelstromError>,
    req: JsonVal,
) -> bool {
    match r {
        Ok(s) => envelope_spec(req) matches Some((src, dest, mid, irt, content)) && {
            let reply_dest = if src == pre.node_id@ {
                dest
            } else {
                src
            };
            let next = (pre.msg_id + 1) as u64;
            ||| (broadcast_req_spec(content) matches Some(n) && {
                &&& post == (IoServerContext {
                    msg_id: next,
                    messages_saved: post.messages_saved,
                    messages_neighbors_have: post.messages_neighbors_have,
                    messages_queued: post.messages_queued,
                    ..pre
                })
                &&& post.messages_saved@ == crate::sorted::merge_spec(
                    pre.messages_saved@,
                    seq![n],
                )
                &&& (forall|k: Seq<char>|
                    #![trigger map_view(post.messages_neighbors_have@, k)]
                    map_view(post.messages_neighbors_have@, k) == pre.known_view_after(
                        src,
                        seq![n],
                        k,
                    ))
                &&& (forall|k: Seq<char>|
                    #![trigger map_view(post.messages_queued@, k)]
                    map_view(post.messages_queued@, k) == pre.queued_view_after(
                        src,
                        seq![n],
                        k,
                    ))
                &&& s@ == encode(
                    envelope_val_spec(
                        pre.node_id@,
                        reply_dest,
                        Some(next),
                        mid,
                        broadcast_ok_fields(),
                    ),
                )
            })
            ||| (read_req_spec(content) && {
                &&& post == (IoServerContext { msg_id: next, ..pre })
                &&& s@ == encode(
                    envelope_val_spec(
                        pre.node_id@,
                        reply_dest,
                        Some(next),
                        mid,
                        read_ok_fields(pre.messages_saved@),
                    ),
                )
            })
            ||| (topology_req_spec(content) matches Some(topo) && {
                &&& post == (IoServerContext {
                    msg_id: next,
                    neighbors: post.neighbors,
                    ..pre
                })
                &&& match topo_get(topo, pre.node_id@) {
                    Some(ids) => distinct_names(post.neighbors@) && (forall|k: Seq<char>|
                        #[trigger] has_name(post.neighbors@, k) <==> (k != pre.node_id@
                            && ids.contains(k))),
                    None => post.neighbors == pre.neighbors,
                }
                &&& s@ == encode(
                    envelope_val_spec(
                        pre.node_id@,
                        reply_dest,
                        Some(next),
                        mid,
                        topology_ok_fields(),
                    ),
                )
            })
            ||| (sync_req_spec(content) matches Some(msgs) && {
                &&& post == (IoServerContext {
                    messages_saved: post.messages_saved,
                    messages_neighbors_have: post.messages_neighbors_have,
                    messages_queued: post.messages_queued,
                    ..pre
                })
                &&& post.messages_saved@ == crate::sorted::merge_spec(
                    pre.messages_saved@,
                    sort_spec(msgs),
                )
                &&& (forall|k: Seq<char>|
                    #![trigger map_view(post.messages_neighbors_have@, k)]
                    map_view(post.messages_neighbors_have@, k) == pre.known_view_after(
                        src,
                        sort_spec(msgs),
                        k,
                    ))
                &&& (forall|k: Seq<char>|
                    #![trigger map_view(post.messages_queued@, k)]
                    map_view(post.messages_queued@, k) == pre.queued_view_after(
                        src,
                        sort_spec(msgs),
                        k,
                    ))
                &&& s@.len() == 0
            })
        },
        Err(e) => {
            &&& post == pre
            &&& e is SerdeJsonError
            &&& match envelope_spec(req) {
                None => true,
                Some((src, dest, mid, irt, content)) => {
                    &&& broadcast_req_spec(content) is None
                    &&& !read_req_spec(content)
                    &&& topology_req_spec(content) is None
                    &&& sync_req_spec(content) is None
                },
            }
        },
    }
}

impl Handler {
    /// Saves the broadcast value and queues the gossip that follows.
    pub fn process_broadcast(ctx: &mut IoServerContext, source: String, body: &Body) -> (r:
        Result<ResponseBody, MaelstromError>)
        requires
            old(ctx).wf_maps(),
        ensures
            final(ctx).wf_maps(),
            r == Ok::<ResponseBody, MaelstromError>(ResponseBody::BroadcastOk),
            *final(ctx) == (IoServerContext {
                messages_saved: final(ctx).messages_saved,
                messages_neighbors_have: final(ctx).messages_neighbors_have,
                messages_queued: final(ctx).messages_queued,
                ..*old(ctx)
            }),
            final(ctx).messages_saved@ == crate::sorted::merge_spec(
                old(ctx).messages_saved@,
                seq![body.message],
            ),
            forall|k: Seq<char>|
                #![trigger map_view(final(ctx).messages_neighbors_have@, k)]
                map_view(final(ctx).messages_neighbors_have@, k) == old(ctx).known_view_after(
                    source@,
                    seq![body.message],
                    k,
                ),
            forall|k: Seq<char>|
                #![trigger map_view(final(ctx).messages_queued@, k)]
                map_view(final(ctx).messages_queued@, k) == old(ctx).queued_view_after(
                    source@,
                    seq![body.message],
                    k,
                ),
    {
        ctx.add_message(source, body.message);
        Ok(ResponseBody::BroadcastOk)
    }

    /// Reads all saved values, sorted ascending.
    pub fn process_read(ctx: &IoServerContext) -> (r: Result<ResponseBody, MaelstromError>)
        ensures
            r matches Ok(ResponseBody::ReadOk(b)) && b.messages@ == ctx.messages_saved@,
    {
        let messages = crate::sorted::copy_list(&ctx.messages_saved);
        Ok(ResponseBody::ReadOk(ReadOkBody { messages }))
    }

    /// Merges a peer's reported values and queues the gossip that follows.
    pub fn process_sync(
        ctx: &mut IoServerContext,
        source: String,
        messages: Vec<NumericMessage>,
    ) -> (r: Result<ResponseBody, MaelstromError>)
        requires
            old(ctx).wf_maps(),
        ensures
            final(ctx).wf_maps(),
            r == Ok::<ResponseBody, MaelstromError>(ResponseBody::BroadcastOk),
            *final(ctx) == (IoServerContext {
                messages_saved: final(ctx).messages_saved,
                messages_neighbors_have: final(ctx).messages_neighbors_have,
                messages_queued: final(ctx).messages_queued,
                ..*old(ctx)
            }),
            final(ctx).messages_saved@ == crate::sorted::merge_spec(
                old(ctx).messages_saved@,
                sort_spec(messages@),
            ),
            forall|k: Seq<char>|
                #![trigger map_view(final(ctx).messages_neighbors_have@, k)]
                map_view(final(ctx).messages_neighbors_have@, k) == old(ctx).known_view_after(
                    source@,
                    sort_spec(messages@),
                    k,
                ),
            forall|k: Seq<char>|
                #![trigger map_view(final(ctx).messages_queued@, k)]
                map_view(final(ctx).messages_queued@, k) == old(ctx).queued_view_after(
                    source@,
                    sort_spec(messages@),
                    k,
                ),
    {
        let sorted = sort_dedup(&messages);
        proof {
            lemma_sort(messages@);
        }
        ctx.synced(source, sorted);
        Ok(ResponseBody::BroadcastOk)
    }

    /// Takes over the proposed neighbors for this node, if the table names
    /// it.
    pub fn process_topology(ctx: &mut IoServerContext, body: &TopologyBody) -> (r: Result<
        ResponseBody,
        MaelstromError,
    >)
        requires
            old(ctx).wf_maps(),
            forall|i: int, j: int|
                0 <= i < body.topology@.len() && 0 <= j < body.topology@[i].1@.len()
                    ==> wf_string((#[trigger] body.topology@[i].1@[j])@),
        ensures
            final(ctx).wf_maps(),
            r == Ok::<ResponseBody, MaelstromError>(ResponseBody::TopologyOk),
            *final(ctx) == (IoServerContext {
                neighbors: final(ctx).neighbors,
                ..*old(ctx)
            }),
            match map_get(body.topology@, old(ctx).node_id@) {
                Some(nodes) => final(ctx).neighbors@ == dedup_names(
                    nodes@,
                    old(ctx).node_id@,
                ),
                None => final(ctx).neighbors == old(ctx).neighbors,
            },
    {
        let node = ctx.node().clone();
        match crate::server::stdio::find_key(&body.topology, &node) {
            Some(i) => {
                let nodes = &body.topology[i].1;
                proof {
                    assert forall|j: int| 0 <= j < nodes@.len() implies wf_string(
                        (#[trigger] nodes@[j])@,
                    ) by {
                        assert(nodes@[j] == body.topology@[i as int].1@[j]);
                    }
                }
                ctx.set_neighbors(nodes.as_slice());
                proof {
                    lemma_dedup_names(body.topology@[i as int].1@, old(ctx).node_id@);
                    assert forall|t: int|
                        0 <= t < ctx.neighbors@.len() implies ctx.neighbors@[t]@
                        != ctx.node_id@ by {
                        assert(has_name(ctx.neighbors@, ctx.neighbors@[t]@));
                    }
                }
            },
            None => {},
        }
        Ok(ResponseBody::TopologyOk)
    }

    /// See [`response_post`] for everything this promises.
    ///
    /// Routes one broadcast-workload request: `broadcast`, `read`,
    /// `topology` each get their reply; `sync` is merged and answered with
    /// nothing at all.
    pub fn response(ctx: &mut IoServerContext, req: &JsonValue) -> (r: Result<
        String,
        MaelstromError,
    >)
        requires
            old(ctx).wf_maps(),
            wf_val(req@),
            old(ctx).msg_id < u64::MAX,
        ensures
            final(ctx).wf_maps(),
            response_post(*old(ctx), *final(ctx), r, req@),
    {
        let m = match decode_envelope(req) {
            Ok(m) => m,
            Err(e) => {
                return Err(e);
            },
        };
        proof {
            if let Some((src, dest, mid, irt, content)) = envelope_spec(req@) {
                lemma_wf_obj_get(req@->Obj_0, "src"@);
                lemma_wf_obj_get(req@->Obj_0, "dest"@);
                lemma_wf_obj_get(req@->Obj_0, "body"@);
            }
        }
        let source = m.src.clone();
        let content_fields: Vec<(String, JsonValue)>;
        match &m.body.content {
            JsonValue::Obj(cfs) => {
                let tag = match obj_get_ref(cfs, "type") {
                    Some(JsonValue::Str(t)) => t.clone(),
                    _ => {
                        return Err(
                            MaelstromError::SerdeJsonError(
                                String::from_str("a request body carries a type tag"),
                            ),
                        );
                    },
                };
                proof {
                    reveal_strlit("broadcast");
                    reveal_strlit("read");
                    reveal_strlit("topology");
                    reveal_strlit("sync");
                    assert("broadcast"@.len() == 9);
                    assert("read"@.len() == 4);
                    assert("topology"@.len() == 8);
                    assert("sync"@.len() == 4);
                    assert("read"@[0] == 'r' && "sync"@[0] == 's');
                    assert("broadcast"@ != "read"@);
                    assert("broadcast"@ != "topology"@);
                    assert("broadcast"@ != "sync"@);
                    assert("read"@ != "topology"@);
                    assert("read"@ != "sync"@);
                    assert("topology"@ != "sync"@);
                }
                if str_is(&tag, "broadcast") {
                    let n = match obj_get_ref(cfs, "message") {
                        Some(JsonValue::Num(n)) => *n,
                        _ => {
                            return Err(
                                MaelstromError::SerdeJsonError(
                                    String::from_str("a broadcast request carries a number"),
                                ),
                            );
                        },
                    };
                    let body = Body { message: n };
                    match Self::process_broadcast(ctx, source, &body) {
                        Ok(_) => {},
                        Err(e) => {
                            return Err(
                                MaelstromError::SerdeJsonError(String::from_str("unreachable")),
                            );
                        },
                    }
                    let mut fields: Vec<(String, JsonValue)> = Vec::new();
                    fields.push(
                        (
                            String::from_str("type"),
                            JsonValue::Str(String::from_str("broadcast_ok")),
                        ),
                    );
                    proof {
                        lemma_views_of_fields_index(fields@, 0);
                        assert(views_of_fields(fields@) =~= broadcast_ok_fields());
                        lemma_ok_fields_wf();
                    }
                    content_fields = fields;
                } else if str_is(&tag, "read") {
                    let b = match Self::process_read(ctx) {
                        Ok(ResponseBody::ReadOk(b)) => b,
                        _ => {
                            return Err(
                                MaelstromError::SerdeJsonError(String::from_str("unreachable")),
                            );
                        },
                    };
                    let ghost msgs = b.messages@;
                    let mut items: Vec<JsonValue> = Vec::new();
                    let mut k: usize = 0;
                    proof {
                        assert(views_of_items(items@) =~= nums_of_seq(msgs.subrange(0, 0)));
                    }
                    while k < b.messages.len()
                        invariant
                            k <= b.messages@.len(),
                            msgs == b.messages@,
                            views_of_items(items@) == nums_of_seq(msgs.subrange(0, k as int)),
                        decreases b.messages@.len() - k,
                    {
                        let ghost i0 = items@;
                        items.push(JsonValue::Num(b.messages[k]));
                        proof {
                            lemma_views_of_items_push(i0, items@[items@.len() - 1]);
                            assert(views_of_items(items@) =~= nums_of_seq(
                                msgs.subrange(0, k as int + 1),
                            ));
                        }
                        k += 1;
                    }
                    proof {
                        assert(msgs.subrange(0, msgs.len() as int) =~= msgs);
                    }
                    let mut fields: Vec<(String, JsonValue)> = Vec::new();
                    fields.push(
                        (String::from_str("type"), JsonValue::Str(String::from_str("read_ok"))),
                    );
                    fields.push((String::from_str("messages"), JsonValue::Arr(items)));
                    proof {
                        lemma_views_of_fields_index(fields@, 0);
                        lemma_views_of_fields_index(fields@, 1);
                        assert(views_of_fields(fields@) =~= read_ok_fields(msgs));
                        lemma_ok_fields_wf();
                        assert forall|i: int|
                            0 <= i < nums_of_seq(msgs).len() implies wf_val(
                            #[trigger] nums_of_seq(msgs)[i],
                        ) by {}
                        crate::json::lemma_wf_items_all(nums_of_seq(msgs));
                        assert forall|i: int|
                            0 <= i < read_ok_fields(msgs).len() implies wf_string(
                            #[trigger] read_ok_fields(msgs)[i].0,
                        ) && wf_val(read_ok_fields(msgs)[i].1) by {}
                        crate::json::lemma_wf_fields_all(read_ok_fields(msgs));
                    }
                    content_fields = fields;
                } else if str_is(&tag, "topology") {
                    let topology = match obj_get_ref(cfs, "topology") {
                        Some(JsonValue::Obj(tfs)) => match decode_topology(tfs) {
                            Some(t) => t,
                            None => {
                                return Err(
                                    MaelstromError::SerdeJsonError(
                                        String::from_str("a topology maps nodes to name lists"),
                                    ),
                                );
                            },
                        },
                        _ => {
                            return Err(
                                MaelstromError::SerdeJsonError(
                                    String::from_str("a topology request carries a table"),
                                ),
                            );
                        },
                    };
                    let body = TopologyBody { topology };
                    let ghost nodev = ctx.node_id@;
                    proof {
                        match m.body.content@ {
                            JsonVal::Obj(ccfs) => {
                                lemma_wf_obj_get(req@->Obj_0, "body"@);
                                lemma_wf_obj_get(ccfs, "topology"@);
                                match obj_get(ccfs, "topology"@) {
                                    Some(JsonVal::Obj(tfsv)) => {
                                        lemma_topo_wf(tfsv, topo_view(body.topology@));
                                        assert forall|i: int, j: int|
                                            0 <= i < body.topology@.len() && 0 <= j
                                                < body.topology@[i].1@.len() implies wf_string(
                                            (#[trigger] body.topology@[i].1@[j])@,
                                        ) by {
                                            assert(topo_view(body.topology@)[i].1
                                                == body.topology@[i].1.deep_view());
                                            assert(body.topology@[i].1.deep_view()[j]
                                                == body.topology@[i].1@[j]@);
                                        }
                                    },
                                    _ => {},
                                }
                            },
                            _ => {},
                        }
                    }
                    match Self::process_topology(ctx, &body) {
                        Ok(_) => {},
                        Err(e) => {
                            return Err(
                                MaelstromError::SerdeJsonError(String::from_str("unreachable")),
                            );
                        },
                    }
                    proof {
                        lemma_topo_get_view(body.topology@, nodev);
                        match map_get(body.topology@, nodev) {
                            Some(nodes) => {
                                lemma_dedup_names(nodes@, nodev);
                                let idsv = nodes.deep_view();
                                assert forall|k: Seq<char>| #[trigger]
                                    has_name(ctx.neighbors@, k) <==> (k != nodev
                                        && idsv.contains(k)) by {
                                    if has_name(nodes@, k) {
                                        let i = choose|i: int|
                                            0 <= i < nodes@.len() && nodes@[i]@ == k;
                                        assert(idsv[i] == k);
                                    }
                                    if idsv.contains(k) {
                                        let i = choose|i: int|
                                            0 <= i < idsv.len() && idsv[i] == k;
                                        assert(nodes@[i]@ == k);
                                        assert(has_name(nodes@, k));
                                    }
                                }
                            },
                            None => {},
                        }
                    }
                    let mut fields: Vec<(String, JsonValue)> = Vec::new();
                    fields.push(
                        (
                            String::from_str("type"),
                            JsonValue::Str(String::from_str("topology_ok")),
                        ),
                    );
                    proof {
                        lemma_views_of_fields_index(fields@, 0);
                        assert(views_of_fields(fields@) =~= topology_ok_fields());
                        lemma_ok_fields_wf();
                    }
                    content_fields = fields;
                } else if str_is(&tag, "sync") {
                    let nums = match obj_get_ref(cfs, "messages") {
                        Some(JsonValue::Arr(items)) => match decode_nums(items) {
                            Some(v) => v,
                            None => {
                                return Err(
                                    MaelstromError::SerdeJsonError(
                                        String::from_str("a sync request lists numbers"),
                                    ),
                                );
                            },
                        },
                        _ => {
                            return Err(
                                MaelstromError::SerdeJsonError(
                                    String::from_str("a sync request lists numbers"),
                                ),
                            );
                        },
                    };
                    match Self::process_sync(ctx, source, nums) {
                        Ok(_) => {},
                        Err(e) => {
                            return Err(
                                MaelstromError::SerdeJsonError(String::from_str("unreachable")),
                            );
                        },
                    }
                    return Ok(String::new());
                } else {
                    return Err(
                        MaelstromError::SerdeJsonError(
                            String::from_str("not a broadcast workload request"),
                        ),
                    );
                }
            },
            _ => {
                return Err(
                    MaelstromError::SerdeJsonError(
                        String::from_str("not a broadcast workload request"),
                    ),
                );
            },
        }
        let ghost cfv = views_of_fields(content_fields@);
        let ghost srcv = m.src@;
        let ghost destv = m.dest@;
        let ghost midv = m.body.msg_id;
        let reply = build_reply(Request::new(m), ctx, content_fields);
        proof {
            lemma_envelope_wf(
                ctx.node_id@,
                if srcv == ctx.node_id@ {
                    destv
                } else {
                    srcv
                },
                Some(ctx.msg_id),
                midv,
                cfv,
            );
        }
        Ok(to_text(&reply))
    }
}

/// A `read` after a `broadcast` of `n` on the same node reports a sorted
/// duplicate-free list holding `n`, everything saved before, and nothing
/// else.
pub proof fn lemma_read_after_broadcast(
    o: IoServerContext,
    s: IoServerContext,
    n: u64,
    out: Seq<u64>,
)
    requires
        o.wf_maps(),
        s.messages_saved@ == crate::sorted::merge_spec(o.messages_saved@, seq![n]),
        out == s.messages_saved@,
    ensures
        out.contains(n),
        sorted_unique(out),
        forall|x: u64| o.messages_saved@.contains(x) ==> out.contains(x),
        forall|x: u64| out.contains(x) ==> o.messages_saved@.contains(x) || x == n,
{
    assert(sorted_unique(seq![n]));
    crate::sorted::lemma_merge(o.messages_saved@, seq![n]);
    assert(seq![n][0] == n);
    assert(seq![n].contains(n));
    assert forall|x: u64| out.contains(x) implies o.messages_saved@.contains(x) || x == n by {
        if seq![n].contains(x) {
            let i = choose|i: int| 0 <= i < 1 && seq![n][i] == x;
        }
    }
}

/// The content fields of a `sync` gossip request.
pub open spec fn sync_fields(msgs: Seq<u64>) -> Seq<(Seq<char>, JsonVal)> {
    seq![("type"@, JsonVal::Str("sync"@)), ("messages"@, JsonVal::Arr(nums_of_seq(msgs)))]
}

/// Builds the number documents of a list of values.
pub fn nums_value(list: &Vec<u64>) -> (r: Vec<JsonValue>)
    ensures
        views_of_items(r@) == nums_of_seq(list@),
{
    let mut items: Vec<JsonValue> = Vec::new();
    let mut k: usize = 0;
    proof {
        assert(views_of_items(items@) =~= nums_of_seq(list@.subrange(0, 0)));
    }
    while k < list.len()
        invariant
            k <= list@.len(),
            views_of_items(items@) == nums_of_seq(list@.subrange(0, k as int)),
        decreases list@.len() - k,
    {
        let ghost i0 = items@;
        items.push(JsonValue::Num(list[k]));
        proof {
            lemma_views_of_items_push(i0, items@[items@.len() - 1]);
            assert(views_of_items(items@) =~= nums_of_seq(list@.subrange(0, k as int + 1)));
        }
        k += 1;
    }
    proof {
        assert(list@.subrange(0, list@.len() as int) =~= list@);
    }
    items
}

/// Builds the content fields of a `sync` gossip request.
pub fn sync_fields_value(list: &Vec<u64>) -> (r: Vec<(String, JsonValue)>)
    ensures
        views_of_fields(r@) == sync_fields(list@),
        crate::json::wf_fields(sync_fields(list@)),
{
    let items = nums_value(list);
    let mut fields: Vec<(String, JsonValue)> = Vec::new();
    fields.push((String::from_str("type"), JsonValue::Str(String::from_str("sync"))));
    fields.push((String::from_str("messages"), JsonValue::Arr(items)));
    proof {
        lemma_views_of_fields_index(fields@, 0);
        lemma_views_of_fields_index(fields@, 1);
        assert(views_of_fields(fields@) =~= sync_fields(list@));
        reveal_strlit("type");
        reveal_strlit("messages");
        reveal_strlit("sync");
        assert(wf_string("type"@));
        assert(wf_string("messages"@));
        assert(wf_string("sync"@));
        assert forall|i: int|
            0 <= i < nums_of_seq(list@).len() implies wf_val(
            #[trigger] nums_of_seq(list@)[i],
        ) by {}
        crate::json::lemma_wf_items_all(nums_of_seq(list@));
        assert forall|i: int|
            0 <= i < sync_fields(list@).len() implies wf_string(
            #[trigger] sync_fields(list@)[i].0,
        ) && wf_val(sync_fields(list@)[i].1) by {}
        crate::json::lemma_wf_fields_all(sync_fields(list@));
    }
    fields
}

/// Reading number documents back gives the numbers they were made from.
proof fn lemma_nums_inverse(msgs: Seq<u64>)
    ensures
        nums_of(nums_of_seq(msgs)) == Some(msgs),
    decreases msgs.len(),
{
    if msgs.len() == 0 {
        assert(nums_of_seq(msgs) =~= Seq::<JsonVal>::empty());
        assert(Some(Seq::<u64>::empty()) == Some(msgs)) by {
            assert(Seq::<u64>::empty() =~= msgs);
        }
    } else {
        let pre = msgs.subrange(0, msgs.len() - 1);
        lemma_nums_inverse(pre);
        let items = nums_of_seq(msgs);
        assert(items.subrange(0, items.len() - 1) =~= nums_of_seq(pre));
        assert(items[items.len() - 1] == JsonVal::Num(msgs[msgs.len() - 1]));
        assert(pre.push(msgs[msgs.len() - 1]) =~= msgs);
    }
}

/// The body a gossip flush sends decodes as a `sync` request carrying
/// exactly the flushed values.
pub proof fn lemma_sync_request_decodes(msgs: Seq<u64>, mid: u64)
    ensures
        sync_req_spec(
            JsonVal::Obj(
                crate::message::body_fields_spec(sync_fields(msgs), Some(mid), None),
            ),
        ) == Some(msgs),
{
    reveal_strlit("type");
    reveal_strlit("sync");
    reveal_strlit("messages");
    reveal_strlit("msg_id");
    assert("type"@.len() == 4 && "messages"@.len() == 8 && "msg_id"@.len() == 6 && "sync"@.len()
        == 4);
    let content = sync_fields(msgs);
    let mids = seq![("msg_id"@, JsonVal::Num(mid))];
    let bf = crate::message::body_fields_spec(content, Some(mid), None);
    assert(bf =~= content + mids);
    crate::json::lemma_obj_get_concat(content, mids, "type"@);
    crate::json::lemma_obj_get_concat(content, mids, "messages"@);
    assert(content[0] == ("type"@, JsonVal::Str("sync"@)));
    assert(obj_get(content, "type"@) == Some(JsonVal::Str("sync"@)));
    let c1 = content.subrange(1, 2);
    assert(c1[0] == ("messages"@, JsonVal::Arr(nums_of_seq(msgs))));
    assert(obj_get(c1, "messages"@) == Some(JsonVal::Arr(nums_of_seq(msgs))));
    assert(obj_get(content, "messages"@) == Some(JsonVal::Arr(nums_of_seq(msgs))));
    lemma_nums_inverse(msgs);
}

/// What a flushed gossip line says to its reader: it parses back to a
/// `sync` request from this node to the neighbor, with the flushed values
/// and a fresh message id, answering nothing.
pub proof fn lemma_sync_line_readable(
    node: Seq<char>,
    dest: Seq<char>,
    mid: u64,
    msgs: Seq<u64>,
    line: Seq<char>,
)
    requires
        wf_string(node),
        wf_string(dest),
        line == encode(
            crate::message::envelope_val_spec(node, dest, Some(mid), None, sync_fields(msgs)),
        ),
    ensures
        crate::json::parse_text_spec(line) matches Some(v) && envelope_spec(v) matches Some(
            (src2, dest2, mid2, irt2, content),
        ) && src2 == node && dest2 == dest && mid2 == Some(mid) && irt2.is_none()
            && sync_req_spec(content) == Some(msgs),
{
    reveal_strlit("type");
    reveal_strlit("sync");
    reveal_strlit("messages");
    reveal_strlit("msg_id");
    reveal_strlit("in_reply_to");
    assert("type"@.len() == 4 && "messages"@.len() == 8 && "msg_id"@.len() == 6
        && "in_reply_to"@.len() == 11);
    assert(wf_string("type"@));
    assert(wf_string("sync"@));
    assert(wf_string("messages"@));
    let content = sync_fields(msgs);
    assert forall|i: int|
        0 <= i < nums_of_seq(msgs).len() implies wf_val(#[trigger] nums_of_seq(msgs)[i]) by {}
    crate::json::lemma_wf_items_all(nums_of_seq(msgs));
    assert forall|i: int|
        0 <= i < content.len() implies wf_string(#[trigger] content[i].0) && wf_val(
        content[i].1,
    ) by {}
    crate::json::lemma_wf_fields_all(content);
    let env = crate::message::envelope_val_spec(node, dest, Some(mid), None, content);
    crate::message::lemma_envelope_wf(node, dest, Some(mid), None, content);
    crate::json::lemma_round_trip(env);
    assert(obj_get(content, "msg_id"@) is None) by {
        assert(content.subrange(1, 2)[0] == content[1]);
        assert(content.subrange(1, 2).subrange(1, 1) =~= Seq::<(Seq<char>, JsonVal)>::empty());
        assert(obj_get(Seq::<(Seq<char>, JsonVal)>::empty(), "msg_id"@) is None);
        assert(obj_get(content.subrange(1, 2), "msg_id"@) is None);
    }
    assert(obj_get(content, "in_reply_to"@) is None) by {
        assert(content.subrange(1, 2)[0] == content[1]);
        assert(content.subrange(1, 2).subrange(1, 1) =~= Seq::<(Seq<char>, JsonVal)>::empty());
        assert(obj_get(Seq::<(Seq<char>, JsonVal)>::empty(), "in_reply_to"@) is None);
        assert(obj_get(content.subrange(1, 2), "in_reply_to"@) is None);
    }
    crate::message::lemma_envelope_round_trip(node, dest, Some(mid), None, content);
    lemma_sync_request_decodes(msgs, mid);
}

/// The names in a well-formed topology table need no escaping.
proof fn lemma_topo_wf(fs: Seq<(Seq<char>, JsonVal)>, topo: Seq<(Seq<char>, Seq<Seq<char>>)>)
    requires
        crate::json::wf_fields(fs),
        topo_of(fs) == Some(topo),
    ensures
        forall|i: int, j: int|
            0 <= i < topo.len() && 0 <= j < topo[i].1.len() ==> wf_string(
                #[trigger] topo[i].1[j],
            ),
    decreases fs.len(),
{
    if fs.len() > 0 {
        let pre = fs.subrange(0, fs.len() - 1);
        assert(crate::json::wf_fields(pre)) by {
            assert forall|i: int|
                0 <= i < pre.len() implies wf_string(#[trigger] pre[i].0) && wf_val(
                pre[i].1,
            ) by {
                crate::json::lemma_wf_fields_index(fs, i);
                assert(pre[i] == fs[i]);
            }
            crate::json::lemma_wf_fields_all(pre);
        }
        match topo_of(pre) {
            Some(pt) => {
                lemma_topo_wf(pre, pt);
                crate::json::lemma_wf_fields_index(fs, fs.len() - 1);
                match fs[fs.len() - 1].1 {
                    JsonVal::Arr(items) => {
                        match crate::message::init::strs_of(items) {
                            Some(ids) => {
                                crate::message::init::lemma_strs_wf(items, ids);
                                assert(topo == pt.push((fs[fs.len() - 1].0, ids)));
                                assert forall|i: int, j: int|
                                    0 <= i < topo.len() && 0 <= j < topo[i].1.len()
                                    implies wf_string(#[trigger] topo[i].1[j]) by {
                                    if i < pt.len() {
                                        assert(topo[i] == pt[i]);
                                    } else {
                                        assert(topo[i].1 == ids);
                                    }
                                }
                            },
                            None => {},
                        }
                    },
                    _ => {},
                }
            },
            None => {},
        }
    }
}

/// The fixed reply tags are well-formed field lists.
proof fn lemma_ok_fields_wf()
    ensures
        crate::json::wf_fields(broadcast_ok_fields()),
        crate::json::wf_fields(topology_ok_fields()),
        wf_string("read_ok"@),
        wf_string("messages"@),
        wf_string("type"@),
{
    reveal_strlit("type");
    reveal_strlit("broadcast_ok");
    reveal_strlit("topology_ok");
    reveal_strlit("read_ok");
    reveal_strlit("messages");
    assert(wf_string("type"@));
    assert(wf_string("broadcast_ok"@));
    assert(wf_string("topology_ok"@));
    assert(wf_string("read_ok"@));
    assert(wf_string("messages"@));
    assert forall|i: int|
        0 <= i < broadcast_ok_fields().len() implies wf_string(
        #[trigger] broadcast_ok_fields()[i].0,
    ) && wf_val(broadcast_ok_fields()[i].1) by {}
    crate::json::lemma_wf_fields_all(broadcast_ok_fields());
    assert forall|i: int|
        0 <= i < topology_ok_fields().len() implies wf_string(
        #[trigger] topology_ok_fields()[i].0,
    ) && wf_val(topology_ok_fields()[i].1) by {}
    crate::json::lemma_wf_fields_all(topology_ok_fields());
}

} // verus!
