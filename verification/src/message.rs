//! The message envelope, reply construction, and the request-type tags.
//!
//! Every message on the wire is an envelope `{src, dest, body}`; the body is
//! an object holding a `type` tag, optionally `msg_id` and `in_reply_to`,
//! and the workload's own fields.

use crate::error::MaelstromError;
use crate::json::{
    lemma_views_of_fields_index, lemma_views_of_fields_push, obj_get, obj_get_ref,
    views_of_fields, JsonVal, JsonValue,
};
use crate::server::stdio::IoServerContext;
use vstd::prelude::*;
use vstd::string::StringExecFns;

pub mod broadcast;
pub mod echo;
pub mod g_counter;
pub mod generate;
pub mod init;

verus! {

pub type MsgId = u64;

#[derive(Debug, PartialEq, Eq)]
pub struct Message<T> {
    pub src: String,
    pub dest: String,
    pub body: Body<T>,
}

#[derive(Debug, PartialEq, Eq)]
pub struct Body<T> {
    pub msg_id: Option<MsgId>,
    pub in_reply_to: Option<MsgId>,
    pub content: T,
}

#[derive(Debug, PartialEq, Eq)]
pub struct Request<T>(pub Message<T>);

#[derive(Debug, PartialEq, Eq)]
pub struct Response<T>(pub Message<T>);

impl<T> Message<T> {
    pub fn new(src: String, dest: String, body: Body<T>) -> (r: Message<T>)
        ensures
            r.src == src,
            r.dest == dest,
            r.body == body,
    {
        Message { src, dest, body }
    }
}

impl<T> Body<T> {
    pub fn new(msg_id: Option<MsgId>, in_reply_to: Option<MsgId>, content: T) -> (r: Body<T>)
        ensures
            r.msg_id == msg_id,
            r.in_reply_to == in_reply_to,
            r.content == content,
    {
        Body { msg_id, in_reply_to, content }
    }
}

impl<T> Request<T> {
    pub fn new(m: Message<T>) -> (r: Request<T>)
        ensures
            r.0 == m,
    {
        Request(m)
    }

    pub fn content(&self) -> (r: &T)
        ensures
            r == &self.0.body.content,
    {
        &self.0.body.content
    }
}

impl<T> Response<T> {
    pub fn new(m: Message<T>) -> (r: Response<T>)
        ensures
            r.0 == m,
    {
        Response(m)
    }

    pub fn content(&self) -> (r: &T)
        ensures
            r == &self.0.body.content,
    {
        &self.0.body.content
    }
}

/// The request-type tags the node routes on.
#[derive(Debug, Clone, Copy, PartialEq, Eq, Structural)]
pub enum RequestTypes {
    Add,
    Init,
    Echo,
    Generate,
    Broadcast,
    Read,
    Topology,
    Sync,
    SyncCounter,
    SyncOk,
}

impl Default for RequestTypes {
    fn default() -> (r: RequestTypes)
        ensures
            r == RequestTypes::Add,
    {
        RequestTypes::Add
    }
}

/// The tag string of each request type.
pub open spec fn tag_spec(t: RequestTypes) -> Seq<char> {
    match t {
        RequestTypes::Add => "add"@,
        RequestTypes::Init => "init"@,
        RequestTypes::Echo => "echo"@,
        RequestTypes::Generate => "generate"@,
        RequestTypes::Broadcast => "broadcast"@,
        RequestTypes::Read => "read"@,
        RequestTypes::Topology => "topology"@,
        RequestTypes::Sync => "sync"@,
        RequestTypes::SyncCounter => "sync_counter"@,
        RequestTypes::SyncOk => "sync_ok"@,
    }
}

/// The request type a tag string names, if any.
pub open spec fn type_of_tag_spec(s: Seq<char>) -> Option<RequestTypes> {
    if s == "add"@ {
        Some(RequestTypes::Add)
    } else if s == "init"@ {
        Some(RequestTypes::Init)
    } else if s == "echo"@ {
        Some(RequestTypes::Echo)
    } else if s == "generate"@ {
        Some(RequestTypes::Generate)
    } else if s == "broadcast"@ {
        Some(RequestTypes::Broadcast)
    } else if s == "read"@ {
        Some(RequestTypes::Read)
    } else if s == "topology"@ {
        Some(RequestTypes::Topology)
    } else if s == "sync"@ {
        Some(RequestTypes::Sync)
    } else if s == "sync_counter"@ {
        Some(RequestTypes::SyncCounter)
    } else if s == "sync_ok"@ {
        Some(RequestTypes::SyncOk)
    } else {
        None
    }
}

/// Compares a string against a literal.
pub fn str_is(s: &String, lit: &str) -> (r: bool)
    ensures
        r == (s@ == lit@),
{
    let other = lit.to_owned();
    *s == other
}

/// The request type a tag string names.
pub fn type_of_tag(s: &String) -> (r: Option<RequestTypes>)
    ensures
        r == type_of_tag_spec(s@),
{
    if str_is(s, "add") {
        Some(RequestTypes::Add)
    } else if str_is(s, "init") {
        Some(RequestTypes::Init)
    } else if str_is(s, "echo") {
        Some(RequestTypes::Echo)
    } else if str_is(s, "generate") {
        Some(RequestTypes::Generate)
    } else if str_is(s, "broadcast") {
        Some(RequestTypes::Broadcast)
    } else if str_is(s, "read") {
        Some(RequestTypes::Read)
    } else if str_is(s, "topology") {
        Some(RequestTypes::Topology)
    } else if str_is(s, "sync") {
        Some(RequestTypes::Sync)
    } else if str_is(s, "sync_counter") {
        Some(RequestTypes::SyncCounter)
    } else if str_is(s, "sync_ok") {
        Some(RequestTypes::SyncOk)
    } else {
        None
    }
}

fn bad() -> (e: MaelstromError)
    ensures
        e is SerdeJsonError,
{
    MaelstromError::SerdeJsonError(
        String::from_str("a message is an object with src, dest and body"),
    )
}

/// An optional numeric field: absent is fine, present must be a number.
pub open spec fn opt_num_spec(o: Option<JsonVal>) -> Option<Option<u64>> {
    match o {
        None => Some(None),
        Some(JsonVal::Num(n)) => Some(Some(n)),
        Some(_) => None,
    }
}

/// What an envelope document denotes: source, destination, the two message
/// ids, and the whole body object.
pub open spec fn envelope_spec(v: JsonVal) -> Option<
    (Seq<char>, Seq<char>, Option<u64>, Option<u64>, JsonVal),
> {
    match v {
        JsonVal::Obj(fs) => match (obj_get(fs, "src"@), obj_get(fs, "dest"@), obj_get(
            fs,
            "body"@,
        )) {
            (Some(JsonVal::Str(src)), Some(JsonVal::Str(dest)), Some(JsonVal::Obj(bfs))) => {
                match (opt_num_spec(obj_get(bfs, "msg_id"@)), opt_num_spec(
                    obj_get(bfs, "in_reply_to"@),
                )) {
                    (Some(msg_id), Some(irt)) => Some((src, dest, msg_id, irt, JsonVal::Obj(bfs))),
                    _ => None,
                }
            },
            _ => None,
        },
        _ => None,
    }
}

fn get_opt_num(fields: &Vec<(String, JsonValue)>, key: &str) -> (r: Result<
    Option<u64>,
    MaelstromError,
>)
    ensures
        match r {
            Ok(o) => opt_num_spec(obj_get(views_of_fields(fields@), key@)) == Some(o),
            Err(e) => opt_num_spec(obj_get(views_of_fields(fields@), key@)) is None && e
                is SerdeJsonError,
        },
{
    match obj_get_ref(fields, key) {
        None => Ok(None),
        Some(v) => match v {
            JsonValue::Num(n) => Ok(Some(*n)),
            _ => Err(
                MaelstromError::SerdeJsonError(
                    String::from_str("a message id must be a number"),
                ),
            ),
        },
    }
}

/// Takes an envelope apart. The content is the whole body object; the
/// router and the workload decoders read its `type` tag and fields.
pub fn decode_envelope(v: &JsonValue) -> (r: Result<Message<JsonValue>, MaelstromError>)
    ensures
        match r {
            Ok(m) => envelope_spec(v@) == Some(
                (m.src@, m.dest@, m.body.msg_id, m.body.in_reply_to, m.body.content@),
            ),
            Err(e) => envelope_spec(v@) is None && e is SerdeJsonError,
        },
{
    match v {
        JsonValue::Obj(fields) => {
            let src = match obj_get_ref(fields, "src") {
                Some(JsonValue::Str(s)) => s.clone(),
                _ => {
                    return Err(bad());
                },
            };
            let dest = match obj_get_ref(fields, "dest") {
                Some(JsonValue::Str(s)) => s.clone(),
                _ => {
                    return Err(bad());
                },
            };
            let body = match obj_get_ref(fields, "body") {
                Some(b) => match b {
                    JsonValue::Obj(_) => b.duplicate(),
                    _ => {
                        return Err(bad());
                    },
                },
                _ => {
                    return Err(bad());
                },
            };
            let (msg_id, in_reply_to) = match &body {
                JsonValue::Obj(bfields) => {
                    let m = match get_opt_num(bfields, "msg_id") {
                        Ok(o) => o,
                        Err(e) => {
                            return Err(e);
                        },
                    };
                    let i = match get_opt_num(bfields, "in_reply_to") {
                        Ok(o) => o,
                        Err(e) => {
                            return Err(e);
                        },
                    };
                    (m, i)
                },
                _ => {
                    return Err(bad());
                },
            };
            Ok(
                Message {
                    src,
                    dest,
                    body: Body { msg_id, in_reply_to, content: body },
                },
            )
        },
        _ => Err(bad()),
    }
}

/// The fields of a reply or request body: the content's own fields, then
/// `msg_id` and `in_reply_to` where present.
pub open spec fn body_fields_spec(
    content: Seq<(Seq<char>, JsonVal)>,
    msg_id: Option<u64>,
    irt: Option<u64>,
) -> Seq<(Seq<char>, JsonVal)> {
    content + (match msg_id {
        Some(m) => seq![("msg_id"@, JsonVal::Num(m))],
        None => Seq::empty(),
    }) + (match irt {
        Some(m) => seq![("in_reply_to"@, JsonVal::Num(m))],
        None => Seq::empty(),
    })
}

/// The document form of an envelope.
pub open spec fn envelope_val_spec(
    src: Seq<char>,
    dest: Seq<char>,
    msg_id: Option<u64>,
    irt: Option<u64>,
    content: Seq<(Seq<char>, JsonVal)>,
) -> JsonVal {
    JsonVal::Obj(
        seq![
            ("src"@, JsonVal::Str(src)),
            ("dest"@, JsonVal::Str(dest)),
            ("body"@, JsonVal::Obj(body_fields_spec(content, msg_id, irt))),
        ],
    )
}

/// Taking an envelope apart inverts putting it together: the round trip
/// at the level of decoded parts, for content whose own fields do not use
/// the id names.
pub proof fn lemma_envelope_round_trip(
    src: Seq<char>,
    dest: Seq<char>,
    msg_id: Option<u64>,
    irt: Option<u64>,
    content: Seq<(Seq<char>, JsonVal)>,
)
    requires
        obj_get(content, "msg_id"@) is None,
        obj_get(content, "in_reply_to"@) is None,
    ensures
        envelope_spec(envelope_val_spec(src, dest, msg_id, irt, content)) == Some(
            (src, dest, msg_id, irt, JsonVal::Obj(body_fields_spec(content, msg_id, irt))),
        ),
{
    reveal_strlit("src");
    reveal_strlit("dest");
    reveal_strlit("body");
    reveal_strlit("msg_id");
    reveal_strlit("in_reply_to");
    assert("src"@.len() == 3 && "dest"@.len() == 4 && "body"@.len() == 4);
    assert("dest"@[0] == 'd' && "body"@[0] == 'b');
    assert("msg_id"@.len() == 6 && "in_reply_to"@.len() == 11);
    let fs = envelope_val_spec(src, dest, msg_id, irt, content)->Obj_0;
    assert(fs[0] == ("src"@, JsonVal::Str(src)));
    assert(obj_get(fs, "src"@) == Some(JsonVal::Str(src)));
    let fs1 = fs.subrange(1, 3);
    assert(fs1[0] == ("dest"@, JsonVal::Str(dest)));
    assert(fs1.subrange(1, 2) =~= fs.subrange(2, 3));
    assert(fs.subrange(2, 3)[0] == fs[2]);
    assert(obj_get(fs1, "dest"@) == Some(JsonVal::Str(dest)));
    assert(obj_get(fs, "dest"@) == Some(JsonVal::Str(dest)));
    assert(obj_get(fs, "body"@) == obj_get(fs1, "body"@));
    assert(obj_get(fs1, "body"@) == obj_get(fs.subrange(2, 3), "body"@));
    assert(fs.subrange(2, 3).subrange(1, 1) =~= Seq::<(Seq<char>, JsonVal)>::empty());
    assert(obj_get(fs, "body"@) == Some(
        JsonVal::Obj(body_fields_spec(content, msg_id, irt)),
    ));
    let mids = (match msg_id {
        Some(m) => seq![("msg_id"@, JsonVal::Num(m))],
        None => Seq::<(Seq<char>, JsonVal)>::empty(),
    });
    let irts = (match irt {
        Some(m) => seq![("in_reply_to"@, JsonVal::Num(m))],
        None => Seq::<(Seq<char>, JsonVal)>::empty(),
    });
    let bf = body_fields_spec(content, msg_id, irt);
    crate::json::lemma_obj_get_concat(content + mids, irts, "msg_id"@);
    crate::json::lemma_obj_get_concat(content, mids, "msg_id"@);
    crate::json::lemma_obj_get_concat(content + mids, irts, "in_reply_to"@);
    crate::json::lemma_obj_get_concat(content, mids, "in_reply_to"@);
    assert(obj_get(Seq::<(Seq<char>, JsonVal)>::empty(), "msg_id"@) is None);
    assert(obj_get(Seq::<(Seq<char>, JsonVal)>::empty(), "in_reply_to"@) is None);
    if mids.len() > 0 {
        assert(mids.subrange(1, 1) =~= Seq::<(Seq<char>, JsonVal)>::empty());
        assert(obj_get(mids, "msg_id"@) == Some(mids[0].1));
        assert(obj_get(mids, "in_reply_to"@) == obj_get(mids.subrange(1, 1), "in_reply_to"@));
    }
    if irts.len() > 0 {
        assert(irts.subrange(1, 1) =~= Seq::<(Seq<char>, JsonVal)>::empty());
        assert(obj_get(irts, "in_reply_to"@) == Some(irts[0].1));
        assert(obj_get(irts, "msg_id"@) == obj_get(irts.subrange(1, 1), "msg_id"@));
    }
    assert(opt_num_spec(obj_get(bf, "msg_id"@)) == Some(msg_id));
    assert(opt_num_spec(obj_get(bf, "in_reply_to"@)) == Some(irt));
}

/// An envelope built from well-formed parts is well formed.
pub proof fn lemma_envelope_wf(
    src: Seq<char>,
    dest: Seq<char>,
    msg_id: Option<u64>,
    irt: Option<u64>,
    content: Seq<(Seq<char>, JsonVal)>,
)
    requires
        crate::json::wf_string(src),
        crate::json::wf_string(dest),
        crate::json::wf_fields(content),
    ensures
        crate::json::wf_val(envelope_val_spec(src, dest, msg_id, irt, content)),
{
    reveal_strlit("src");
    reveal_strlit("dest");
    reveal_strlit("body");
    reveal_strlit("msg_id");
    reveal_strlit("in_reply_to");
    assert(crate::json::wf_string("src"@));
    assert(crate::json::wf_string("dest"@));
    assert(crate::json::wf_string("body"@));
    assert(crate::json::wf_string("msg_id"@));
    assert(crate::json::wf_string("in_reply_to"@));
    let bf = body_fields_spec(content, msg_id, irt);
    assert forall|i: int|
        0 <= i < bf.len() implies crate::json::wf_string(#[trigger] bf[i].0)
        && crate::json::wf_val(bf[i].1) by {
        if i < content.len() {
            crate::json::lemma_wf_fields_index(content, i);
            assert(bf[i] == content[i]);
        }
    }
    crate::json::lemma_wf_fields_all(bf);
    let whole = envelope_val_spec(src, dest, msg_id, irt, content)->Obj_0;
    assert forall|i: int|
        0 <= i < whole.len() implies crate::json::wf_string(#[trigger] whole[i].0)
        && crate::json::wf_val(whole[i].1) by {}
    crate::json::lemma_wf_fields_all(whole);
}

/// Builds the document form of an envelope around the content's fields.
pub fn envelope_value(
    src: String,
    dest: String,
    msg_id: Option<MsgId>,
    in_reply_to: Option<MsgId>,
    content_fields: Vec<(String, JsonValue)>,
) -> (r: JsonValue)
    ensures
        r@ == envelope_val_spec(
            src@,
            dest@,
            msg_id,
            in_reply_to,
            views_of_fields(content_fields@),
        ),
{
    let ghost cf = views_of_fields(content_fields@);
    let ghost sv = src@;
    let ghost dv = dest@;
    let mut bf = content_fields;
    if let Some(m) = msg_id {
        let ghost bf0 = bf@;
        bf.push((String::from_str("msg_id"), JsonValue::Num(m)));
        proof {
            lemma_views_of_fields_push(bf0, bf@[bf@.len() - 1]);
        }
    }
    if let Some(m) = in_reply_to {
        let ghost bf0 = bf@;
        bf.push((String::from_str("in_reply_to"), JsonValue::Num(m)));
        proof {
            lemma_views_of_fields_push(bf0, bf@[bf@.len() - 1]);
        }
    }
    proof {
        assert(views_of_fields(bf@) =~= body_fields_spec(cf, msg_id, in_reply_to));
    }
    let mut fields: Vec<(String, JsonValue)> = Vec::new();
    fields.push((String::from_str("src"), JsonValue::Str(src)));
    fields.push((String::from_str("dest"), JsonValue::Str(dest)));
    fields.push((String::from_str("body"), JsonValue::Obj(bf)));
    let r = JsonValue::Obj(fields);
    proof {
        let fs = r->Obj_0@;
        lemma_views_of_fields_index(fs, 0);
        lemma_views_of_fields_index(fs, 1);
        lemma_views_of_fields_index(fs, 2);
        let vs = views_of_fields(fs);
        assert(vs[0] == ("src"@, JsonVal::Str(sv)));
        assert(vs[1] == ("dest"@, JsonVal::Str(dv)));
        assert(vs[2] == ("body"@, JsonVal::Obj(views_of_fields(bf@))));
        assert(vs =~= envelope_val_spec(sv, dv, msg_id, in_reply_to, cf)->Obj_0);
        assert(r@ == envelope_val_spec(sv, dv, msg_id, in_reply_to, cf));
    }
    r
}

/// Builds the reply to `req`: the node answers as itself, back to the
/// requester, under a fresh message id, quoting the request's message id.
pub fn build_reply<T>(
    req: Request<T>,
    ctx: &mut IoServerContext,
    content_fields: Vec<(String, JsonValue)>,
) -> (r: JsonValue)
    requires
        old(ctx).msg_id < u64::MAX,
    ensures
        *final(ctx) == (IoServerContext {
            msg_id: (old(ctx).msg_id + 1) as u64,
            ..*old(ctx)
        }),
        r@ == envelope_val_spec(
            old(ctx).node_id@,
            if req.0.src@ == old(ctx).node_id@ {
                req.0.dest@
            } else {
                req.0.src@
            },
            Some((old(ctx).msg_id + 1) as u64),
            req.0.body.msg_id,
            views_of_fields(content_fields@),
        ),
{
    let node_id = ctx.node().clone();
    let msg_id = ctx.next_msg_id();
    let Request(m) = req;
    let dest = if m.src.eq(&node_id) {
        m.dest
    } else {
        m.src
    };
    envelope_value(node_id, dest, Some(msg_id), m.body.msg_id, content_fields)
}

/// Builds a node-initiated request toward `dest` under a fresh message id;
/// it answers nothing, so it carries no `in_reply_to`.
pub fn send_request(
    dest: String,
    ctx: &mut IoServerContext,
    content_fields: Vec<(String, JsonValue)>,
) -> (r: JsonValue)
    requires
        old(ctx).msg_id < u64::MAX,
    ensures
        *final(ctx) == (IoServerContext {
            msg_id: (old(ctx).msg_id + 1) as u64,
            ..*old(ctx)
        }),
        r@ == envelope_val_spec(
            old(ctx).node_id@,
            dest@,
            Some((old(ctx).msg_id + 1) as u64),
            None,
            views_of_fields(content_fields@),
        ),
{
    let src = ctx.node().clone();
    let msg_id = ctx.next_msg_id();
    envelope_value(src, dest, Some(msg_id), None, content_fields)
}

} // verus!
