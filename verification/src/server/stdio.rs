//! The shared node state and the gossip bookkeeping.
//!
//! One `IoServerContext` exists per process. Handlers mutate it under the
//! embedding program's lock; every method here states exactly what it reads
//! and changes. Maps keyed by node name are association lists with distinct
//! keys; sets of broadcast values are sorted duplicate-free lists.

use crate::message::RequestTypes;
use crate::sorted::{
    diff_spec, difference, lemma_diff, lemma_merge, lemma_take_sorted, merge, merge_spec,
    sorted_unique, take_first,
};
use vstd::prelude::*;

verus! {

pub type NumericMessage = u64;

pub type MessageList = Vec<NumericMessage>;

pub type NodeCounters = Vec<(String, NumericMessage)>;

pub type NodeMessages = Vec<(String, MessageList)>;

/// The value of the first entry named `k`, if any.
pub open spec fn map_get<V>(m: Seq<(String, V)>, k: Seq<char>) -> Option<V>
    decreases m.len(),
{
    if m.len() == 0 {
        None
    } else if m[0].0@ == k {
        Some(m[0].1)
    } else {
        map_get(m.subrange(1, m.len() as int), k)
    }
}

/// No two entries share a name.
pub open spec fn distinct_keys<V>(m: Seq<(String, V)>) -> bool {
    forall|i: int, j: int| 0 <= i < j < m.len() ==> m[i].0@ != m[j].0@
}

/// Whether some name in `nodes` reads `k`.
pub open spec fn has_name(nodes: Seq<String>, k: Seq<char>) -> bool {
    exists|i: int| 0 <= i < nodes.len() && nodes[i]@ == k
}

/// No two names in `nodes` read the same.
pub open spec fn distinct_names(nodes: Seq<String>) -> bool {
    forall|i: int, j: int| 0 <= i < j < nodes.len() ==> nodes[i]@ != nodes[j]@
}

pub proof fn lemma_map_get_none<V>(m: Seq<(String, V)>, k: Seq<char>)
    ensures
        (map_get(m, k) is None) <==> (forall|i: int| 0 <= i < m.len() ==> m[i].0@ != k),
    decreases m.len(),
{
    if m.len() > 0 {
        lemma_map_get_none(m.subrange(1, m.len() as int), k);
        let m1 = m.subrange(1, m.len() as int);
        assert forall|i: int| 0 <= i < m1.len() implies m1[i] == m[i + 1] by {}
        if map_get(m, k) is None {
            assert forall|i: int| 0 <= i < m.len() implies m[i].0@ != k by {
                if i > 0 {
                    assert(m1[i - 1] == m[i]);
                }
            }
        }
    }
}

pub proof fn lemma_map_get_first<V>(m: Seq<(String, V)>, i: int)
    requires
        0 <= i < m.len(),
        forall|t: int| 0 <= t < i ==> m[t].0@ != m[i].0@,
    ensures
        map_get(m, m[i].0@) == Some(m[i].1),
    decreases m.len(),
{
    if i > 0 {
        let m1 = m.subrange(1, m.len() as int);
        assert(m1[i - 1] == m[i]);
        assert forall|t: int| 0 <= t < i - 1 implies (#[trigger] m1[t]).0@ != m1[i - 1].0@ by {
            assert(m1[t] == m[t + 1]);
        }
        lemma_map_get_first(m1, i - 1);
    }
}

pub proof fn lemma_map_get_update<V>(m: Seq<(String, V)>, i: int, p: (String, V))
    requires
        0 <= i < m.len(),
        distinct_keys(m),
        m[i].0@ == p.0@,
    ensures
        map_get(m.update(i, p), p.0@) == Some(p.1),
        forall|k2: Seq<char>| k2 != p.0@ ==> map_get(m.update(i, p), k2) == map_get(m, k2),
        distinct_keys(m.update(i, p)),
    decreases m.len(),
{
    let m2 = m.update(i, p);
    assert(distinct_keys(m2));
    if i == 0 {
        assert(m2[0] == p);
        assert(m2.subrange(1, m2.len() as int) =~= m.subrange(1, m.len() as int));
    } else {
        assert(m2[0] == m[0]);
        assert(m[0].0@ != m[i].0@);
        assert(m2.subrange(1, m2.len() as int) =~= m.subrange(1, m.len() as int).update(
            i - 1,
            p,
        ));
        let m1 = m.subrange(1, m.len() as int);
        assert(distinct_keys(m1)) by {
            assert forall|a: int, b: int| 0 <= a < b < m1.len() implies m1[a].0@ != m1[b].0@ by {
                assert(m1[a] == m[a + 1]);
                assert(m1[b] == m[b + 1]);
            }
        }
        assert(m1[i - 1] == m[i]);
        lemma_map_get_update(m1, i - 1, p);
        assert forall|k2: Seq<char>| k2 != p.0@ implies map_get(m2, k2) == map_get(m, k2) by {
            if m[0].0@ == k2 {
                assert(map_get(m2, k2) == Some(m2[0].1));
                assert(map_get(m, k2) == Some(m[0].1));
            } else {
                assert(map_get(m2, k2) == map_get(m2.subrange(1, m2.len() as int), k2));
                assert(map_get(m, k2) == map_get(m1, k2));
                assert(map_get(m2.subrange(1, m2.len() as int), k2) == map_get(
                    m1.update(i - 1, p),
                    k2,
                ));
            }
        }
    }
}

pub proof fn lemma_map_get_push<V>(m: Seq<(String, V)>, p: (String, V))
    requires
        map_get(m, p.0@) is None,
    ensures
        map_get(m.push(p), p.0@) == Some(p.1),
        forall|k2: Seq<char>| k2 != p.0@ ==> map_get(m.push(p), k2) == map_get(m, k2),
        distinct_keys(m) ==> distinct_keys(m.push(p)),
    decreases m.len(),
{
    let m2 = m.push(p);
    lemma_map_get_none(m, p.0@);
    if m.len() == 0 {
        assert(m2[0] == p);
        assert(m2.subrange(1, m2.len() as int) =~= Seq::<(String, V)>::empty());
        assert forall|k2: Seq<char>| k2 != p.0@ implies map_get(m2, k2) == map_get(m, k2) by {
            assert(map_get(m2, k2) == map_get(m2.subrange(1, m2.len() as int), k2));
        }
    } else {
        assert(m2[0] == m[0]);
        assert(m2.subrange(1, m2.len() as int) =~= m.subrange(1, m.len() as int).push(p));
        lemma_map_get_push(m.subrange(1, m.len() as int), p);
        assert(map_get(m.subrange(1, m.len() as int), p.0@) is None) by {
            lemma_map_get_none(m.subrange(1, m.len() as int), p.0@);
            assert forall|i: int| 0 <= i < m.len() - 1 implies m.subrange(1, m.len() as int)[i].0@
                != p.0@ by {
                assert(m.subrange(1, m.len() as int)[i] == m[i + 1]);
            }
        }
        if distinct_keys(m) {
            assert forall|a: int, b: int| 0 <= a < b < m2.len() implies m2[a].0@ != m2[b].0@ by {
                if b < m.len() {
                    assert(m2[a] == m[a] && m2[b] == m[b]);
                } else {
                    assert(m2[b] == p);
                    assert(m2[a] == m[a]);
                }
            }
        }
        let m1 = m.subrange(1, m.len() as int);
        assert forall|k2: Seq<char>| k2 != p.0@ implies map_get(m2, k2) == map_get(m, k2) by {
            if m[0].0@ == k2 {
                assert(map_get(m2, k2) == Some(m2[0].1));
                assert(map_get(m, k2) == Some(m[0].1));
            } else {
                assert(map_get(m2, k2) == map_get(m2.subrange(1, m2.len() as int), k2));
                assert(map_get(m, k2) == map_get(m1, k2));
                assert(map_get(m2.subrange(1, m2.len() as int), k2) == map_get(m1.push(p), k2));
            }
        }
    }
}

/// Extending a map by one entry changes lookups only for its name, and
/// only where the name was absent.
pub proof fn lemma_map_get_snoc<V>(m: Seq<(String, V)>, p: (String, V))
    ensures
        forall|k: Seq<char>|
            #![trigger map_get(m.push(p), k)]
            map_get(m.push(p), k) == (match map_get(m, k) {
                Some(v) => Some(v),
                None => if p.0@ == k {
                    Some(p.1)
                } else {
                    None
                },
            }),
    decreases m.len(),
{
    let whole = m.push(p);
    if m.len() == 0 {
        assert(whole[0] == p);
        assert(whole.subrange(1, whole.len() as int) =~= Seq::<(String, V)>::empty());
        assert forall|k: Seq<char>|
            #![trigger map_get(whole, k)]
            map_get(whole, k) == (match map_get(m, k) {
                Some(v) => Some(v),
                None => if p.0@ == k {
                    Some(p.1)
                } else {
                    None
                },
            }) by {
            if p.0@ != k {
                assert(map_get(whole, k) == map_get(whole.subrange(1, whole.len() as int), k));
            }
        }
    } else {
        assert(whole[0] == m[0]);
        assert(whole.subrange(1, whole.len() as int) =~= m.subrange(1, m.len() as int).push(p));
        lemma_map_get_snoc(m.subrange(1, m.len() as int), p);
        assert forall|k: Seq<char>|
            #![trigger map_get(whole, k)]
            map_get(whole, k) == (match map_get(m, k) {
                Some(v) => Some(v),
                None => if p.0@ == k {
                    Some(p.1)
                } else {
                    None
                },
            }) by {
            if m[0].0@ != k {
                assert(map_get(whole, k) == map_get(whole.subrange(1, whole.len() as int), k));
                assert(map_get(whole.subrange(1, whole.len() as int), k) == map_get(
                    m.subrange(1, m.len() as int).push(p),
                    k,
                ));
                assert(map_get(m, k) == map_get(m.subrange(1, m.len() as int), k));
            }
        }
    }
}

/// Finds the first entry named `key`, if any.
pub fn find_key<V>(m: &Vec<(String, V)>, key: &String) -> (r: Option<usize>)
    ensures
        match r {
            Some(i) => i < m@.len() && m@[i as int].0@ == key@ && map_get(m@, key@) == Some(
                m@[i as int].1,
            ) && (forall|t: int| 0 <= t < i ==> m@[t].0@ != key@),
            None => map_get(m@, key@) is None,
        },
{
    let mut k: usize = 0;
    while k < m.len()
        invariant
            k <= m@.len(),
            forall|t: int| 0 <= t < k ==> m@[t].0@ != key@,
        decreases m@.len() - k,
    {
        if m[k].0.eq(key) {
            proof {
                lemma_map_get_first(m@, k as int);
            }
            return Some(k);
        }
        k += 1;
    }
    proof {
        lemma_map_get_none(m@, key@);
    }
    None
}

/// Whether some name in `nodes` reads as `key`.
pub fn names_contain(nodes: &Vec<String>, key: &String) -> (r: bool)
    ensures
        r == has_name(nodes@, key@),
{
    let mut k: usize = 0;
    while k < nodes.len()
        invariant
            k <= nodes@.len(),
            forall|t: int| 0 <= t < k ==> nodes@[t]@ != key@,
        decreases nodes@.len() - k,
    {
        if nodes[k].eq(key) {
            return true;
        }
        k += 1;
    }
    false
}

/// The list held by the first entry named `k`, as a sequence.
pub open spec fn map_view(m: Seq<(String, MessageList)>, k: Seq<char>) -> Option<Seq<u64>> {
    match map_get(m, k) {
        Some(v) => Some(v@),
        None => None,
    }
}

/// The list held by the first entry named `k`, or the empty sequence.
pub open spec fn view_or_empty(m: Seq<(String, MessageList)>, k: Seq<char>) -> Seq<u64> {
    match map_view(m, k) {
        Some(v) => v,
        None => Seq::empty(),
    }
}

/// Whether one of the first `t` names in `nodes` reads `k`.
pub open spec fn has_name_prefix(nodes: Seq<String>, t: int, k: Seq<char>) -> bool {
    exists|i: int| 0 <= i < t && i < nodes.len() && nodes[i]@ == k
}

/// What one gossip round queues for a neighbor whose known set is
/// `known_p`: the values of `saved` the neighbor lacks, padded with up to
/// `max(10, |missing|/10)` values the neighbor is already known to hold.
pub open spec fn pending_addition(saved: Seq<u64>, known_p: Seq<u64>) -> Seq<u64> {
    let missing = diff_spec(saved, known_p);
    let tenth = missing.len() as int / 10;
    let limit = if tenth < 10 {
        10int
    } else {
        tenth
    };
    let cut = if limit <= known_p.len() {
        limit
    } else {
        known_p.len() as int
    };
    merge_spec(missing, known_p.subrange(0, cut))
}

/// The sum of all counter entries, as an unbounded integer.
pub open spec fn sum_counters(m: Seq<(String, u64)>) -> int
    decreases m.len(),
{
    if m.len() == 0 {
        0
    } else {
        m[0].1 + sum_counters(m.subrange(1, m.len() as int))
    }
}

/// `v`, clamped to what a `u64` can hold.
pub open spec fn clamp_u64(v: int) -> u64 {
    if v > u64::MAX {
        u64::MAX
    } else if v < 0 {
        0
    } else {
        v as u64
    }
}

/// Which workload a node serves: it decides which request types the
/// router accepts.
#[derive(Debug, Clone, Copy, PartialEq, Eq, Structural)]
pub enum IoServerType {
    Echo,
    Broadcast,
    Gcounter,
    Generate,
    Init,
}

/// The whole shared state of one node.
pub struct IoServerContext {
    /// This node's identity; empty until `init` is accepted.
    pub node_id: String,
    /// Whether `init` has been accepted.
    pub initialized: bool,
    /// Peers this node gossips to; never contains `node_id`, never a duplicate.
    pub neighbors: Vec<String>,
    /// Per neighbor, the values queued for the next gossip flush.
    pub messages_queued: NodeMessages,
    /// Every broadcast value this node has observed.
    pub messages_saved: MessageList,
    /// The locally visible counter total.
    pub counter: u64,
    /// Per source node, that node's counter contribution.
    pub node_counters: NodeCounters,
    /// Per neighbor, the values this node has evidence the neighbor holds.
    pub messages_neighbors_have: NodeMessages,
    /// The tag of the last routed request.
    pub message_type: RequestTypes,
    /// When the last broadcast flush happened.
    pub last_sync: u64,
    /// The most recently assigned outbound message id.
    pub msg_id: u64,
}

impl IoServerContext {
    /// The structural invariant of the node's maps and lists. Names that
    /// can go onto the wire (this node's, its neighbors', queue and
    /// counter keys) need no escaping.
    pub open spec fn wf_maps(&self) -> bool {
        &&& crate::json::wf_string(self.node_id@)
        &&& (forall|i: int|
            0 <= i < self.neighbors@.len() ==> crate::json::wf_string(
                (#[trigger] self.neighbors@[i])@,
            ))
        &&& (forall|i: int|
            0 <= i < self.messages_queued@.len() ==> crate::json::wf_string(
                (#[trigger] self.messages_queued@[i]).0@,
            ))
        &&& (forall|i: int|
            0 <= i < self.node_counters@.len() ==> crate::json::wf_string(
                (#[trigger] self.node_counters@[i]).0@,
            ))
        &&& sorted_unique(self.messages_saved@)
        &&& distinct_names(self.neighbors@)
        &&& (forall|i: int| 0 <= i < self.neighbors@.len() ==> self.neighbors@[i]@
            != self.node_id@)
        &&& distinct_keys(self.messages_neighbors_have@)
        &&& (forall|i: int|
            0 <= i < self.messages_neighbors_have@.len() ==> sorted_unique(
                #[trigger] self.messages_neighbors_have@[i].1@,
            ))
        &&& (forall|i: int, x: u64|
            0 <= i < self.messages_neighbors_have@.len() && #[trigger] self.messages_neighbors_have@[i].1@.contains(
                x,
            ) ==> self.messages_saved@.contains(x))
        &&& distinct_keys(self.messages_queued@)
        &&& (forall|i: int|
            0 <= i < self.messages_queued@.len() ==> sorted_unique(
                #[trigger] self.messages_queued@[i].1@,
            ))
        &&& distinct_keys(self.node_counters@)
    }

    /// The full invariant: the maps are in shape and the running total
    /// equals the sum of the per-node contributions.
    pub open spec fn wf(&self) -> bool {
        &&& self.wf_maps()
        &&& self.counter == clamp_u64(sum_counters(self.node_counters@))
    }

    pub fn node(&self) -> (r: &String)
        ensures
            r == &self.node_id,
    {
        &self.node_id
    }

    pub fn set_node(&mut self, node: String)
        ensures
            final(self).node_id == node,
            *final(self) == (IoServerContext { node_id: node, ..*old(self) }),
    {
        self.node_id = node;
    }

    pub fn neighbors(&self) -> (r: &Vec<String>)
        ensures
            r == &self.neighbors,
    {
        &self.neighbors
    }

    pub fn message_type(&mut self, message_type: RequestTypes)
        ensures
            *final(self) == (IoServerContext { message_type, ..*old(self) }),
    {
        self.message_type = message_type;
    }

    /// Assigns the next outbound message id: ids are handed out strictly
    /// increasing, starting at 1.
    pub fn next_msg_id(&mut self) -> (r: u64)
        requires
            old(self).msg_id < u64::MAX,
        ensures
            *final(self) == (IoServerContext {
                msg_id: (old(self).msg_id + 1) as u64,
                ..*old(self)
            }),
            r == final(self).msg_id,
            r > old(self).msg_id,
    {
        self.msg_id = self.msg_id + 1;
        self.msg_id
    }

    pub fn counter(&self) -> (r: NumericMessage)
        ensures
            r == self.counter,
    {
        self.counter
    }

    pub fn set_counter(&mut self, value: NumericMessage)
        ensures
            *final(self) == (IoServerContext { counter: value, ..*old(self) }),
    {
        self.counter = value;
    }

    /// Raises the local total by `delta`, stopping at the largest
    /// representable value.
    pub fn update_local_node_counter(&mut self, delta: NumericMessage)
        ensures
            *final(self) == (IoServerContext {
                counter: clamp_u64(old(self).counter + delta),
                ..*old(self)
            }),
    {
        self.counter = self.counter.saturating_add(delta);
    }

    /// Raises the local total to at least `value` and returns the total.
    pub fn cas_local_node_counter(&mut self, value: NumericMessage) -> (r: NumericMessage)
        ensures
            *final(self) == (IoServerContext {
                counter: if value > old(self).counter {
                    value
                } else {
                    old(self).counter
                },
                ..*old(self)
            }),
            r == final(self).counter,
    {
        if value > self.counter {
            self.counter = value;
        }
        self.counter
    }

    /// The sum of all per-node contributions, clamped to a `u64`.
    pub fn max_node_counter(&mut self) -> (r: NumericMessage)
        ensures
            *final(self) == *old(self),
            r == clamp_u64(sum_counters(final(self).node_counters@)),
    {
        let mut acc: u64 = 0;
        let mut k: usize = 0;
        proof {
            assert(self.node_counters@.subrange(0, 0) =~= Seq::<(String, u64)>::empty());
        }
        while k < self.node_counters.len()
            invariant
                k <= self.node_counters@.len(),
                acc == clamp_u64(sum_counters(self.node_counters@.subrange(0, k as int))),
            decreases self.node_counters@.len() - k,
        {
            proof {
                lemma_sum_counters_snoc(self.node_counters@, k as int);
                lemma_sum_counters_nonneg(self.node_counters@.subrange(0, k as int));
            }
            acc = acc.saturating_add(self.node_counters[k].1);
            k += 1;
        }
        proof {
            assert(self.node_counters@.subrange(0, self.node_counters@.len() as int)
                =~= self.node_counters@);
        }
        acc
    }

    pub fn node_counters(&self) -> (r: &NodeCounters)
        ensures
            r == &self.node_counters,
    {
        &self.node_counters
    }

    /// What a neighbor's known set reads after a sync from `node` carrying
    /// `msgs`, evaluated on the state before.
    pub open spec fn known_view_after(self, node: Seq<char>, msgs: Seq<u64>, k: Seq<char>)
        -> Option<Seq<u64>> {
        if k == node && has_name(self.neighbors@, node) {
            Some(merge_spec(view_or_empty(self.messages_neighbors_have@, node), msgs))
        } else {
            map_view(self.messages_neighbors_have@, k)
        }
    }

    /// What a neighbor's queue reads after a sync from `node` carrying
    /// `msgs`, evaluated on the state before.
    pub open spec fn queued_view_after(self, node: Seq<char>, msgs: Seq<u64>, k: Seq<char>)
        -> Option<Seq<u64>> {
        if has_name(self.neighbors@, k) {
            let saved2 = merge_spec(self.messages_saved@, msgs);
            let known2 = match self.known_view_after(node, msgs, k) {
                Some(v) => v,
                None => Seq::empty(),
            };
            let add = pending_addition(saved2, known2);
            if add.len() > 0 {
                Some(merge_spec(view_or_empty(self.messages_queued@, k), add))
            } else {
                map_view(self.messages_queued@, k)
            }
        } else {
            map_view(self.messages_queued@, k)
        }
    }

    /// Adds `message` to the values queued for `node`; an empty list queues
    /// nothing at all.
    pub fn queue_message_to_send(&mut self, node: String, message: &MessageList)
        requires
            distinct_keys(old(self).messages_queued@),
            forall|i: int|
                0 <= i < old(self).messages_queued@.len() ==> sorted_unique(
                    #[trigger] old(self).messages_queued@[i].1@,
                ),
            forall|i: int|
                0 <= i < old(self).messages_queued@.len() ==> crate::json::wf_string(
                    (#[trigger] old(self).messages_queued@[i]).0@,
                ),
            crate::json::wf_string(node@),
            sorted_unique(message@),
        ensures
            *final(self) == (IoServerContext {
                messages_queued: final(self).messages_queued,
                ..*old(self)
            }),
            distinct_keys(final(self).messages_queued@),
            forall|i: int|
                0 <= i < final(self).messages_queued@.len() ==> sorted_unique(
                    #[trigger] final(self).messages_queued@[i].1@,
                ),
            forall|i: int|
                0 <= i < final(self).messages_queued@.len() ==> crate::json::wf_string(
                    (#[trigger] final(self).messages_queued@[i]).0@,
                ),
            message@.len() == 0 ==> final(self).messages_queued == old(self).messages_queued,
            message@.len() > 0 ==> forall|k: Seq<char>|
                #![trigger map_view(final(self).messages_queued@, k)]
                map_view(final(self).messages_queued@, k) == (if k == node@ {
                    Some(
                        merge_spec(view_or_empty(old(self).messages_queued@, node@), message@),
                    )
                } else {
                    map_view(old(self).messages_queued@, k)
                }),
    {
        if message.len() == 0 {
            return ;
        }
        match find_key(&self.messages_queued, &node) {
            Some(i) => {
                let merged = merge(&self.messages_queued[i].1, message);
                proof {
                    lemma_merge(self.messages_queued@[i as int].1@, message@);
                }
                let ghost before = self.messages_queued@;
                self.messages_queued[i].1 = merged;
                proof {
                    let p = self.messages_queued@[i as int];
                    assert(p.0 == before[i as int].0);
                    lemma_map_get_update(before, i as int, p);
                    assert forall|j: int|
                        0 <= j < self.messages_queued@.len() implies sorted_unique(
                        #[trigger] self.messages_queued@[j].1@,
                    ) && crate::json::wf_string(self.messages_queued@[j].0@) by {
                        if j != i {
                            assert(self.messages_queued@[j] == before[j]);
                        }
                    }
                }
            },
            None => {
                let empty: Vec<u64> = Vec::new();
                let merged = merge(&empty, message);
                proof {
                    lemma_merge(empty@, message@);
                }
                let ghost before = self.messages_queued@;
                self.messages_queued.push((node, merged));
                proof {
                    let p = self.messages_queued@[self.messages_queued@.len() - 1];
                    lemma_map_get_push(before, p);
                    assert forall|j: int|
                        0 <= j < self.messages_queued@.len() implies sorted_unique(
                        #[trigger] self.messages_queued@[j].1@,
                    ) && crate::json::wf_string(self.messages_queued@[j].0@) by {
                        if j < before.len() {
                            assert(self.messages_queued@[j] == before[j]);
                        }
                    }
                }
            },
        }
    }

    /// The sync-update algorithm: learns that `node` asserts it holds
    /// `messages`, saves them, and queues toward every neighbor the values
    /// it is missing, padded with a few it already holds.
    pub fn synced(&mut self, node: String, messages: MessageList)
        requires
            old(self).wf_maps(),
            sorted_unique(messages@),
        ensures
            final(self).wf_maps(),
            *final(self) == (IoServerContext {
                messages_saved: final(self).messages_saved,
                messages_neighbors_have: final(self).messages_neighbors_have,
                messages_queued: final(self).messages_queued,
                ..*old(self)
            }),
            final(self).messages_saved@ == merge_spec(old(self).messages_saved@, messages@),
            forall|k: Seq<char>|
                #![trigger map_view(final(self).messages_neighbors_have@, k)]
                map_view(final(self).messages_neighbors_have@, k) == old(self).known_view_after(
                    node@,
                    messages@,
                    k,
                ),
            forall|k: Seq<char>|
                #![trigger map_view(final(self).messages_queued@, k)]
                map_view(final(self).messages_queued@, k) == old(self).queued_view_after(
                    node@,
                    messages@,
                    k,
                ),
    {
        let ghost o = *old(self);
        // Save everything the peer reports.
        let new_saved = merge(&self.messages_saved, &messages);
        proof {
            lemma_merge(self.messages_saved@, messages@);
        }
        self.messages_saved = new_saved;
        // If the peer is a neighbor, it holds what it reported.
        if names_contain(&self.neighbors, &node) {
            match find_key(&self.messages_neighbors_have, &node) {
                Some(i) => {
                    let merged = merge(&self.messages_neighbors_have[i].1, &messages);
                    proof {
                        lemma_merge(self.messages_neighbors_have@[i as int].1@, messages@);
                    }
                    let ghost before = self.messages_neighbors_have@;
                    self.messages_neighbors_have[i].1 = merged;
                    proof {
                        let p = self.messages_neighbors_have@[i as int];
                        assert(p.0 == before[i as int].0);
                        lemma_map_get_update(before, i as int, p);
                        assert forall|j: int|
                            0 <= j < self.messages_neighbors_have@.len() implies sorted_unique(
                            #[trigger] self.messages_neighbors_have@[j].1@,
                        ) by {
                            if j != i {
                                assert(self.messages_neighbors_have@[j] == before[j]);
                            }
                        }
                    }
                },
                None => {
                    let empty: Vec<u64> = Vec::new();
                    let merged = merge(&empty, &messages);
                    proof {
                        lemma_merge(empty@, messages@);
                    }
                    let ghost before = self.messages_neighbors_have@;
                    self.messages_neighbors_have.push((node.clone(), merged));
                    proof {
                        let p = self.messages_neighbors_have@[self.messages_neighbors_have@.len()
                            - 1];
                        lemma_map_get_push(before, p);
                        assert forall|j: int|
                            0 <= j < self.messages_neighbors_have@.len() implies sorted_unique(
                            #[trigger] self.messages_neighbors_have@[j].1@,
                        ) by {
                            if j < before.len() {
                                assert(self.messages_neighbors_have@[j] == before[j]);
                            }
                        }
                    }
                },
            }
        }
        proof {
            assert forall|i: int, x: u64|
                0 <= i < self.messages_neighbors_have@.len()
                    && #[trigger] self.messages_neighbors_have@[i].1@.contains(x)
                implies self.messages_saved@.contains(x) by {
                lemma_known_subset_saved(o, *self, node@, messages@, i, x);
            }
        }
        // Queue toward every neighbor what it is missing, with the padding.
        let n = self.neighbors.len();
        let mut t: usize = 0;
        while t < n
            invariant
                o.wf_maps(),
                sorted_unique(messages@),
                t <= n,
                n == self.neighbors@.len(),
                self.node_id == o.node_id,
                self.initialized == o.initialized,
                self.neighbors == o.neighbors,
                self.counter == o.counter,
                self.node_counters == o.node_counters,
                self.message_type == o.message_type,
                self.last_sync == o.last_sync,
                self.msg_id == o.msg_id,
                self.messages_saved@ == merge_spec(o.messages_saved@, messages@),
                sorted_unique(self.messages_saved@),
                distinct_keys(self.messages_neighbors_have@),
                forall|i: int|
                    0 <= i < self.messages_neighbors_have@.len() ==> sorted_unique(
                        #[trigger] self.messages_neighbors_have@[i].1@,
                    ),
                forall|i: int, x: u64|
                    0 <= i < self.messages_neighbors_have@.len()
                        && #[trigger] self.messages_neighbors_have@[i].1@.contains(x)
                        ==> self.messages_saved@.contains(x),
                forall|k: Seq<char>|
                    #![trigger map_view(self.messages_neighbors_have@, k)]
                    map_view(self.messages_neighbors_have@, k) == o.known_view_after(
                        node@,
                        messages@,
                        k,
                    ),
                distinct_keys(self.messages_queued@),
                forall|i: int|
                    0 <= i < self.messages_queued@.len() ==> sorted_unique(
                        #[trigger] self.messages_queued@[i].1@,
                    ),
                forall|i: int|
                    0 <= i < self.messages_queued@.len() ==> crate::json::wf_string(
                        (#[trigger] self.messages_queued@[i]).0@,
                    ),
                forall|k: Seq<char>|
                    #![trigger map_view(self.messages_queued@, k)]
                    map_view(self.messages_queued@, k) == (if has_name_prefix(
                        o.neighbors@,
                        t as int,
                        k,
                    ) {
                        o.queued_view_after(node@, messages@, k)
                    } else {
                        map_view(o.messages_queued@, k)
                    }),
            decreases n - t,
        {
            let p = self.neighbors[t].clone();
            let ghost known_p: Seq<u64> = view_or_empty(self.messages_neighbors_have@, p@);
            let missing: Vec<u64>;
            let extra: Vec<u64>;
            match find_key(&self.messages_neighbors_have, &p) {
                Some(i) => {
                    proof {
                        assert(known_p == self.messages_neighbors_have@[i as int].1@);
                    }
                    missing = difference(&self.messages_saved, &self.messages_neighbors_have[i].1);
                    let mut limit = missing.len() / 10;
                    if limit < 10 {
                        limit = 10;
                    }
                    extra = take_first(&self.messages_neighbors_have[i].1, limit);
                    proof {
                        lemma_diff(self.messages_saved@, known_p);
                        lemma_take_sorted(known_p, extra@.len() as int);
                    }
                },
                None => {
                    proof {
                        assert(known_p =~= Seq::<u64>::empty());
                    }
                    let empty: Vec<u64> = Vec::new();
                    missing = difference(&self.messages_saved, &empty);
                    extra = Vec::new();
                    proof {
                        lemma_diff(self.messages_saved@, known_p);
                        assert(extra@ =~= known_p.subrange(0, 0));
                        assert(missing@ == diff_spec(self.messages_saved@, known_p));
                    }
                },
            }
            let add = merge(&missing, &extra);
            proof {
                lemma_merge(missing@, extra@);
                assert(add@ == pending_addition(self.messages_saved@, known_p));
            }
            let ghost queued_before = self.messages_queued@;
            if add.len() > 0 {
                self.queue_message_to_send(p, &add);
            }
            proof {
                let kk = o.neighbors@[t as int]@;
                assert(!has_name_prefix(o.neighbors@, t as int, kk));
                assert(map_view(queued_before, kk) == map_view(o.messages_queued@, kk));
                assert forall|k: Seq<char>|
                    #![trigger map_view(self.messages_queued@, k)]
                    map_view(self.messages_queued@, k) == (if has_name_prefix(
                        o.neighbors@,
                        t as int + 1,
                        k,
                    ) {
                        o.queued_view_after(node@, messages@, k)
                    } else {
                        map_view(o.messages_queued@, k)
                    }) by {
                    if k == kk {
                        assert(has_name(o.neighbors@, k));
                        assert(o.known_view_after(node@, messages@, k) == map_view(
                            self.messages_neighbors_have@,
                            k,
                        ));
                    } else {
                        assert(has_name_prefix(o.neighbors@, t as int + 1, k) == has_name_prefix(
                            o.neighbors@,
                            t as int,
                            k,
                        )) by {
                            if has_name_prefix(o.neighbors@, t as int + 1, k) {
                                let s = choose|s: int|
                                    0 <= s < t as int + 1 && s < o.neighbors@.len()
                                        && o.neighbors@[s]@ == k;
                                assert(s < t as int);
                            }
                        }
                    }
                }
            }
            t += 1;
        }
        proof {
            assert forall|k: Seq<char>|
                #![trigger map_view(self.messages_queued@, k)]
                map_view(self.messages_queued@, k) == o.queued_view_after(node@, messages@, k) by {
                if has_name(o.neighbors@, k) {
                    assert(has_name_prefix(o.neighbors@, n as int, k));
                } else {
                    assert(!has_name_prefix(o.neighbors@, n as int, k));
                    assert(o.queued_view_after(node@, messages@, k) == map_view(
                        o.messages_queued@,
                        k,
                    ));
                }
            }
        }
    }
}

/// After the first two steps of a sync-update, every value a neighbor is
/// known to hold is saved.
proof fn lemma_known_subset_saved(
    o: IoServerContext,
    now: IoServerContext,
    node: Seq<char>,
    msgs: Seq<u64>,
    i: int,
    x: u64,
)
    requires
        o.wf_maps(),
        sorted_unique(msgs),
        sorted_unique(o.messages_saved@),
        now.messages_saved@ == merge_spec(o.messages_saved@, msgs),
        forall|k: Seq<char>|
            #![trigger map_view(now.messages_neighbors_have@, k)]
            map_view(now.messages_neighbors_have@, k) == o.known_view_after(node, msgs, k),
        distinct_keys(now.messages_neighbors_have@),
        0 <= i < now.messages_neighbors_have@.len(),
        now.messages_neighbors_have@[i].1@.contains(x),
    ensures
        now.messages_saved@.contains(x),
{
    lemma_merge(o.messages_saved@, msgs);
    let k = now.messages_neighbors_have@[i].0@;
    assert forall|t: int| 0 <= t < i implies now.messages_neighbors_have@[t].0@ != k by {}
    lemma_map_get_first(now.messages_neighbors_have@, i);
    assert(map_view(now.messages_neighbors_have@, k) == Some(
        now.messages_neighbors_have@[i].1@,
    ));
    if k == node && has_name(o.neighbors@, node) {
        lemma_map_get_is_entry(o.messages_neighbors_have@, node);
        match map_get(o.messages_neighbors_have@, node) {
            Some(v) => {
                let j = choose|j: int|
                    0 <= j < o.messages_neighbors_have@.len()
                        && #[trigger] o.messages_neighbors_have@[j].0@ == node
                        && o.messages_neighbors_have@[j].1 == v;
                assert(sorted_unique(o.messages_neighbors_have@[j].1@));
            },
            None => {
                assert(view_or_empty(o.messages_neighbors_have@, node) =~= Seq::<u64>::empty());
            },
        }
        lemma_merge(view_or_empty(o.messages_neighbors_have@, node), msgs);
        if view_or_empty(o.messages_neighbors_have@, node).contains(x) {
            lemma_view_or_empty_contains(o, node, x);
        }
    } else {
        lemma_map_view_contains(o, k, x);
    }
}

/// A value in some known set of `o` is saved in `o`.
proof fn lemma_map_view_contains(o: IoServerContext, k: Seq<char>, x: u64)
    requires
        o.wf_maps(),
        match map_view(o.messages_neighbors_have@, k) {
            Some(v) => v.contains(x),
            None => false,
        },
    ensures
        o.messages_saved@.contains(x),
{
    lemma_map_get_is_entry(o.messages_neighbors_have@, k);
}

proof fn lemma_view_or_empty_contains(o: IoServerContext, k: Seq<char>, x: u64)
    requires
        o.wf_maps(),
        view_or_empty(o.messages_neighbors_have@, k).contains(x),
    ensures
        o.messages_saved@.contains(x),
{
    lemma_map_get_is_entry(o.messages_neighbors_have@, k);
}

/// A found entry is one of the entries.
pub proof fn lemma_map_get_is_entry<V>(m: Seq<(String, V)>, k: Seq<char>)
    ensures
        match map_get(m, k) {
            Some(v) => exists|i: int|
                0 <= i < m.len() && #[trigger] m[i].0@ == k && m[i].1 == v,
            None => true,
        },
    decreases m.len(),
{
    if m.len() > 0 {
        if m[0].0@ == k {
        } else {
            lemma_map_get_is_entry(m.subrange(1, m.len() as int), k);
            let m1 = m.subrange(1, m.len() as int);
            match map_get(m1, k) {
                Some(v) => {
                    let i = choose|i: int|
                        0 <= i < m1.len() && #[trigger] m1[i].0@ == k && m1[i].1 == v;
                    assert(m[i + 1] == m1[i]);
                },
                None => {},
            }
        }
    }
}

pub proof fn lemma_sum_counters_nonneg(m: Seq<(String, u64)>)
    ensures
        sum_counters(m) >= 0,
    decreases m.len(),
{
    if m.len() > 0 {
        lemma_sum_counters_nonneg(m.subrange(1, m.len() as int));
    }
}

pub proof fn lemma_sum_counters_snoc(m: Seq<(String, u64)>, k: int)
    requires
        0 <= k < m.len(),
    ensures
        sum_counters(m.subrange(0, k + 1)) == sum_counters(m.subrange(0, k)) + m[k].1,
    decreases k,
{
    let pre = m.subrange(0, k);
    let post = m.subrange(0, k + 1);
    assert(post[0] == m[0]);
    if k == 0 {
        assert(post.subrange(1, post.len() as int) =~= Seq::<(String, u64)>::empty());
        assert(sum_counters(Seq::<(String, u64)>::empty()) == 0);
    } else {
        lemma_sum_counters_snoc(m.subrange(1, m.len() as int), k - 1);
        let m1 = m.subrange(1, m.len() as int);
        assert(post[0] == m[0]);
        assert(post.subrange(1, post.len() as int) =~= m1.subrange(0, k));
        assert(pre[0] == m[0]);
        assert(pre.subrange(1, pre.len() as int) =~= m1.subrange(0, k - 1));
        assert(m1[k - 1] == m[k]);
    }
}

pub proof fn lemma_sum_update(m: Seq<(String, u64)>, i: int, p: (String, u64))
    requires
        0 <= i < m.len(),
    ensures
        sum_counters(m.update(i, p)) == sum_counters(m) - m[i].1 + p.1,
    decreases m.len(),
{
    let m2 = m.update(i, p);
    if i == 0 {
        assert(m2[0] == p);
        assert(m2.subrange(1, m2.len() as int) =~= m.subrange(1, m.len() as int));
    } else {
        assert(m2[0] == m[0]);
        assert(m2.subrange(1, m2.len() as int) =~= m.subrange(1, m.len() as int).update(
            i - 1,
            p,
        ));
        lemma_sum_update(m.subrange(1, m.len() as int), i - 1, p);
        assert(m.subrange(1, m.len() as int)[i - 1] == m[i]);
    }
}

pub proof fn lemma_sum_push(m: Seq<(String, u64)>, p: (String, u64))
    ensures
        sum_counters(m.push(p)) == sum_counters(m) + p.1,
    decreases m.len(),
{
    let m2 = m.push(p);
    if m.len() == 0 {
        assert(m2[0] == p);
        assert(m2.subrange(1, m2.len() as int) =~= Seq::<(String, u64)>::empty());
        assert(sum_counters(Seq::<(String, u64)>::empty()) == 0);
    } else {
        assert(m2[0] == m[0]);
        assert(m2.subrange(1, m2.len() as int) =~= m.subrange(1, m.len() as int).push(p));
        lemma_sum_push(m.subrange(1, m.len() as int), p);
    }
}

/// The sum is at least any single entry.
pub proof fn lemma_sum_entry(m: Seq<(String, u64)>, i: int)
    requires
        0 <= i < m.len(),
    ensures
        sum_counters(m) >= m[i].1,
    decreases m.len(),
{
    lemma_sum_counters_nonneg(m.subrange(1, m.len() as int));
    if i > 0 {
        lemma_sum_entry(m.subrange(1, m.len() as int), i - 1);
        assert(m.subrange(1, m.len() as int)[i - 1] == m[i]);
    }
}

/// The counter entry named `k`, or zero.
pub open spec fn counter_or_zero(m: Seq<(String, u64)>, k: Seq<char>) -> int {
    match map_get(m, k) {
        Some(v) => v as int,
        None => 0,
    }
}

/// The peers kept out of a proposed neighbor list: the node itself is
/// dropped, and of equal names only the first stays.
pub open spec fn dedup_names(nodes: Seq<String>, me: Seq<char>) -> Seq<String>
    decreases nodes.len(),
{
    if nodes.len() == 0 {
        Seq::empty()
    } else {
        let pre = dedup_names(nodes.subrange(0, nodes.len() - 1), me);
        let last = nodes[nodes.len() - 1];
        if last@ == me || has_name(nodes.subrange(0, nodes.len() - 1), last@) {
            pre
        } else {
            pre.push(last)
        }
    }
}

/// What a deduplicated list holds: every proposed name but the node's own,
/// each once.
pub proof fn lemma_dedup_names(nodes: Seq<String>, me: Seq<char>)
    ensures
        distinct_names(dedup_names(nodes, me)),
        forall|k: Seq<char>|
            #[trigger] has_name(dedup_names(nodes, me), k) <==> (k != me && has_name(nodes, k)),
    decreases nodes.len(),
{
    let r = dedup_names(nodes, me);
    if nodes.len() > 0 {
        let prefix = nodes.subrange(0, nodes.len() - 1);
        let pre = dedup_names(prefix, me);
        let last = nodes[nodes.len() - 1];
        lemma_dedup_names(prefix, me);
        assert forall|k: Seq<char>| has_name(prefix, k) implies has_name(nodes, k) by {
            let i = choose|i: int| 0 <= i < prefix.len() && prefix[i]@ == k;
            assert(nodes[i]@ == k);
        }
        assert forall|k: Seq<char>| has_name(nodes, k) implies (k == last@ || has_name(
            prefix,
            k,
        )) by {
            let i = choose|i: int| 0 <= i < nodes.len() && nodes[i]@ == k;
            if i < nodes.len() - 1 {
                assert(prefix[i]@ == k);
            }
        }
        if last@ == me || has_name(prefix, last@) {
            assert(r == pre);
            assert forall|k: Seq<char>| #[trigger] has_name(r, k) implies (k != me && has_name(
                nodes,
                k,
            )) by {}
            assert forall|k: Seq<char>| k != me && has_name(nodes, k) implies has_name(r, k) by {
                if k == last@ {
                    assert(has_name(prefix, k));
                }
            }
        } else {
            assert(r == pre.push(last));
            assert forall|k: Seq<char>| #[trigger] has_name(r, k) implies (k != me && has_name(
                nodes,
                k,
            )) by {
                let i = choose|i: int| 0 <= i < r.len() && r[i]@ == k;
                if i < pre.len() {
                    assert(pre[i]@ == k);
                    assert(has_name(pre, k));
                } else {
                    assert(r[i] == last);
                    assert(nodes[nodes.len() - 1]@ == k);
                }
            }
            assert forall|k: Seq<char>| k != me && has_name(nodes, k) implies has_name(r, k) by {
                if k == last@ {
                    assert(r[r.len() - 1]@ == k);
                } else {
                    assert(has_name(prefix, k));
                    assert(has_name(pre, k));
                    let i = choose|i: int| 0 <= i < pre.len() && pre[i]@ == k;
                    assert(r[i]@ == k);
                }
            }
            assert forall|i: int, j: int| 0 <= i < j < r.len() implies r[i]@ != r[j]@ by {
                if j == r.len() - 1 {
                    assert(r[i] == pre[i]);
                    assert(has_name(pre, pre[i]@));
                    assert(!has_name(pre, last@));
                } else {
                    assert(r[i] == pre[i] && r[j] == pre[j]);
                }
            }
        }
    }
}

impl IoServerContext {
    /// Takes over a proposed neighbor list, dropping this node's own name
    /// and duplicates.
    pub fn set_neighbors(&mut self, nodes: &[String])
        ensures
            *final(self) == (IoServerContext {
                neighbors: final(self).neighbors,
                ..*old(self)
            }),
            final(self).neighbors@ == dedup_names(nodes@, old(self).node_id@),
            (old(self).wf_maps() && (forall|i: int|
                0 <= i < nodes@.len() ==> crate::json::wf_string((#[trigger] nodes@[i])@)))
                ==> final(self).wf_maps(),
            (old(self).wf() && (forall|i: int|
                0 <= i < nodes@.len() ==> crate::json::wf_string((#[trigger] nodes@[i])@)))
                ==> final(self).wf(),
    {
        let mut out: Vec<String> = Vec::new();
        let mut k: usize = 0;
        proof {
            assert(nodes@.subrange(0, 0) =~= Seq::<String>::empty());
        }
        while k < nodes.len()
            invariant
                k <= nodes@.len(),
                out@ == dedup_names(nodes@.subrange(0, k as int), self.node_id@),
                *self == *old(self),
            decreases nodes@.len() - k,
        {
            let ghost prefix = nodes@.subrange(0, k as int);
            proof {
                lemma_dedup_names(prefix, self.node_id@);
                assert(nodes@.subrange(0, k as int + 1).subrange(0, k as int) =~= prefix);
                assert(nodes@.subrange(0, k as int + 1)[k as int] == nodes@[k as int]);
            }
            let keep = !nodes[k].eq(&self.node_id) && !names_contain(&out, &nodes[k]);
            proof {
                assert(has_name(out@, nodes@[k as int]@) == (nodes@[k as int]@ != self.node_id@
                    && has_name(prefix, nodes@[k as int]@)));
            }
            if keep {
                out.push(nodes[k].clone());
            }
            k += 1;
        }
        proof {
            assert(nodes@.subrange(0, nodes@.len() as int) =~= nodes@);
            lemma_dedup_names(nodes@, self.node_id@);
            assert forall|i: int|
                0 <= i < out@.len() implies out@[i]@ != self.node_id@ && ((forall|j: int|
                0 <= j < nodes@.len() ==> crate::json::wf_string((#[trigger] nodes@[j])@))
                ==> crate::json::wf_string(out@[i]@)) by {
                assert(dedup_names(nodes@, self.node_id@)[i]@ == out@[i]@);
                assert(has_name(dedup_names(nodes@, self.node_id@), out@[i]@));
                assert(has_name(nodes@, out@[i]@));
                let j = choose|j: int| 0 <= j < nodes@.len() && nodes@[j]@ == out@[i]@;
            }
        }
        self.neighbors = out;
    }

    /// Records a broadcast value heard from `source` and queues the gossip
    /// that follows from it, exactly as a one-value sync would.
    pub fn add_message(&mut self, source: String, message: NumericMessage)
        requires
            old(self).wf_maps(),
        ensures
            final(self).wf_maps(),
            *final(self) == (IoServerContext {
                messages_saved: final(self).messages_saved,
                messages_neighbors_have: final(self).messages_neighbors_have,
                messages_queued: final(self).messages_queued,
                ..*old(self)
            }),
            final(self).messages_saved@ == merge_spec(
                old(self).messages_saved@,
                seq![message],
            ),
            forall|k: Seq<char>|
                #![trigger map_view(final(self).messages_neighbors_have@, k)]
                map_view(final(self).messages_neighbors_have@, k) == old(self).known_view_after(
                    source@,
                    seq![message],
                    k,
                ),
            forall|k: Seq<char>|
                #![trigger map_view(final(self).messages_queued@, k)]
                map_view(final(self).messages_queued@, k) == old(self).queued_view_after(
                    source@,
                    seq![message],
                    k,
                ),
    {
        let single: MessageList = vec![message];
        proof {
            assert(single@ =~= seq![message]);
        }
        self.synced(source, single);
    }

    /// All saved broadcast values, sorted ascending without duplicates.
    #[must_use]
    pub fn messages(self) -> (r: Vec<NumericMessage>)
        ensures
            r@ == self.messages_saved@,
    {
        self.messages_saved
    }

    /// Raises the contribution of `node` by `counter` (stopping at the
    /// largest representable value) and the running total to at least the
    /// new sum of contributions.
    pub fn add_node_counter(&mut self, node: String, counter: NumericMessage)
        requires
            old(self).wf_maps(),
            crate::json::wf_string(node@),
        ensures
            final(self).wf_maps(),
            *final(self) == (IoServerContext {
                node_counters: final(self).node_counters,
                counter: final(self).counter,
                ..*old(self)
            }),
            map_get(final(self).node_counters@, node@) == Some(
                clamp_u64(counter_or_zero(old(self).node_counters@, node@) + counter),
            ),
            forall|k2: Seq<char>|
                k2 != node@ ==> map_get(final(self).node_counters@, k2) == map_get(
                    old(self).node_counters@,
                    k2,
                ),
            sum_counters(final(self).node_counters@) == sum_counters(old(self).node_counters@)
                - counter_or_zero(old(self).node_counters@, node@) + clamp_u64(
                counter_or_zero(old(self).node_counters@, node@) + counter,
            ),
            final(self).counter == (if clamp_u64(sum_counters(final(self).node_counters@))
                > old(self).counter {
                clamp_u64(sum_counters(final(self).node_counters@))
            } else {
                old(self).counter
            }),
            counter <= final(self).counter,
    {
        match find_key(&self.node_counters, &node) {
            Some(i) => {
                let v = self.node_counters[i].1.saturating_add(counter);
                let ghost before = self.node_counters@;
                self.node_counters[i].1 = v;
                proof {
                    let p = self.node_counters@[i as int];
                    assert(p.0 == before[i as int].0);
                    lemma_map_get_update(before, i as int, p);
                    lemma_sum_update(before, i as int, p);
                    assert forall|j: int|
                        0 <= j < self.node_counters@.len() implies crate::json::wf_string(
                        (#[trigger] self.node_counters@[j]).0@,
                    ) by {
                        if j != i {
                            assert(self.node_counters@[j] == before[j]);
                        }
                    }
                }
            },
            None => {
                let ghost before = self.node_counters@;
                self.node_counters.push((node, counter));
                proof {
                    let p = self.node_counters@[self.node_counters@.len() - 1];
                    lemma_map_get_push(before, p);
                    lemma_sum_push(before, p);
                    assert forall|j: int|
                        0 <= j < self.node_counters@.len() implies crate::json::wf_string(
                        (#[trigger] self.node_counters@[j]).0@,
                    ) by {
                        if j < before.len() {
                            assert(self.node_counters@[j] == before[j]);
                        }
                    }
                }
            },
        }
        proof {
            lemma_map_get_is_entry(self.node_counters@, node@);
            match map_get(self.node_counters@, node@) {
                Some(v) => {
                    let i = choose|i: int|
                        0 <= i < self.node_counters@.len()
                            && #[trigger] self.node_counters@[i].0@ == node@
                            && self.node_counters@[i].1 == v;
                    lemma_sum_entry(self.node_counters@, i);
                },
                None => {},
            }
        }
        let m = self.max_node_counter();
        let c = if counter > m {
            counter
        } else {
            m
        };
        self.cas_local_node_counter(c);
        proof {
            lemma_sum_counters_nonneg(self.node_counters@);
        }
    }

    /// Merges a peer's counter vector: for every node but this one, the
    /// entry becomes the larger of what is held and what the peer reports.
    pub fn update_all_node_counters(&mut self, new_counters: NodeCounters)
        requires
            old(self).wf_maps(),
            distinct_keys(new_counters@),
            forall|i: int|
                0 <= i < new_counters@.len() ==> crate::json::wf_string(
                    (#[trigger] new_counters@[i]).0@,
                ),
        ensures
            final(self).wf_maps(),
            *final(self) == (IoServerContext {
                node_counters: final(self).node_counters,
                ..*old(self)
            }),
            forall|k: Seq<char>|
                #![trigger map_get(final(self).node_counters@, k)]
                map_get(final(self).node_counters@, k) == counters_merged(
                    old(self).node_counters@,
                    new_counters@,
                    old(self).node_id@,
                    k,
                ),
            final(self).node_counters@ == merged_counters_vec(
                old(self).node_counters@,
                new_counters@,
                old(self).node_id@,
            ),
            sum_counters(final(self).node_counters@) >= sum_counters(old(self).node_counters@),
    {
        let ghost o = *old(self);
        proof {
            let e0 = new_counters@.subrange(0, 0);
            assert(e0 =~= Seq::<(String, u64)>::empty());
            assert(appended_counters(o.node_counters@, e0, o.node_id@) =~= Seq::<
                (String, u64),
            >::empty());
            assert(self.node_counters@ =~= merged_counters_vec(
                o.node_counters@,
                e0,
                o.node_id@,
            )) by {
                assert forall|i: int|
                    0 <= i < o.node_counters@.len() implies merged_counters_vec(
                    o.node_counters@,
                    e0,
                    o.node_id@,
                )[i] == o.node_counters@[i] by {
                    assert(merged_entry_value(o.node_counters@, e0, o.node_id@, i)
                        == o.node_counters@[i].1);
                }
            }
        }
        let n = new_counters.len();
        let mut t: usize = 0;
        while t < n
            invariant
                o.wf_maps(),
                distinct_keys(new_counters@),
                forall|i: int|
                    0 <= i < new_counters@.len() ==> crate::json::wf_string(
                        (#[trigger] new_counters@[i]).0@,
                    ),
                t <= n,
                n == new_counters@.len(),
                *self == (IoServerContext { node_counters: self.node_counters, ..o }),
                distinct_keys(self.node_counters@),
                forall|i: int|
                    0 <= i < self.node_counters@.len() ==> crate::json::wf_string(
                        (#[trigger] self.node_counters@[i]).0@,
                    ),
                sum_counters(self.node_counters@) >= sum_counters(o.node_counters@),
                self.node_counters@ == merged_counters_vec(
                    o.node_counters@,
                    new_counters@.subrange(0, t as int),
                    o.node_id@,
                ),
                forall|k: Seq<char>|
                    #![trigger map_get(self.node_counters@, k)]
                    map_get(self.node_counters@, k) == (if has_key_prefix(
                        new_counters@,
                        t as int,
                        k,
                    ) {
                        counters_merged(o.node_counters@, new_counters@, o.node_id@, k)
                    } else {
                        map_get(o.node_counters@, k)
                    }),
            decreases n - t,
        {
            let ghost kt = new_counters@[t as int].0@;
            let ghost cur0 = self.node_counters@;
            let ghost me = o.node_id@;
            let ghost pre_n = new_counters@.subrange(0, t as int);
            let ghost post_n = new_counters@.subrange(0, t as int + 1);
            let ghost oldm = o.node_counters@;
            proof {
                assert(!has_key_prefix(new_counters@, t as int, kt));
                assert(map_get(cur0, kt) == map_get(o.node_counters@, kt));
                assert(map_get(new_counters@, kt) == Some(new_counters@[t as int].1)) by {
                    lemma_map_get_first(new_counters@, t as int);
                }
                assert(post_n =~= pre_n.push(new_counters@[t as int]));
                assert(post_n.subrange(0, post_n.len() - 1) =~= pre_n);
                assert(post_n[post_n.len() - 1] == new_counters@[t as int]);
                lemma_map_get_snoc(pre_n, new_counters@[t as int]);
                assert forall|j: int| 0 <= j < pre_n.len() implies (#[trigger] pre_n[j]).0@
                    != kt by {
                    assert(pre_n[j] == new_counters@[j]);
                }
                lemma_map_get_none(pre_n, kt);
                assert(map_get(pre_n, kt) is None);
                lemma_appended_entries(oldm, pre_n, me);
                // held entries keep their merged value: the new report line
                // touches none of them but the one named `kt`
                assert forall|i: int|
                    0 <= i < oldm.len() && oldm[i].0@ != kt implies merged_entry_value(
                    oldm,
                    post_n,
                    me,
                    i,
                ) == merged_entry_value(oldm, pre_n, me, i) by {
                    assert(map_get(post_n, oldm[i].0@) == map_get(
                        pre_n.push(new_counters@[t as int]),
                        oldm[i].0@,
                    ));
                }
            }
            if !new_counters[t].0.eq(&self.node_id) {
                let v = new_counters[t].1;
                match find_key(&self.node_counters, &new_counters[t].0) {
                    Some(i) => {
                        proof {
                            // the hit lies among the held entries: every
                            // appended entry carries an earlier report name
                            if i as int >= oldm.len() {
                                let j = i as int - oldm.len();
                                assert(cur0[i as int] == appended_counters(
                                    oldm,
                                    pre_n,
                                    me,
                                )[j]);
                                assert(appended_is_reported(oldm, pre_n, me, j));
                                let ii = choose|ii: int|
                                    0 <= ii < pre_n.len() && appended_counters(
                                        oldm,
                                        pre_n,
                                        me,
                                    )[j] == #[trigger] pre_n[ii];
                                assert(pre_n[ii].0@ != kt);
                                assert(false);
                            }
                            assert(cur0[i as int] == merged_counters_vec(
                                oldm,
                                pre_n,
                                me,
                            )[i as int]);
                            assert(cur0[i as int].0 == oldm[i as int].0);
                            assert(oldm[i as int].0@ == kt);
                            assert(merged_entry_value(oldm, pre_n, me, i as int)
                                == oldm[i as int].1);
                            assert(cur0[i as int].1 == oldm[i as int].1);
                            lemma_map_get_none(oldm, kt);
                            assert(!(map_get(oldm, kt) is None));
                            assert(appended_counters(oldm, post_n, me) == appended_counters(
                                oldm,
                                pre_n,
                                me,
                            ));
                            assert(map_get(post_n, kt) == map_get(
                                pre_n.push(new_counters@[t as int]),
                                kt,
                            ));
                            assert(map_get(post_n, kt) == Some(new_counters@[t as int].1));
                        }
                        if v > self.node_counters[i].1 {
                            let ghost before = self.node_counters@;
                            self.node_counters[i].1 = v;
                            proof {
                                let p = self.node_counters@[i as int];
                                assert(p.0 == before[i as int].0);
                                lemma_map_get_update(before, i as int, p);
                                lemma_sum_update(before, i as int, p);
                                assert forall|j: int|
                                    0 <= j < self.node_counters@.len() implies crate::json::wf_string(
                                    (#[trigger] self.node_counters@[j]).0@,
                                ) by {
                                    if j != i {
                                        assert(self.node_counters@[j] == before[j]);
                                    }
                                }
                                assert(self.node_counters@ =~= merged_counters_vec(
                                    oldm,
                                    post_n,
                                    me,
                                )) by {
                                    let vec_post = merged_counters_vec(oldm, post_n, me);
                                    assert forall|ii: int|
                                        0 <= ii < vec_post.len() implies vec_post[ii]
                                        == self.node_counters@[ii] by {
                                        if ii < oldm.len() {
                                            if ii == i as int {
                                                assert(merged_entry_value(oldm, post_n, me, ii)
                                                    == new_counters@[t as int].1);
                                            } else {
                                                assert(oldm[ii].0@ != kt);
                                                assert(self.node_counters@[ii] == cur0[ii]);
                                            }
                                        } else {
                                            assert(self.node_counters@[ii] == cur0[ii]);
                                            assert(cur0[ii] == merged_counters_vec(
                                                oldm,
                                                pre_n,
                                                me,
                                            )[ii]);
                                        }
                                    }
                                }
                            }
                        } else {
                            proof {
                                assert(self.node_counters@ =~= merged_counters_vec(
                                    oldm,
                                    post_n,
                                    me,
                                )) by {
                                    let vec_post = merged_counters_vec(oldm, post_n, me);
                                    assert forall|ii: int|
                                        0 <= ii < vec_post.len() implies vec_post[ii]
                                        == self.node_counters@[ii] by {
                                        if ii < oldm.len() {
                                            if ii == i as int {
                                                assert(merged_entry_value(oldm, post_n, me, ii)
                                                    == oldm[ii].1);
                                            } else {
                                                assert(oldm[ii].0@ != kt);
                                            }
                                        } else {
                                            assert(cur0[ii] == merged_counters_vec(
                                                oldm,
                                                pre_n,
                                                me,
                                            )[ii]);
                                        }
                                    }
                                }
                            }
                        }
                    },
                    None => {
                        let ghost before = self.node_counters@;
                        self.node_counters.push((new_counters[t].0.clone(), v));
                        proof {
                            let p = self.node_counters@[self.node_counters@.len() - 1];
                            lemma_map_get_push(before, p);
                            lemma_sum_push(before, p);
                            assert(crate::json::wf_string(new_counters@[t as int].0@));
                            assert forall|j: int|
                                0 <= j < self.node_counters@.len() implies crate::json::wf_string(
                                (#[trigger] self.node_counters@[j]).0@,
                            ) by {
                                if j < before.len() {
                                    assert(self.node_counters@[j] == before[j]);
                                }
                            }
                            assert(map_get(oldm, kt) is None);
                            lemma_map_get_none(oldm, kt);
                            assert(appended_counters(oldm, post_n, me) == appended_counters(
                                oldm,
                                pre_n,
                                me,
                            ).push(new_counters@[t as int]));
                            assert(p == new_counters@[t as int]) by {
                                assert(p.0 == new_counters@[t as int].0);
                                assert(p.1 == new_counters@[t as int].1);
                            }
                            assert(self.node_counters@ =~= merged_counters_vec(
                                oldm,
                                post_n,
                                me,
                            )) by {
                                let vec_post = merged_counters_vec(oldm, post_n, me);
                                assert forall|ii: int|
                                    0 <= ii < vec_post.len() implies vec_post[ii]
                                    == self.node_counters@[ii] by {
                                    if ii < oldm.len() {
                                        assert(oldm[ii].0@ != kt);
                                        assert(self.node_counters@[ii] == cur0[ii]);
                                        assert(cur0[ii] == merged_counters_vec(
                                            oldm,
                                            pre_n,
                                            me,
                                        )[ii]);
                                    } else if ii < cur0.len() {
                                        assert(self.node_counters@[ii] == cur0[ii]);
                                        assert(cur0[ii] == merged_counters_vec(
                                            oldm,
                                            pre_n,
                                            me,
                                        )[ii]);
                                    } else {
                                        assert(self.node_counters@[ii] == p);
                                    }
                                }
                            }
                        }
                    },
                }
            } else {
                proof {
                    assert(kt == me);
                    assert(appended_counters(oldm, post_n, me) == appended_counters(
                        oldm,
                        pre_n,
                        me,
                    ));
                    assert(self.node_counters@ =~= merged_counters_vec(oldm, post_n, me)) by {
                        let vec_post = merged_counters_vec(oldm, post_n, me);
                        assert forall|ii: int|
                            0 <= ii < vec_post.len() implies vec_post[ii]
                            == self.node_counters@[ii] by {
                            if ii < oldm.len() {
                                if oldm[ii].0@ == kt {
                                    assert(merged_entry_value(oldm, post_n, me, ii)
                                        == oldm[ii].1);
                                    assert(merged_entry_value(oldm, pre_n, me, ii)
                                        == oldm[ii].1);
                                }
                            } else {
                                assert(cur0[ii] == merged_counters_vec(oldm, pre_n, me)[ii]);
                            }
                        }
                    }
                }
            }
            proof {
                assert forall|k: Seq<char>|
                    #![trigger map_get(self.node_counters@, k)]
                    map_get(self.node_counters@, k) == (if has_key_prefix(
                        new_counters@,
                        t as int + 1,
                        k,
                    ) {
                        counters_merged(o.node_counters@, new_counters@, o.node_id@, k)
                    } else {
                        map_get(o.node_counters@, k)
                    }) by {
                    if k == kt {
                        assert(has_key_prefix(new_counters@, t as int + 1, kt));
                        if kt == o.node_id@ {
                            assert(map_get(self.node_counters@, kt) == map_get(cur0, kt));
                        } else {
                            assert(map_get(self.node_counters@, kt) == counters_merged(
                                o.node_counters@,
                                new_counters@,
                                o.node_id@,
                                kt,
                            ));
                        }
                    } else {
                        assert(map_get(self.node_counters@, k) == map_get(cur0, k));
                        assert(has_key_prefix(new_counters@, t as int + 1, k) == has_key_prefix(
                            new_counters@,
                            t as int,
                            k,
                        )) by {
                            if has_key_prefix(new_counters@, t as int + 1, k) {
                                let s = choose|s: int|
                                    0 <= s < t as int + 1 && s < new_counters@.len()
                                        && new_counters@[s].0@ == k;
                                assert(s < t as int);
                            }
                        }
                    }
                }
            }
            t += 1;
        }
        proof {
            assert forall|k: Seq<char>|
                #![trigger map_get(self.node_counters@, k)]
                map_get(self.node_counters@, k) == counters_merged(
                    o.node_counters@,
                    new_counters@,
                    o.node_id@,
                    k,
                ) by {
                match map_get(new_counters@, k) {
                    Some(v) => {
                        lemma_map_get_is_entry(new_counters@, k);
                        let i = choose|i: int|
                            0 <= i < new_counters@.len() && #[trigger] new_counters@[i].0@ == k
                                && new_counters@[i].1 == v;
                        assert(has_key_prefix(new_counters@, n as int, k));
                    },
                    None => {
                        lemma_map_get_none(new_counters@, k);
                        assert(!has_key_prefix(new_counters@, n as int, k));
                    },
                }
            }
            assert(new_counters@.subrange(0, n as int) =~= new_counters@);
        }
    }
}

/// Whether one of the first `t` entries of `m` is named `k`.
pub open spec fn has_key_prefix(m: Seq<(String, u64)>, t: int, k: Seq<char>) -> bool {
    exists|i: int| 0 <= i < t && i < m.len() && m[i].0@ == k
}

/// The value a merge of the report `newm` leaves at position `i` of the
/// held vector `oldm`: this node's own entry untouched, every other
/// raised to the larger of both sides.
pub open spec fn merged_entry_value(
    oldm: Seq<(String, u64)>,
    newm: Seq<(String, u64)>,
    me: Seq<char>,
    i: int,
) -> u64 {
    if oldm[i].0@ == me {
        oldm[i].1
    } else {
        match map_get(newm, oldm[i].0@) {
            Some(nv) => if nv > oldm[i].1 {
                nv
            } else {
                oldm[i].1
            },
            None => oldm[i].1,
        }
    }
}

/// The entries a merge appends: the reported entries whose names are new
/// and not this node's, in report order.
pub open spec fn appended_counters(
    oldm: Seq<(String, u64)>,
    newm: Seq<(String, u64)>,
    me: Seq<char>,
) -> Seq<(String, u64)>
    decreases newm.len(),
{
    if newm.len() == 0 {
        Seq::empty()
    } else {
        let pre = appended_counters(oldm, newm.subrange(0, newm.len() - 1), me);
        let last = newm[newm.len() - 1];
        if last.0@ != me && map_get(oldm, last.0@) is None {
            pre.push(last)
        } else {
            pre
        }
    }
}

/// Position `j` of the appended entries repeats some entry of the report.
pub open spec fn appended_is_reported(
    oldm: Seq<(String, u64)>,
    newm: Seq<(String, u64)>,
    me: Seq<char>,
    j: int,
) -> bool {
    exists|i: int|
        0 <= i < newm.len() && appended_counters(oldm, newm, me)[j] == #[trigger] newm[i]
}

/// Every appended entry carries a name that is new and not this node's.
pub proof fn lemma_appended_fresh(
    oldm: Seq<(String, u64)>,
    newm: Seq<(String, u64)>,
    me: Seq<char>,
)
    ensures
        forall|j: int|
            0 <= j < appended_counters(oldm, newm, me).len() ==> ((#[trigger] appended_counters(
                oldm,
                newm,
                me,
            )[j]).0@ != me && map_get(oldm, appended_counters(oldm, newm, me)[j].0@) is None),
    decreases newm.len(),
{
    if newm.len() > 0 {
        let pre = newm.subrange(0, newm.len() - 1);
        lemma_appended_fresh(oldm, pre, me);
        let app_pre = appended_counters(oldm, pre, me);
        let app = appended_counters(oldm, newm, me);
        assert forall|j: int|
            0 <= j < app.len() implies ((#[trigger] app[j]).0@ != me && map_get(
            oldm,
            app[j].0@,
        ) is None) by {
            if j < app_pre.len() {
                assert(app[j] == app_pre[j]);
            } else {
                assert(app[j] == newm[newm.len() - 1]);
            }
        }
    }
}

/// Every appended entry is one of the report's own entries.
pub proof fn lemma_appended_entries(
    oldm: Seq<(String, u64)>,
    newm: Seq<(String, u64)>,
    me: Seq<char>,
)
    ensures
        forall|j: int|
            0 <= j < appended_counters(oldm, newm, me).len() ==> #[trigger] appended_is_reported(
                oldm,
                newm,
                me,
                j,
            ),
    decreases newm.len(),
{
    if newm.len() > 0 {
        let pre = newm.subrange(0, newm.len() - 1);
        lemma_appended_entries(oldm, pre, me);
        let app_pre = appended_counters(oldm, pre, me);
        let app = appended_counters(oldm, newm, me);
        assert forall|j: int| 0 <= j < app.len() implies #[trigger] appended_is_reported(
            oldm,
            newm,
            me,
            j,
        ) by {
            if j < app_pre.len() {
                assert(app[j] == app_pre[j]);
                assert(appended_is_reported(oldm, pre, me, j));
                let i = choose|i: int| 0 <= i < pre.len() && app_pre[j] == #[trigger] pre[i];
                assert(pre[i] == newm.subrange(0, newm.len() - 1)[i]);
                assert(pre[i] == newm[i]);
                assert(app[j] == newm[i]);
            } else {
                assert(app[j] == newm[newm.len() - 1]);
            }
        }
    }
}

/// A reported entry with a new name (not this node's) stands among the
/// appended entries.
proof fn lemma_appended_position(
    oldm: Seq<(String, u64)>,
    newm: Seq<(String, u64)>,
    me: Seq<char>,
    i: int,
)
    requires
        0 <= i < newm.len(),
        newm[i].0@ != me,
        map_get(oldm, newm[i].0@) is None,
    ensures
        exists|j: int|
            0 <= j < appended_counters(oldm, newm, me).len() && #[trigger] appended_counters(
                oldm,
                newm,
                me,
            )[j] == newm[i],
    decreases newm.len(),
{
    let pre = newm.subrange(0, newm.len() - 1);
    let app = appended_counters(oldm, newm, me);
    let app_pre = appended_counters(oldm, pre, me);
    if i == newm.len() - 1 {
        assert(app[app_pre.len() as int] == newm[i]);
    } else {
        assert(pre[i] == newm[i]);
        lemma_appended_position(oldm, pre, me, i);
        let j = choose|j: int| 0 <= j < app_pre.len() && #[trigger] app_pre[j] == pre[i];
        assert(app[j] == app_pre[j]);
        assert(app[j] == newm[i]);
    }
}

/// With every reported name already held, or this node's own, a merge
/// appends nothing.
proof fn lemma_appended_empty(oldm: Seq<(String, u64)>, newm: Seq<(String, u64)>, me: Seq<char>)
    requires
        forall|i: int|
            0 <= i < newm.len() ==> ((#[trigger] newm[i]).0@ == me || !(map_get(
                oldm,
                newm[i].0@,
            ) is None)),
    ensures
        appended_counters(oldm, newm, me) =~= Seq::<(String, u64)>::empty(),
    decreases newm.len(),
{
    if newm.len() > 0 {
        let pre = newm.subrange(0, newm.len() - 1);
        assert forall|i: int|
            0 <= i < pre.len() implies ((#[trigger] pre[i]).0@ == me || !(map_get(
            oldm,
            pre[i].0@,
        ) is None)) by {
            assert(pre[i] == newm[i]);
        }
        lemma_appended_empty(oldm, pre, me);
    }
}

/// Delivering the same counter report twice leaves exactly the state of
/// delivering it once: the in-place merge is idempotent, so duplicated or
/// replayed counter deliveries are harmless.
pub proof fn lemma_counter_merge_idempotent(
    oldm: Seq<(String, u64)>,
    newm: Seq<(String, u64)>,
    me: Seq<char>,
)
    requires
        distinct_keys(newm),
    ensures
        merged_counters_vec(merged_counters_vec(oldm, newm, me), newm, me)
            == merged_counters_vec(oldm, newm, me),
{
    let m1 = merged_counters_vec(oldm, newm, me);
    let app = appended_counters(oldm, newm, me);
    let m2 = merged_counters_vec(m1, newm, me);
    lemma_appended_fresh(oldm, newm, me);
    lemma_appended_entries(oldm, newm, me);
    // every reported name, other than this node's, is already held
    assert forall|i: int|
        0 <= i < newm.len() implies ((#[trigger] newm[i]).0@ == me || !(map_get(
        m1,
        newm[i].0@,
    ) is None)) by {
        if newm[i].0@ != me {
            lemma_map_get_none(m1, newm[i].0@);
            if map_get(oldm, newm[i].0@) is None {
                lemma_appended_position(oldm, newm, me, i);
                let j = choose|j: int| 0 <= j < app.len() && #[trigger] app[j] == newm[i];
                assert(m1[oldm.len() + j] == app[j]);
                assert(m1[oldm.len() + j].0@ == newm[i].0@);
            } else {
                lemma_map_get_none(oldm, newm[i].0@);
                let jj = choose|jj: int|
                    0 <= jj < oldm.len() && (#[trigger] oldm[jj]).0@ == newm[i].0@;
                assert(m1[jj].0 == oldm[jj].0);
                assert(m1[jj].0@ == newm[i].0@);
            }
        }
    }
    lemma_appended_empty(m1, newm, me);
    // raising an entry twice by the same report is raising it once
    assert(m2 =~= m1) by {
        assert forall|i: int| 0 <= i < m1.len() implies m2[i] == m1[i] by {
            if m1[i].0@ != me {
                match map_get(newm, m1[i].0@) {
                    Some(nv) => {
                        if i < oldm.len() {
                            assert(m1[i] == (
                                oldm[i].0,
                                merged_entry_value(oldm, newm, me, i),
                            ));
                        } else {
                            let j = i - oldm.len();
                            assert(m1[i] == app[j]);
                            assert(appended_is_reported(oldm, newm, me, j));
                            let jj = choose|jj: int|
                                0 <= jj < newm.len() && app[j] == #[trigger] newm[jj];
                            assert forall|tt: int| 0 <= tt < jj implies (#[trigger] newm[tt]).0@
                                != newm[jj].0@ by {}
                            lemma_map_get_first(newm, jj);
                            assert(map_get(newm, newm[jj].0@) == Some(newm[jj].1));
                        }
                    },
                    None => {},
                }
            }
        }
    }
}

/// A counter report delivered twice in succession ends exactly where one
/// delivery ends: the second merge moves no entry, adds no entry, and
/// leaves the total alone, so duplicated or replayed deliveries are
/// harmless. The two states agree on every field and on the counter
/// vector entry for entry.
pub proof fn lemma_sync_twice_same_state(
    pre: IoServerContext,
    mid: IoServerContext,
    post: IoServerContext,
    newm: Seq<(String, u64)>,
)
    requires
        pre.wf(),
        mid.wf(),
        post.wf(),
        distinct_keys(newm),
        mid == (IoServerContext {
            counter: mid.counter,
            node_counters: mid.node_counters,
            ..pre
        }),
        mid.node_counters@ == merged_counters_vec(pre.node_counters@, newm, pre.node_id@),
        post == (IoServerContext {
            counter: post.counter,
            node_counters: post.node_counters,
            ..mid
        }),
        post.node_counters@ == merged_counters_vec(mid.node_counters@, newm, mid.node_id@),
    ensures
        post.node_counters@ == mid.node_counters@,
        post.counter == mid.counter,
        post == (IoServerContext { node_counters: post.node_counters, ..mid }),
{
    lemma_counter_merge_idempotent(pre.node_counters@, newm, pre.node_id@);
}

/// The whole vector an in-place merge leaves behind: the held entries in
/// their places with raised values, then the new entries in report order.
pub open spec fn merged_counters_vec(
    oldm: Seq<(String, u64)>,
    newm: Seq<(String, u64)>,
    me: Seq<char>,
) -> Seq<(String, u64)> {
    Seq::new(oldm.len(), |i: int| (oldm[i].0, merged_entry_value(oldm, newm, me, i)))
        + appended_counters(oldm, newm, me)
}

/// The counter vector after merging a peer's report `newm`: for every node
/// but `me`, the larger of both sides' entries; `me`'s entry untouched.
pub open spec fn counters_merged(
    oldm: Seq<(String, u64)>,
    newm: Seq<(String, u64)>,
    me: Seq<char>,
    k: Seq<char>,
) -> Option<u64> {
    if k == me {
        map_get(oldm, k)
    } else {
        match map_get(newm, k) {
            None => map_get(oldm, k),
            Some(nv) => match map_get(oldm, k) {
                None => Some(nv),
                Some(ov) => Some(if nv > ov {
                    nv
                } else {
                    ov
                }),
            },
        }
    }
}

/// Whether a counter publication is due: at least a second has passed
/// since the last one. Times are milliseconds on any one clock.
pub fn counters_due(last_tick: u64, now: u64) -> (r: bool)
    ensures
        r == (now > last_tick + 1000),
{
    now.saturating_sub(last_tick) > 1000
}

/// Drains every queued gossip set and lays out the `sync` requests to
/// write: one per neighbor with a non-empty queue, its values sorted, each
/// under a fresh message id. The flush time is recorded.
pub fn sync_messages(context: &mut IoServerContext, now: u64) -> (r: (Vec<String>, usize))
    requires
        old(context).wf_maps(),
        old(context).msg_id + old(context).messages_queued@.len() <= u64::MAX,
    ensures
        final(context).wf_maps(),
        *final(context) == (IoServerContext {
            messages_queued: final(context).messages_queued,
            last_sync: now,
            msg_id: (old(context).msg_id + old(context).messages_queued@.len()) as u64,
            ..*old(context)
        }),
        final(context).messages_queued@.len() == 0,
        r.1 == 0,
        r.0@.len() == old(context).messages_queued@.len(),
        forall|i: int|
            0 <= i < r.0@.len() ==> (#[trigger] r.0@[i])@ == crate::json::encode(
                crate::message::envelope_val_spec(
                    old(context).node_id@,
                    old(context).messages_queued@[i].0@,
                    Some((old(context).msg_id + 1 + i) as u64),
                    None,
                    crate::message::broadcast::sync_fields(
                        old(context).messages_queued@[i].1@,
                    ),
                ),
            ),
{
    let ghost o = *old(context);
    let mut out: Vec<String> = Vec::new();
    let ghost n = o.messages_queued@.len();
    while context.messages_queued.len() > 0
        invariant
            o.wf_maps(),
            o.msg_id + n <= u64::MAX,
            n == o.messages_queued@.len(),
            *context == (IoServerContext {
                messages_queued: context.messages_queued,
                msg_id: context.msg_id,
                ..o
            }),
            out@.len() <= n,
            context.messages_queued@ =~= o.messages_queued@.subrange(
                out@.len() as int,
                n as int,
            ),
            context.msg_id == o.msg_id + out@.len(),
            forall|i: int|
                0 <= i < out@.len() ==> (#[trigger] out@[i])@ == crate::json::encode(
                    crate::message::envelope_val_spec(
                        o.node_id@,
                        o.messages_queued@[i].0@,
                        Some((o.msg_id + 1 + i) as u64),
                        None,
                        crate::message::broadcast::sync_fields(o.messages_queued@[i].1@),
                    ),
                ),
        decreases context.messages_queued@.len(),
    {
        let ghost k = out@.len();
        proof {
            assert(context.messages_queued@[0] == o.messages_queued@[k as int]);
        }
        let entry = context.messages_queued.remove(0);
        proof {
            assert(context.messages_queued@ =~= o.messages_queued@.subrange(
                k as int + 1,
                n as int,
            ));
        }
        let fields = crate::message::broadcast::sync_fields_value(&entry.1);
        let msg = crate::message::send_request(entry.0, context, fields);
        proof {
            crate::message::lemma_envelope_wf(
                o.node_id@,
                o.messages_queued@[k as int].0@,
                Some(context.msg_id),
                None,
                crate::message::broadcast::sync_fields(o.messages_queued@[k as int].1@),
            );
        }
        let line = crate::json::to_text(&msg);
        out.push(line);
    }
    context.last_sync = now;
    let remaining = context.messages_queued.len();
    (out, remaining)
}

/// Flushes queued gossip only if there is any: with nothing queued, no
/// request goes out and nothing changes.
pub fn retry_sync_messages(context: &mut IoServerContext, now: u64) -> (r: (Vec<String>, usize))
    requires
        old(context).wf_maps(),
        old(context).msg_id + old(context).messages_queued@.len() <= u64::MAX,
    ensures
        final(context).wf_maps(),
        old(context).messages_queued@.len() == 0 ==> *final(context) == *old(context)
            && r.0@.len() == 0,
        old(context).messages_queued@.len() > 0 ==> {
            &&& *final(context) == (IoServerContext {
                messages_queued: final(context).messages_queued,
                last_sync: now,
                msg_id: (old(context).msg_id + old(context).messages_queued@.len()) as u64,
                ..*old(context)
            })
            &&& final(context).messages_queued@.len() == 0
            &&& r.0@.len() == old(context).messages_queued@.len()
            &&& (forall|i: int|
                0 <= i < r.0@.len() ==> (#[trigger] r.0@[i])@ == crate::json::encode(
                    crate::message::envelope_val_spec(
                        old(context).node_id@,
                        old(context).messages_queued@[i].0@,
                        Some((old(context).msg_id + 1 + i) as u64),
                        None,
                        crate::message::broadcast::sync_fields(
                            old(context).messages_queued@[i].1@,
                        ),
                    ),
                ))
        },
        r.1 == 0,
{
    let remaining = context.messages_queued.len();
    if remaining == 0 {
        return (Vec::new(), remaining);
    }
    sync_messages(context, now)
}

/// Lays out the `sync_counter` requests of one counter-gossip tick: the
/// whole counter vector toward every neighbor, each under a fresh message
/// id; with no counters at all, nothing goes out.
pub fn deliver_counters(context: &mut IoServerContext) -> (r: Vec<String>)
    requires
        old(context).wf_maps(),
        old(context).msg_id + old(context).neighbors@.len() <= u64::MAX,
    ensures
        final(context).wf_maps(),
        old(context).node_counters@.len() == 0 ==> *final(context) == *old(context)
            && r@.len() == 0,
        old(context).node_counters@.len() > 0 ==> {
            &&& *final(context) == (IoServerContext {
                msg_id: (old(context).msg_id + old(context).neighbors@.len()) as u64,
                ..*old(context)
            })
            &&& r@.len() == old(context).neighbors@.len()
            &&& (forall|i: int|
                0 <= i < r@.len() ==> (#[trigger] r@[i])@ == crate::json::encode(
                    crate::message::envelope_val_spec(
                        old(context).node_id@,
                        old(context).neighbors@[i]@,
                        Some((old(context).msg_id + 1 + i) as u64),
                        None,
                        crate::message::g_counter::counter_sync_fields(
                            old(context).node_counters@,
                        ),
                    ),
                ))
        },
{
    let ghost o = *old(context);
    if context.node_counters.len() == 0 {
        return Vec::new();
    }
    let mut out: Vec<String> = Vec::new();
    let n = context.neighbors.len();
    let mut t: usize = 0;
    while t < n
        invariant
            o.wf_maps(),
            o.msg_id + o.neighbors@.len() <= u64::MAX,
            n == o.neighbors@.len(),
            t <= n,
            *context == (IoServerContext { msg_id: context.msg_id, ..o }),
            context.msg_id == o.msg_id + t,
            out@.len() == t,
            forall|i: int|
                0 <= i < out@.len() ==> (#[trigger] out@[i])@ == crate::json::encode(
                    crate::message::envelope_val_spec(
                        o.node_id@,
                        o.neighbors@[i]@,
                        Some((o.msg_id + 1 + i) as u64),
                        None,
                        crate::message::g_counter::counter_sync_fields(o.node_counters@),
                    ),
                ),
        decreases n - t,
    {
        let dest = context.neighbors[t].clone();
        let fields = crate::message::g_counter::counter_sync_fields_value(
            &context.node_counters,
        );
        let msg = crate::message::send_request(dest, context, fields);
        proof {
            crate::message::lemma_envelope_wf(
                o.node_id@,
                o.neighbors@[t as int]@,
                Some(context.msg_id),
                None,
                crate::message::g_counter::counter_sync_fields(o.node_counters@),
            );
        }
        let line = crate::json::to_text(&msg);
        out.push(line);
        t += 1;
    }
    out
}

/// Message ids are strictly increasing across any sequence of outbound
/// messages: every id one operation hands out lies above the counter it
/// started from and at most at the counter it left behind, so an id
/// assigned by a later operation exceeds every id assigned by an earlier
/// one.
pub proof fn lemma_outbound_ids_monotonic(
    pre: IoServerContext,
    mid: IoServerContext,
    post: IoServerContext,
    id1: u64,
    id2: u64,
)
    requires
        pre.msg_id < id1 <= mid.msg_id,
        mid.msg_id < id2 <= post.msg_id,
    ensures
        id1 < id2,
{
}

/// One sync-update leaves no broadcast value unaccounted: afterwards,
/// every saved value is either known to be held by the neighbor or queued
/// toward it. This is the local step behind broadcast convergence: as long
/// as queues keep being flushed and flushes keep arriving, every value
/// reaches every neighbor.
pub proof fn lemma_sync_coverage(
    o: IoServerContext,
    s: IoServerContext,
    node: Seq<char>,
    msgs: Seq<u64>,
    p: Seq<char>,
    x: u64,
)
    requires
        o.wf_maps(),
        sorted_unique(msgs),
        s.messages_saved@ == merge_spec(o.messages_saved@, msgs),
        forall|k: Seq<char>|
            #![trigger map_view(s.messages_neighbors_have@, k)]
            map_view(s.messages_neighbors_have@, k) == o.known_view_after(node, msgs, k),
        forall|k: Seq<char>|
            #![trigger map_view(s.messages_queued@, k)]
            map_view(s.messages_queued@, k) == o.queued_view_after(node, msgs, k),
        has_name(o.neighbors@, p),
        s.messages_saved@.contains(x),
    ensures
        ({
            let known_p = match map_view(s.messages_neighbors_have@, p) {
                Some(v) => v,
                None => Seq::<u64>::empty(),
            };
            let pending_p = match map_view(s.messages_queued@, p) {
                Some(v) => v,
                None => Seq::<u64>::empty(),
            };
            known_p.contains(x) || pending_p.contains(x)
        }),
{
    let known_p = match map_view(s.messages_neighbors_have@, p) {
        Some(v) => v,
        None => Seq::<u64>::empty(),
    };
    lemma_known_after_sorted(o, node, msgs, p);
    let missing = diff_spec(s.messages_saved@, known_p);
    lemma_merge(o.messages_saved@, msgs);
    lemma_diff(s.messages_saved@, known_p);
    if !known_p.contains(x) {
        assert(missing.contains(x));
        let add = pending_addition(s.messages_saved@, known_p);
        let tenth = missing.len() as int / 10;
        let limit = if tenth < 10 {
            10int
        } else {
            tenth
        };
        let cut = if limit <= known_p.len() {
            limit
        } else {
            known_p.len() as int
        };
        lemma_take_sorted(known_p, cut);
        lemma_merge(missing, known_p.subrange(0, cut));
        assert(add.contains(x));
        assert(add.len() > 0);
        let pend_before = view_or_empty(o.messages_queued@, p);
        assert(map_view(s.messages_queued@, p) == Some(merge_spec(pend_before, add)));
        lemma_queued_sorted(o, p);
        lemma_merge(pend_before, add);
    }
}

/// The known set a sync-update leaves behind for any name is sorted and
/// duplicate-free.
proof fn lemma_known_after_sorted(
    o: IoServerContext,
    node: Seq<char>,
    msgs: Seq<u64>,
    p: Seq<char>,
)
    requires
        o.wf_maps(),
        sorted_unique(msgs),
    ensures
        match o.known_view_after(node, msgs, p) {
            Some(v) => sorted_unique(v),
            None => true,
        },
{
    lemma_entry_sorted(o.messages_neighbors_have@, p);
    if p == node && has_name(o.neighbors@, node) {
        lemma_merge(view_or_empty(o.messages_neighbors_have@, node), msgs);
    }
}

/// Every entry of the known map, and the missing one read as empty, is
/// sorted and duplicate-free.
proof fn lemma_entry_sorted(m: Seq<(String, MessageList)>, p: Seq<char>)
    requires
        forall|i: int| 0 <= i < m.len() ==> sorted_unique((#[trigger] m[i]).1@),
    ensures
        sorted_unique(view_or_empty(m, p)),
        match map_view(m, p) {
            Some(v) => sorted_unique(v),
            None => true,
        },
{
    lemma_map_get_is_entry(m, p);
    match map_get(m, p) {
        Some(v) => {
            let i = choose|i: int| 0 <= i < m.len() && #[trigger] m[i].0@ == p && m[i].1 == v;
            assert(sorted_unique(m[i].1@));
        },
        None => {
            assert(view_or_empty(m, p) =~= Seq::<u64>::empty());
        },
    }
}

/// A queue entry is sorted and duplicate-free.
proof fn lemma_queued_sorted(o: IoServerContext, p: Seq<char>)
    requires
        o.wf_maps(),
    ensures
        sorted_unique(view_or_empty(o.messages_queued@, p)),
{
    lemma_entry_sorted(o.messages_queued@, p);
}

/// Counter entries only ever grow: a merge with a peer's report leaves
/// every held entry at least as large as it was.
pub proof fn lemma_counter_entries_monotonic(
    oldm: Seq<(String, u64)>,
    newm: Seq<(String, u64)>,
    me: Seq<char>,
    k: Seq<char>,
)
    ensures
        match (map_get(oldm, k), counters_merged(oldm, newm, me, k)) {
            (Some(ov), Some(nv)) => nv >= ov,
            (Some(ov), None) => false,
            _ => true,
        },
{
}

/// The counter a `read` reports is at least this node's own contribution,
/// and so at least the sum of the deltas it has acknowledged itself.
pub proof fn lemma_counter_read_lower_bound(c: IoServerContext, k: Seq<char>)
    requires
        c.wf(),
    ensures
        c.counter as int >= counter_or_zero(c.node_counters@, k),
{
    lemma_map_get_is_entry(c.node_counters@, k);
    match map_get(c.node_counters@, k) {
        Some(v) => {
            let i = choose|i: int|
                0 <= i < c.node_counters@.len() && #[trigger] c.node_counters@[i].0@ == k
                    && c.node_counters@[i].1 == v;
            lemma_sum_entry(c.node_counters@, i);
            lemma_sum_counters_nonneg(c.node_counters@);
        },
        None => {},
    }
}

impl Default for IoServerContext {
    /// A fresh, uninitialized node: no identity, no peers, nothing saved,
    /// all counters zero.
    fn default() -> (r: IoServerContext)
        ensures
            r.wf(),
            r.node_id@ == Seq::<char>::empty(),
            !r.initialized,
            r.neighbors@.len() == 0,
            r.messages_queued@.len() == 0,
            r.messages_saved@.len() == 0,
            r.counter == 0,
            r.node_counters@.len() == 0,
            r.messages_neighbors_have@.len() == 0,
            r.message_type == RequestTypes::Add,
            r.last_sync == 0,
            r.msg_id == 0,
    {
        let r = IoServerContext {
            node_id: String::new(),
            initialized: false,
            neighbors: Vec::new(),
            messages_queued: Vec::new(),
            messages_saved: Vec::new(),
            counter: 0,
            node_counters: Vec::new(),
            messages_neighbors_have: Vec::new(),
            message_type: RequestTypes::Add,
            last_sync: 0,
            msg_id: 0,
        };
        proof {
            assert(sum_counters(r.node_counters@) == 0);
        }
        r
    }
}

} // verus!
