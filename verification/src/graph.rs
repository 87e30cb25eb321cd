//! Graph data: typed nodes and edges, and the verified edge-list
//! operations — upsert with strengthening, Hebbian reinforcement, decay
//! with threshold pruning, and capacity pruning.
use vstd::prelude::*;
use vstd::pervasive::VecAdditionalExecFns;
use vstd::seq_lib::group_to_multiset_ensures;

verus! {

/// The kind of a node: a feature anchor or an event memory.
#[derive(Clone, Copy, PartialEq, Eq, Structural, Debug)]
pub enum NodeType {
    Feature,
    Event,
}

/// A typed, weighted edge to another node.
#[derive(Clone, Copy, PartialEq, Eq, Structural, Debug)]
pub struct GraphEdge {
    pub target_node_id: i64,
    pub connection_strength: u16,
    pub edge_type: u8,
}

/// A node of the two-layer graph. Features carry a lowercased keyword and
/// a semantic fingerprint; events carry their raw summary, timestamp and
/// full multimodal fingerprint.
pub struct Node {
    pub id: i64,
    pub node_type: NodeType,
    pub content: String,
    pub fingerprint: u64,
    pub timestamp: u64,
    pub emotions: Vec<u8>,
    pub prev_event: Option<i64>,
    pub next_event: Option<i64>,
}

/// The first index at or after `i` of an edge to `tgt`, if any.
pub open spec fn efind_from(es: Seq<GraphEdge>, tgt: i64, i: int) -> Option<int>
    decreases es.len() - i,
{
    if i < 0 || i >= es.len() {
        None
    } else if es[i].target_node_id == tgt {
        Some(i)
    } else {
        efind_from(es, tgt, i + 1)
    }
}

/// The index of the edge to `tgt`, if any.
pub open spec fn efind(es: Seq<GraphEdge>, tgt: i64) -> Option<int> {
    efind_from(es, tgt, 0)
}

/// Finds the index of the edge to `tgt`.
pub fn find_edge(es: &Vec<GraphEdge>, tgt: i64) -> (r: Option<usize>)
    ensures
        match r {
            Some(i) => efind(es@, tgt) == Some(i as int) && i < es@.len(),
            None => efind(es@, tgt) is None,
        },
{
    let n = es.len();
    let mut i: usize = 0;
    while i < n
        invariant
            n == es@.len(),
            i <= n,
            efind(es@, tgt) == efind_from(es@, tgt, i as int),
        decreases n - i,
    {
        if es[i].target_node_id == tgt {
            return Some(i);
        }
        i = i + 1;
    }
    None
}

/// The memory-graph upsert: an existing edge to `tgt` keeps the larger of
/// its strength and `q`; a missing one is appended as a representation
/// edge of strength `q`.
pub open spec fn mem_upsert_spec(es: Seq<GraphEdge>, tgt: i64, q: u16) -> Seq<GraphEdge> {
    match efind(es, tgt) {
        Some(i) => es.update(
            i,
            (GraphEdge {
                connection_strength: if q > es[i].connection_strength {
                    q
                } else {
                    es[i].connection_strength
                },
                ..es[i]
            }),
        ),
        None => es.push((GraphEdge { target_node_id: tgt, connection_strength: q, edge_type: 0 })),
    }
}

/// Applies `mem_upsert_spec` to an edge list.
pub fn mem_upsert(es: &mut Vec<GraphEdge>, tgt: i64, q: u16)
    ensures
        final (es)@ == mem_upsert_spec(old(es)@, tgt, q),
{
    let found = find_edge(es, tgt);
    match found {
        Some(i) => {
            let e = es[i];
            if q > e.connection_strength {
                es.set(
                    i,
                    GraphEdge {
                        target_node_id: e.target_node_id,
                        connection_strength: q,
                        edge_type: e.edge_type,
                    },
                );
            } else {
                proof {
                    assert(es@ =~= mem_upsert_spec(es@, tgt, q));
                }
            }
        },
        None => {
            es.push(GraphEdge { target_node_id: tgt, connection_strength: q, edge_type: 0 });
        },
    }
}

/// Saturating addition on edge strengths.
pub open spec fn sat_add_u16(a: u16, b: u16) -> u16 {
    if a + b > 65535 {
        65535u16
    } else {
        (a + b) as u16
    }
}

/// The Hebbian reinforcement of one edge: the strength grows by half the
/// new quantized weight, saturating, and never ends below that weight; the
/// edge type is overwritten.
pub open spec fn reinforce_edge(e: GraphEdge, q: u16, et: u8) -> GraphEdge {
    let grown = sat_add_u16(e.connection_strength, (q / 2) as u16);
    GraphEdge {
        target_node_id: e.target_node_id,
        connection_strength: if grown > q {
            grown
        } else {
            q
        },
        edge_type: et,
    }
}

/// The ontology-graph upsert: an existing edge to `tgt` is reinforced and
/// retyped; a missing one is appended with strength `q` and type `et`.
pub open spec fn onto_upsert_spec(es: Seq<GraphEdge>, tgt: i64, q: u16, et: u8) -> Seq<
    GraphEdge,
> {
    match efind(es, tgt) {
        Some(i) => es.update(i, reinforce_edge(es[i], q, et)),
        None => es.push((GraphEdge { target_node_id: tgt, connection_strength: q, edge_type: et })),
    }
}

/// Applies `onto_upsert_spec` to an edge list.
pub fn onto_upsert(es: &mut Vec<GraphEdge>, tgt: i64, q: u16, et: u8)
    ensures
        final (es)@ == onto_upsert_spec(old(es)@, tgt, q, et),
{
    let found = find_edge(es, tgt);
    match found {
        Some(i) => {
            let e = es[i];
            let half = q / 2;
            let grown: u16 = if e.connection_strength as u32 + half as u32 > 65535 {
                65535
            } else {
                e.connection_strength + half
            };
            let st: u16 = if grown > q {
                grown
            } else {
                q
            };
            es.set(
                i,
                GraphEdge { target_node_id: e.target_node_id, connection_strength: st, edge_type: et },
            );
        },
        None => {
            es.push(GraphEdge { target_node_id: tgt, connection_strength: q, edge_type: et });
        },
    }
}

/// One decayed strength: `floor(strength * rate_micros / 1000000)`.
pub open spec fn decayed_strength(s: u16, rate_micros: u32) -> u16
    recommends
        rate_micros <= 1000000,
{
    ((s * rate_micros) / 1000000) as u16
}

/// The edges that survive a decay-and-prune pass: every strength decays by
/// the rate, then edges at or below the threshold are dropped, order kept.
pub open spec fn decay_keep(es: Seq<GraphEdge>, rate_micros: u32, threshold: u16) -> Seq<
    GraphEdge,
>
    decreases es.len(),
{
    if es.len() == 0 {
        Seq::empty()
    } else {
        let e = es.last();
        let d = (GraphEdge {
            connection_strength: decayed_strength(e.connection_strength, rate_micros),
            ..e
        });
        decay_keep(es.drop_last(), rate_micros, threshold) + (if d.connection_strength > threshold {
            seq![d]
        } else {
            Seq::empty()
        })
    }
}

/// Decays every edge strength and drops those at or below the threshold.
/// Returns the number of edges removed.
pub fn decay_and_prune(es: &mut Vec<GraphEdge>, rate_micros: u32, threshold: u16) -> (removed:
    usize)
    requires
        rate_micros <= 1000000,
    ensures
        final (es)@ == decay_keep(old(es)@, rate_micros, threshold),
        removed == old(es)@.len() - final (es)@.len(),
        final (es)@.len() <= old(es)@.len(),
{
    let n = es.len();
    let mut out: Vec<GraphEdge> = Vec::new();
    let mut i: usize = 0;
    while i < n
        invariant
            n == es@.len(),
            i <= n,
            rate_micros <= 1000000,
            out@ == decay_keep(es@.take(i as int), rate_micros, threshold),
            out@.len() <= i,
        decreases n - i,
    {
        let e = es[i];
        proof {
            assert(e.connection_strength as int * rate_micros as int <= 65535 * 1000000)
                by (nonlinear_arith)
                requires
                    e.connection_strength <= 65535,
                    rate_micros <= 1000000,
            ;
            vstd::arithmetic::div_mod::lemma_div_is_ordered(
                e.connection_strength as int * rate_micros as int,
                65535int * 1000000,
                1000000,
            );
        }
        let ds: u16 = ((e.connection_strength as u64 * rate_micros as u64) / 1000000) as u16;
        proof {
            assert(ds == decayed_strength(e.connection_strength, rate_micros));
        }
        if ds > threshold {
            out.push(
                GraphEdge {
                    target_node_id: e.target_node_id,
                    connection_strength: ds,
                    edge_type: e.edge_type,
                },
            );
        }
        proof {
            assert(es@.take(i + 1).drop_last() =~= es@.take(i as int));
            assert(es@.take(i + 1).last() == es@[i as int]);
        }
        i = i + 1;
    }
    proof {
        assert(es@.take(n as int) =~= es@);
    }
    let removed = n - out.len();
    *es = out;
    removed
}

/// Descending order by strength between all pairs.
pub open spec fn edges_sorted_desc(es: Seq<GraphEdge>) -> bool {
    forall|a: int, b: int|
        0 <= a < b < es.len() ==> es[a].connection_strength >= es[b].connection_strength
}

/// Sorts an edge list by strength, descending; edges of equal strength
/// keep their order. The edges are a permutation of the input.
pub fn sort_edges_desc(es: &mut Vec<GraphEdge>)
    ensures
        edges_sorted_desc(final (es)@),
        final (es)@.to_multiset() == old(es)@.to_multiset(),
        final (es)@.len() == old(es)@.len(),
{
    proof {
        broadcast use group_to_multiset_ensures;

    }
    let n = es.len();
    let mut out: Vec<GraphEdge> = Vec::new();
    let mut i: usize = 0;
    proof {
        assert(es@.take(0) =~= Seq::<GraphEdge>::empty());
        assert(out@.to_multiset() =~= es@.take(0).to_multiset());
    }
    while i < n
        invariant
            n == es@.len(),
            i <= n,
            out@.len() == i,
            edges_sorted_desc(out@),
            out@.to_multiset() == es@.take(i as int).to_multiset(),
        decreases n - i,
    {
        let x = es[i];
        let k = x.connection_strength;
        let mut pos: usize = 0;
        while pos < out.len() && out[pos].connection_strength >= k
            invariant
                pos <= out@.len(),
                forall|a: int| 0 <= a < pos ==> out@[a].connection_strength >= k,
            decreases out@.len() - pos,
        {
            pos = pos + 1;
        }
        proof {
            assert(forall|b: int| pos <= b < out@.len() ==> out@[b].connection_strength < k);
        }
        let ghost prev = out@;
        out.insert(pos, x);
        proof {
            assert(out@ == prev.insert(pos as int, x));
            vstd::seq_lib::to_multiset_insert::<GraphEdge>(prev, pos as int, x);
            vstd::seq_lib::to_multiset_build::<GraphEdge>(es@.take(i as int), x);
            assert(es@.take(i + 1).drop_last() =~= es@.take(i as int));
            assert(es@.take(i + 1) =~= es@.take(i as int).push(x));
            assert forall|a: int, b: int|
                0 <= a < b < out@.len() implies out@[a].connection_strength
                >= out@[b].connection_strength by {
                if b < pos {
                } else if a == pos || b == pos {
                } else if a < pos {
                } else {
                }
            }
        }
        i = i + 1;
    }
    proof {
        assert(es@.take(n as int) =~= es@);
    }
    *es = out;
}


/// An element-wise copy of an edge list.
pub fn copy_edges(es: &Vec<GraphEdge>) -> (r: Vec<GraphEdge>)
    ensures
        r@ == es@,
{
    let n = es.len();
    let mut r: Vec<GraphEdge> = Vec::new();
    let mut i: usize = 0;
    while i < n
        invariant
            n == es@.len(),
            i <= n,
            r@ == es@.take(i as int),
        decreases n - i,
    {
        r.push(es[i]);
        i = i + 1;
    }
    proof {
        assert(es@.take(n as int) =~= es@);
    }
    r
}

/// An element-wise copy of an id list.
pub fn copy_ids(v: &Vec<i64>) -> (r: Vec<i64>)
    ensures
        r@ == v@,
{
    let n = v.len();
    let mut r: Vec<i64> = Vec::new();
    let mut i: usize = 0;
    while i < n
        invariant
            n == v@.len(),
            i <= n,
            r@ == v@.take(i as int),
        decreases n - i,
    {
        r.push(v[i]);
        i = i + 1;
    }
    proof {
        assert(v@.take(n as int) =~= v@);
    }
    r
}

} // verus!
