//! The associative-recall engine: the two-layer graph store, its mutation
//! operations (feature and event creation, Hebbian edge maintenance,
//! decay and pruning, arbitration), and the compile step that builds the
//! feature matcher and the inverted indexes.
use vstd::prelude::*;

use crate::chaos::ChaosStore;
use crate::codec::fp_multimodal;
use crate::codec::MASK_AFFECTIVE;
use crate::codec::MASK_TEMPORAL;
use crate::codec::SimHash;
use crate::extern_specs::lower_of;
use crate::extern_specs::lowercase;
use crate::extern_specs::xxh64;
use crate::extern_specs::xxh64_of;
use crate::graph::GraphEdge;
use crate::graph::Node;
use crate::graph::NodeType;
use crate::matcher::ac_patterns;
use crate::stopwords::is_stopword;
use crate::stopwords::is_stopword_str;
use crate::store::IdTable;
use crate::store::KwTable;
use crate::text::chars_of;
use crate::text::encode_chars;

verus! {

/// The full engine state: nodes, the two graphs, the compiled matcher and
/// keyword registry, the precomputed in-degrees, the two inverted indexes
/// and the chaos store.
pub struct AdvancedEngine {
    pub nodes: IdTable<Node>,
    pub graph: IdTable<Vec<GraphEdge>>,
    pub ontology_graph: IdTable<Vec<GraphEdge>>,
    pub ac_matcher: Option<aho_corasick::AhoCorasick>,
    pub feature_keywords: Vec<String>,
    pub keyword_to_node: KwTable,
    pub in_degrees: IdTable<u32>,
    pub temporal_index: IdTable<Vec<i64>>,
    pub affective_index: IdTable<Vec<i64>>,
    pub chaos_store: ChaosStore,
}

/// A freshly created feature node for keyword `kl` under id `id`.
pub open spec fn is_feature_node(n: Node, id: i64, kl: Seq<char>) -> bool {
    &&& n.id == id
    &&& n.node_type == NodeType::Feature
    &&& n.content@ == kl
    &&& n.fingerprint == fp_multimodal(kl, 0, 0, 0)
    &&& n.timestamp == 0
    &&& n.emotions@.len() == 0
    &&& n.prev_event is None
    &&& n.next_event is None
}

impl AdvancedEngine {
    /// All component tables are well-formed.
    pub open spec fn wf(self) -> bool {
        &&& self.nodes.wf()
        &&& self.graph.wf()
        &&& self.ontology_graph.wf()
        &&& self.keyword_to_node.wf()
        &&& self.in_degrees.wf()
        &&& self.temporal_index.wf()
        &&& self.affective_index.wf()
        &&& self.chaos_store.wf()
        &&& (match self.ac_matcher {
            Some(m) => ac_patterns(m).len() <= self.feature_keywords@.len(),
            None => true,
        })
        &&& forall|i: int|
            0 <= i < self.nodes.vals@.len() ==> (#[trigger] self.nodes.vals@[i]).id
                == self.nodes.keys@[i]
    }

    /// An empty engine.
    pub fn new() -> (r: Self)
        ensures
            r.wf(),
            r.nodes.keys@.len() == 0,
            r.graph.keys@.len() == 0,
            r.ontology_graph.keys@.len() == 0,
            r.ac_matcher is None,
            r.feature_keywords@.len() == 0,
            r.keyword_to_node.keys@.len() == 0,
            r.chaos_store.ids@.len() == 0,
    {
        AdvancedEngine {
            nodes: IdTable::new(),
            graph: IdTable::new(),
            ontology_graph: IdTable::new(),
            ac_matcher: None,
            feature_keywords: Vec::new(),
            keyword_to_node: KwTable::new(),
            in_degrees: IdTable::new(),
            temporal_index: IdTable::new(),
            affective_index: IdTable::new(),
            chaos_store: ChaosStore::new(),
        }
    }

    /// Registers a feature anchor: the keyword is lowercased; a stopword
    /// is silently rejected; otherwise a feature node is stored under
    /// `id`, the keyword is recorded, and the keyword registry binds the
    /// keyword to `id`, overwriting any earlier binding.
    pub fn add_feature(&mut self, id: i64, keyword: &str)
        requires
            old(self).wf(),
        ensures
            final (self).wf(),
            is_stopword(lower_of(keyword@)) ==> *final (self) == *old(self),
            !is_stopword(lower_of(keyword@)) ==> {
                let kl = lower_of(keyword@);
                &&& final (self).nodes.getv(id) matches Some(n) && is_feature_node(n, id, kl)
                &&& forall|w: i64| w != id ==> #[trigger] final (self).nodes.getv(w) == old(
                    self,
                ).nodes.getv(w)
                &&& final (self).nodes.keys@ == if old(self).nodes.contains_spec(id) {
                    old(self).nodes.keys@
                } else {
                    old(self).nodes.keys@.push(id)
                }
                &&& crate::sorts::string_views(final (self).feature_keywords@)
                    == crate::sorts::string_views(old(self).feature_keywords@).push(kl)
                &&& final (self).keyword_to_node.getid(kl) == Some(id)
                &&& forall|w: Seq<char>|
                    w != kl ==> #[trigger] final (self).keyword_to_node.getid(w) == old(
                        self,
                    ).keyword_to_node.getid(w)
                &&& final (self).graph == old(self).graph
                &&& final (self).ontology_graph == old(self).ontology_graph
                &&& final (self).ac_matcher == old(self).ac_matcher
                &&& final (self).in_degrees == old(self).in_degrees
                &&& final (self).temporal_index == old(self).temporal_index
                &&& final (self).affective_index == old(self).affective_index
                &&& final (self).chaos_store == old(self).chaos_store
            },
    {
        let keyword_lower = lowercase(keyword);
        if is_stopword_str(keyword_lower.as_str()) {
            return ;
        }
        let fp = SimHash::compute(keyword_lower.as_str());
        let content = keyword_lower.clone();
        let node = Node {
            id,
            node_type: NodeType::Feature,
            content,
            fingerprint: fp,
            timestamp: 0,
            emotions: Vec::new(),
            prev_event: None,
            next_event: None,
        };
        self.nodes.upsert(id, node);
        proof {
            crate::store::lemma_find_from_some(self.nodes.keys@, id, 0);
            assert forall|i: int|
                0 <= i < self.nodes.vals@.len() implies (#[trigger] self.nodes.vals@[i]).id
                == self.nodes.keys@[i] by {
                if old(self).nodes.contains_spec(id) {
                    crate::store::lemma_find_from_some(old(self).nodes.keys@, id, 0);
                }
            }
        }
        let kw_entry = keyword_lower.clone();
        let ghost prev_fk = self.feature_keywords@;
        self.feature_keywords.push(kw_entry);
        proof {
            assert(crate::sorts::string_views(self.feature_keywords@) =~= crate::sorts::string_views(
                prev_fk,
            ).push(lower_of(keyword@)));
        }
        self.keyword_to_node.upsert(keyword_lower, id);
    }

    /// Resolves or creates the feature for `word` and returns its id, or
    /// the sentinel -1 for a stopword. A new feature's id is derived from
    /// the keyword's hash.
    pub fn get_or_create_feature(&mut self, word: &str) -> (r: i64)
        requires
            old(self).wf(),
        ensures
            final (self).wf(),
            goc_post(*old(self), *final (self), lower_of(word@), r),
    {
        let word_lower = lowercase(word);
        if is_stopword_str(word_lower.as_str()) {
            return -1;
        }
        let found = self.keyword_to_node.find_idx(word_lower.as_str());
        match found {
            Some(i) => {
                proof {
                    crate::store::lemma_kfind_from_some(
                        self.keyword_to_node.key_views(),
                        word_lower@,
                        0,
                    );
                }
                self.keyword_to_node.ids[i]
            },
            None => {
                let wc = chars_of(word_lower.as_str());
                let mut bytes = encode_chars(&wc);
                bytes.push(0xFF);
                let h = xxh64(0, bytes.as_slice());
                let x = h as i64;
                let id: i64 = if x < 0 {
                    if x == i64::MIN {
                        x
                    } else {
                        -x
                    }
                } else {
                    x
                };
                proof {
                    assert(bytes@ == vstd::utf8::encode_utf8(lower_of(word@)).push(0xFF));
                    assert(id == feature_id_of(lower_of(word@)));
                }
                self.add_feature(id, word_lower.as_str());
                id
            },
        }
    }

    /// Resolves both endpoint keywords (creating features as needed),
    /// then inserts or reinforces the typed ontology edge; equality and
    /// inhibition edges are mirrored on the reverse direction. A stopword
    /// endpoint blocks the edge.
    fn upsert_ontology_typed(&mut self, src_word: &str, tgt_word: &str, weight_micros: u32, et: u8)
        requires
            old(self).wf(),
        ensures
            final (self).wf(),
            onto_edge_post(
                *old(self),
                *final (self),
                lower_of(src_word@),
                lower_of(tgt_word@),
                quantize_micros(weight_micros),
                et,
            ),
    {
        let ghost pre = *self;
        let src = self.get_or_create_feature(src_word);
        let ghost mid1 = *self;
        let tgt = self.get_or_create_feature(tgt_word);
        let ghost mid2 = *self;
        if src == -1 || tgt == -1 {
            proof {
                assert(onto_edge_post(
                    pre,
                    *self,
                    lower_of(src_word@),
                    lower_of(tgt_word@),
                    quantize_micros(weight_micros),
                    et,
                )) by {
                    assert(goc_post(pre, mid1, lower_of(src_word@), src));
                    assert(goc_post(mid1, mid2, lower_of(tgt_word@), tgt));
                }
            }
            return ;
        }
        let q = quantize_micros_exec(weight_micros);
        let found = self.ontology_graph.find_idx(src);
        match found {
            Some(i) => {
                let mut es = crate::graph::copy_edges(&self.ontology_graph.vals[i]);
                crate::graph::onto_upsert(&mut es, tgt, q, et);
                self.ontology_graph.set_val(i, es);
                proof {
                    crate::store::lemma_find_from_some(self.ontology_graph.keys@, src, 0);
                    assert forall|w: i64| w != src implies #[trigger] self.ontology_graph.getv(w)
                        == mid2.ontology_graph.getv(w) by {
                        if crate::store::find_from(self.ontology_graph.keys@, w, 0) is Some {
                            crate::store::lemma_find_from_some(self.ontology_graph.keys@, w, 0);
                        }
                    }
                }
            },
            None => {
                let mut es: Vec<GraphEdge> = Vec::new();
                crate::graph::onto_upsert(&mut es, tgt, q, et);
                proof {
                    assert(es@ == crate::graph::onto_upsert_spec(Seq::empty(), tgt, q, et));
                }
                self.ontology_graph.upsert(src, es);
            },
        }
        let ghost mid3 = *self;
        proof {
            assert(self.ontology_graph.getv(src) matches Some(l) && l@
                == crate::graph::onto_upsert_spec(edge_base(mid2.ontology_graph, src), tgt, q, et));
        }
        if et == 1 || et == 255 {
            let found_r = self.ontology_graph.find_idx(tgt);
            match found_r {
                Some(i) => {
                    proof {
                        if tgt != src {
                            assert(self.ontology_graph.getv(tgt) == mid2.ontology_graph.getv(
                                tgt,
                            ));
                        }
                        assert(self.ontology_graph.getv(tgt) matches Some(l) && l@
                            == self.ontology_graph.vals@[i as int]@);
                    }
                    let mut es = crate::graph::copy_edges(&self.ontology_graph.vals[i]);
                    crate::graph::onto_upsert(&mut es, src, q, et);
                    self.ontology_graph.set_val(i, es);
                    proof {
                        crate::store::lemma_find_from_some(self.ontology_graph.keys@, tgt, 0);
                        assert forall|w: i64| w != tgt implies #[trigger] self.ontology_graph.getv(
                            w,
                        ) == mid3.ontology_graph.getv(w) by {
                            if crate::store::find_from(self.ontology_graph.keys@, w, 0) is Some {
                                crate::store::lemma_find_from_some(
                                    self.ontology_graph.keys@,
                                    w,
                                    0,
                                );
                            }
                        }
                    }
                },
                None => {
                    let mut es: Vec<GraphEdge> = Vec::new();
                    crate::graph::onto_upsert(&mut es, src, q, et);
                    proof {
                        assert(es@ == crate::graph::onto_upsert_spec(Seq::empty(), src, q, et));
                    }
                    self.ontology_graph.upsert(tgt, es);
                },
            }
        }
        proof {
            assert(goc_post(pre, mid1, lower_of(src_word@), src));
            assert(goc_post(mid1, mid2, lower_of(tgt_word@), tgt));
            assert(onto_tables_post(mid2, *self, src, tgt, q, et));
        }
    }

    /// Adds or reinforces an ontology edge between two keywords with the
    /// given weight; `is_equality` wins over `is_inhibition`, and either
    /// makes the edge bidirectional.
    pub fn add_ontology_edge(
        &mut self,
        src_word: &str,
        tgt_word: &str,
        weight_micros: u32,
        is_equality: bool,
        is_inhibition: bool,
    )
        requires
            old(self).wf(),
        ensures
            final (self).wf(),
            onto_edge_post(
                *old(self),
                *final (self),
                lower_of(src_word@),
                lower_of(tgt_word@),
                quantize_micros(weight_micros),
                if is_equality {
                    1u8
                } else if is_inhibition {
                    255u8
                } else {
                    0u8
                },
            ),
    {
        let et: u8 = if is_equality {
            1
        } else if is_inhibition {
            255
        } else {
            0
        };
        self.upsert_ontology_typed(src_word, tgt_word, weight_micros, et)
    }

    /// Maintains an ontology relation named by a string tag: "equality"
    /// or "equal" makes an equality edge, "inhibition" or "conflict" an
    /// inhibition edge, anything else a representation edge.
    pub fn maintain_ontology(
        &mut self,
        source: &str,
        target: &str,
        relation_type: &str,
        strength_micros: u32,
    )
        requires
            old(self).wf(),
        ensures
            final (self).wf(),
            onto_edge_post(
                *old(self),
                *final (self),
                lower_of(source@),
                lower_of(target@),
                quantize_micros(strength_micros),
                rel_type_of(lower_of(relation_type@)),
            ),
    {
        let rl = lowercase(relation_type);
        let et: u8 = if crate::text::str_eq(rl.as_str(), "equality") || crate::text::str_eq(
            rl.as_str(),
            "equal",
        ) {
            1
        } else if crate::text::str_eq(rl.as_str(), "inhibition") || crate::text::str_eq(
            rl.as_str(),
            "conflict",
        ) {
            255
        } else {
            0
        };
        self.upsert_ontology_typed(source, target, strength_micros, et)
    }
}

/// The id that resolving keyword `kl` against registry `kt` yields: the
/// sentinel -1 for a stopword, the registered id when present, else the
/// hash-derived id of a fresh feature.
pub open spec fn goc_id(kt: KwTable, kl: Seq<char>) -> i64 {
    if is_stopword(kl) {
        -1i64
    } else {
        match kt.getid(kl) {
            Some(id) => id,
            None => feature_id_of(kl),
        }
    }
}

/// The hash-derived id of a fresh feature: the absolute value (wrapping
/// on the minimum) of the keyword's seeded piece hash.
pub open spec fn feature_id_of(kl: Seq<char>) -> i64 {
    let x = xxh64_of(0, vstd::utf8::encode_utf8(kl).push(0xFF)) as i64;
    if x == i64::MIN {
        x
    } else if x < 0 {
        (-x) as i64
    } else {
        x
    }
}

/// The edge type named by a lowercased relation tag.
pub open spec fn rel_type_of(rl: Seq<char>) -> u8 {
    if rl == "equality"@ || rl == "equal"@ {
        1u8
    } else if rl == "inhibition"@ || rl == "conflict"@ {
        255u8
    } else {
        0u8
    }
}

/// The quantized strength of a weight given in millionths: the weight is
/// clamped to [0, 1] and scaled to [0, 65535], rounding to nearest.
pub open spec fn quantize_micros(w: u32) -> u16 {
    let c = if w > 1000000 {
        1000000int
    } else {
        w as int
    };
    ((c * 65535 + 500000) / 1000000) as u16
}

/// Computes `quantize_micros`.
pub fn quantize_micros_exec(w: u32) -> (r: u16)
    ensures
        r == quantize_micros(w),
{
    let c: u64 = if w > 1000000 {
        1000000
    } else {
        w as u64
    };
    ((c * 65535 + 500000) / 1000000) as u16
}

/// How one feature-resolution step relates the engine states: the id is
/// resolved as `goc_id`; a stopword or an already-registered keyword
/// leaves the state untouched; otherwise exactly the fresh feature is
/// registered.
pub open spec fn goc_post(pre: AdvancedEngine, post: AdvancedEngine, kl: Seq<char>, r: i64) -> bool {
    &&& r == goc_id(pre.keyword_to_node, kl)
    &&& post.graph == pre.graph
    &&& post.ontology_graph == pre.ontology_graph
    &&& post.ac_matcher == pre.ac_matcher
    &&& post.in_degrees == pre.in_degrees
    &&& post.temporal_index == pre.temporal_index
    &&& post.affective_index == pre.affective_index
    &&& post.chaos_store == pre.chaos_store
    &&& if is_stopword(kl) || pre.keyword_to_node.getid(kl) is Some {
        post == pre
    } else {
        let kl2 = lower_of(kl);
        if is_stopword(kl2) {
            post == pre
        } else {
            &&& (post.nodes.getv(r) matches Some(n) && is_feature_node(n, r, kl2))
            &&& forall|w: i64| w != r ==> #[trigger] post.nodes.getv(w) == pre.nodes.getv(w)
            &&& crate::sorts::string_views(post.feature_keywords@) == crate::sorts::string_views(
                pre.feature_keywords@,
            ).push(kl2)
            &&& post.keyword_to_node.getid(kl2) == Some(r)
            &&& forall|w: Seq<char>|
                w != kl2 ==> #[trigger] post.keyword_to_node.getid(w) == pre.keyword_to_node.getid(
                    w,
                )
        }
    }
}

/// The edge list of `id` in an ontology table, or empty when absent.
pub open spec fn edge_base(t: IdTable<Vec<GraphEdge>>, id: i64) -> Seq<GraphEdge> {
    match t.getv(id) {
        Some(l) => l@,
        None => Seq::empty(),
    }
}

/// How the ontology table alone changes when the typed edge (src, tgt) is
/// inserted or reinforced, with the reverse direction mirrored for
/// equality and inhibition edges.
pub open spec fn onto_tables_post(
    pre: AdvancedEngine,
    post: AdvancedEngine,
    src: i64,
    tgt: i64,
    q: u16,
    et: u8,
) -> bool {
    let fwd = crate::graph::onto_upsert_spec(edge_base(pre.ontology_graph, src), tgt, q, et);
    &&& post.nodes == pre.nodes
    &&& post.graph == pre.graph
    &&& post.ac_matcher == pre.ac_matcher
    &&& post.feature_keywords == pre.feature_keywords
    &&& post.keyword_to_node == pre.keyword_to_node
    &&& post.in_degrees == pre.in_degrees
    &&& post.temporal_index == pre.temporal_index
    &&& post.affective_index == pre.affective_index
    &&& post.chaos_store == pre.chaos_store
    &&& if et == 1 || et == 255 {
        if tgt == src {
            &&& (post.ontology_graph.getv(src) matches Some(l) && l@
                == crate::graph::onto_upsert_spec(fwd, src, q, et))
            &&& forall|w: i64|
                w != src ==> #[trigger] post.ontology_graph.getv(w) == pre.ontology_graph.getv(w)
        } else {
            &&& (post.ontology_graph.getv(src) matches Some(l) && l@ == fwd)
            &&& (post.ontology_graph.getv(tgt) matches Some(l) && l@
                == crate::graph::onto_upsert_spec(edge_base(pre.ontology_graph, tgt), src, q, et))
            &&& forall|w: i64|
                w != src && w != tgt ==> #[trigger] post.ontology_graph.getv(w)
                    == pre.ontology_graph.getv(w)
        }
    } else {
        &&& (post.ontology_graph.getv(src) matches Some(l) && l@ == fwd)
        &&& forall|w: i64|
            w != src ==> #[trigger] post.ontology_graph.getv(w) == pre.ontology_graph.getv(w)
    }
}

/// How one full ontology maintenance step relates the engine states: two
/// feature resolutions in order, then, unless either endpoint was a
/// stopword, the typed edge insertion.
pub open spec fn onto_edge_post(
    pre: AdvancedEngine,
    post: AdvancedEngine,
    skl: Seq<char>,
    tkl: Seq<char>,
    q: u16,
    et: u8,
) -> bool {
    exists|mid1: AdvancedEngine, mid2: AdvancedEngine|
        {
            &&& #[trigger] goc_post(pre, mid1, skl, goc_id(pre.keyword_to_node, skl))
            &&& #[trigger] goc_post(mid1, mid2, tkl, goc_id(mid1.keyword_to_node, tkl))
            &&& {
                let sid = goc_id(pre.keyword_to_node, skl);
                let tid = goc_id(mid1.keyword_to_node, tkl);
                if sid == -1 || tid == -1 {
                    post == mid2
                } else {
                    onto_tables_post(mid2, post, sid, tid, q, et)
                }
            }
        }
}


/// The total number of edges over a sequence of edge lists.
pub open spec fn total_edges(ls: Seq<Vec<GraphEdge>>) -> int
    decreases ls.len(),
{
    if ls.len() == 0 {
        0
    } else {
        total_edges(ls.drop_last()) + ls.last()@.len()
    }
}

/// A saturating count held in a usize.
pub open spec fn sat_usize(x: int) -> usize {
    if x > usize::MAX {
        usize::MAX as usize
    } else if x < 0 {
        0usize
    } else {
        x as usize
    }
}

/// A list capped at the 100 strongest edges: the kept edges are sorted by
/// strength descending, drawn from the list before the cap, and any dropped edge is
/// no stronger than the weakest kept one.
pub open spec fn capped_from(d: Seq<GraphEdge>, l: Seq<GraphEdge>) -> bool {
    &&& l.len() == 100
    &&& crate::graph::edges_sorted_desc(l)
    &&& (forall|e: GraphEdge|
        #[trigger] l.to_multiset().count(e) <= d.to_multiset().count(e))
    &&& (forall|e: GraphEdge|
        d.to_multiset().count(e) > l.to_multiset().count(e)
            ==> e.connection_strength <= l[99].connection_strength)
}

/// How one list comes out of the capacity-pruning pass.
pub open spec fn cap_post(l0: Seq<GraphEdge>, l1: Seq<GraphEdge>) -> bool {
    if l0.len() > 100 {
        capped_from(l0, l1)
    } else {
        l1 == l0
    }
}

/// Truncating a sorted permutation of `d` to its 100 strongest edges
/// satisfies `capped_from`.
proof fn lemma_cap_sound(d: Seq<GraphEdge>, s: Seq<GraphEdge>)
    requires
        d.len() > 100,
        s.len() == d.len(),
        s.to_multiset() == d.to_multiset(),
        crate::graph::edges_sorted_desc(s),
    ensures
        capped_from(d, s.subrange(0, 100)),
{
    broadcast use vstd::multiset::group_multiset_axioms;

    let l = s.subrange(0, 100);
    let rest = s.subrange(100, s.len() as int);
    assert(s =~= l + rest);
    vstd::seq_lib::lemma_multiset_commutative(l, rest);
    assert forall|e: GraphEdge| #[trigger] l.to_multiset().count(e) <= d.to_multiset().count(
        e,
    ) by {
        assert(d.to_multiset().count(e) == l.to_multiset().count(e) + rest.to_multiset().count(
            e,
        ));
    }
    assert forall|e: GraphEdge|
        d.to_multiset().count(e) > l.to_multiset().count(e) implies e.connection_strength
        <= l[99].connection_strength by {
        assert(rest.to_multiset().count(e) > 0);
        vstd::seq_lib::to_multiset_contains::<GraphEdge>(rest, e);
        let j = choose|j: int| 0 <= j < rest.len() && rest[j] == e;
        assert(s[100 + j] == e);
        assert(s[99].connection_strength >= s[100 + j].connection_strength);
        assert(l[99] == s[99]);
    }
}

impl AdvancedEngine {
    /// Adds or strengthens a memory-graph association from `src` to
    /// `tgt`: the weight is quantized, and an existing edge keeps the
    /// larger strength.
    pub fn add_edge(&mut self, src: i64, tgt: i64, weight_micros: u32)
        requires
            old(self).wf(),
        ensures
            final (self).wf(),
            final (self).graph.getv(src) matches Some(l) && l@ == crate::graph::mem_upsert_spec(
                edge_base(old(self).graph, src),
                tgt,
                quantize_micros(weight_micros),
            ),
            forall|w: i64|
                w != src ==> #[trigger] final (self).graph.getv(w) == old(self).graph.getv(w),
            final (self).nodes == old(self).nodes,
            final (self).ontology_graph == old(self).ontology_graph,
            final (self).ac_matcher == old(self).ac_matcher,
            final (self).feature_keywords == old(self).feature_keywords,
            final (self).keyword_to_node == old(self).keyword_to_node,
            final (self).in_degrees == old(self).in_degrees,
            final (self).temporal_index == old(self).temporal_index,
            final (self).affective_index == old(self).affective_index,
            final (self).chaos_store == old(self).chaos_store,
    {
        let q = quantize_micros_exec(weight_micros);
        let found = self.graph.find_idx(src);
        match found {
            Some(i) => {
                proof {
                    assert(self.graph.getv(src) matches Some(l) && l@
                        == self.graph.vals@[i as int]@);
                }
                let mut es = crate::graph::copy_edges(&self.graph.vals[i]);
                crate::graph::mem_upsert(&mut es, tgt, q);
                self.graph.set_val(i, es);
                proof {
                    crate::store::lemma_find_from_some(self.graph.keys@, src, 0);
                    assert forall|w: i64| w != src implies #[trigger] self.graph.getv(w) == old(
                        self,
                    ).graph.getv(w) by {
                        if crate::store::find_from(self.graph.keys@, w, 0) is Some {
                            crate::store::lemma_find_from_some(self.graph.keys@, w, 0);
                        }
                    }
                }
            },
            None => {
                let mut es: Vec<GraphEdge> = Vec::new();
                crate::graph::mem_upsert(&mut es, tgt, q);
                proof {
                    assert(es@ == crate::graph::mem_upsert_spec(Seq::empty(), tgt, q));
                }
                self.graph.upsert(src, es);
            },
        }
    }

    /// Applies global decay to every ontology edge, then drops edges at
    /// or below the threshold. Returns the number of edges removed,
    /// saturating.
    pub fn apply_global_decay_and_pruning(&mut self, decay_rate_micros: u32, threshold: u16) -> (removed: usize)
        requires
            old(self).wf(),
            decay_rate_micros <= 1000000,
        ensures
            final (self).wf(),
            final (self).ontology_graph.keys@ == old(self).ontology_graph.keys@,
            final (self).ontology_graph.vals@.len() == old(self).ontology_graph.vals@.len(),
            forall|j: int|
                0 <= j < old(self).ontology_graph.vals@.len() ==> (#[trigger] final (
                self).ontology_graph.vals@[j])@ == crate::graph::decay_keep(
                    old(self).ontology_graph.vals@[j]@,
                    decay_rate_micros,
                    threshold,
                ),
            removed == sat_usize(
                total_edges(old(self).ontology_graph.vals@) - total_edges(
                    final (self).ontology_graph.vals@,
                ),
            ),
            final (self).nodes == old(self).nodes,
            final (self).graph == old(self).graph,
            final (self).ac_matcher == old(self).ac_matcher,
            final (self).feature_keywords == old(self).feature_keywords,
            final (self).keyword_to_node == old(self).keyword_to_node,
            final (self).in_degrees == old(self).in_degrees,
            final (self).temporal_index == old(self).temporal_index,
            final (self).affective_index == old(self).affective_index,
            final (self).chaos_store == old(self).chaos_store,
    {
        let n = self.ontology_graph.len();
        let mut removed: usize = 0;
        let mut i: usize = 0;
        while i < n
            invariant
                self.wf(),
                n == self.ontology_graph.vals@.len(),
                i <= n,
                decay_rate_micros <= 1000000,
                self.ontology_graph.keys@ == old(self).ontology_graph.keys@,
                self.ontology_graph.vals@.len() == old(self).ontology_graph.vals@.len(),
                forall|j: int|
                    i <= j < n ==> #[trigger] self.ontology_graph.vals@[j] == old(
                        self,
                    ).ontology_graph.vals@[j],
                forall|j: int|
                    0 <= j < i ==> (#[trigger] self.ontology_graph.vals@[j])@
                        == crate::graph::decay_keep(
                        old(self).ontology_graph.vals@[j]@,
                        decay_rate_micros,
                        threshold,
                    ),
                0 <= total_edges(self.ontology_graph.vals@.take(i as int)) <= total_edges(
                    old(self).ontology_graph.vals@.take(i as int),
                ),
                removed == sat_usize(
                    total_edges(old(self).ontology_graph.vals@.take(i as int)) - total_edges(
                        self.ontology_graph.vals@.take(i as int),
                    ),
                ),
                self.nodes == old(self).nodes,
                self.graph == old(self).graph,
                self.ac_matcher == old(self).ac_matcher,
                self.feature_keywords == old(self).feature_keywords,
                self.keyword_to_node == old(self).keyword_to_node,
                self.in_degrees == old(self).in_degrees,
                self.temporal_index == old(self).temporal_index,
                self.affective_index == old(self).affective_index,
                self.chaos_store == old(self).chaos_store,
            decreases n - i,
        {
            let ghost prev_vals = self.ontology_graph.vals@;
            let mut es = crate::graph::copy_edges(&self.ontology_graph.vals[i]);
            let d = crate::graph::decay_and_prune(&mut es, decay_rate_micros, threshold);
            self.ontology_graph.set_val(i, es);
            removed = if removed > usize::MAX - d {
                usize::MAX
            } else {
                removed + d
            };
            proof {
                lemma_total_edges_take(old(self).ontology_graph.vals@, i as int);
                lemma_total_edges_take(self.ontology_graph.vals@, i as int);
                assert(self.ontology_graph.vals@.take(i + 1).drop_last() =~= self.ontology_graph.vals@.take(i as int));
                assert(old(self).ontology_graph.vals@.take(i + 1).drop_last() =~= old(
                    self,
                ).ontology_graph.vals@.take(i as int));
                assert(self.ontology_graph.vals@.take(i as int) =~= prev_vals.take(i as int));
            }
            i = i + 1;
        }
        proof {
            assert(self.ontology_graph.vals@.take(n as int) =~= self.ontology_graph.vals@);
            assert(old(self).ontology_graph.vals@.take(n as int) =~= old(
                self,
            ).ontology_graph.vals@);
        }
        removed
    }

    /// The standing pruning pass: decay by 1 percent with the fixed
    /// threshold, then cap every node at its 100 strongest edges.
    pub fn prune_ontology(&mut self)
        requires
            old(self).wf(),
        ensures
            final (self).wf(),
            final (self).ontology_graph.keys@ == old(self).ontology_graph.keys@,
            final (self).ontology_graph.vals@.len() == old(self).ontology_graph.vals@.len(),
            forall|j: int|
                0 <= j < old(self).ontology_graph.vals@.len() ==> cap_post(
                    crate::graph::decay_keep(old(self).ontology_graph.vals@[j]@, 990000, 3277),
                    (#[trigger] final (self).ontology_graph.vals@[j])@,
                ),
            final (self).nodes == old(self).nodes,
            final (self).graph == old(self).graph,
            final (self).ac_matcher == old(self).ac_matcher,
            final (self).feature_keywords == old(self).feature_keywords,
            final (self).keyword_to_node == old(self).keyword_to_node,
            final (self).in_degrees == old(self).in_degrees,
            final (self).temporal_index == old(self).temporal_index,
            final (self).affective_index == old(self).affective_index,
            final (self).chaos_store == old(self).chaos_store,
    {
        let _removed = self.apply_global_decay_and_pruning(990000, 3277);
        let ghost mid = *self;
        let n = self.ontology_graph.len();
        let mut i: usize = 0;
        while i < n
            invariant
                self.wf(),
                n == self.ontology_graph.vals@.len(),
                i <= n,
                self.ontology_graph.keys@ == mid.ontology_graph.keys@,
                self.ontology_graph.vals@.len() == mid.ontology_graph.vals@.len(),
                forall|j: int|
                    i <= j < n ==> #[trigger] self.ontology_graph.vals@[j]
                        == mid.ontology_graph.vals@[j],
                forall|j: int|
                    0 <= j < i ==> cap_post(
                        mid.ontology_graph.vals@[j]@,
                        (#[trigger] self.ontology_graph.vals@[j])@,
                    ),
                self.nodes == mid.nodes,
                self.graph == mid.graph,
                self.ac_matcher == mid.ac_matcher,
                self.feature_keywords == mid.feature_keywords,
                self.keyword_to_node == mid.keyword_to_node,
                self.in_degrees == mid.in_degrees,
                self.temporal_index == mid.temporal_index,
                self.affective_index == mid.affective_index,
                self.chaos_store == mid.chaos_store,
            decreases n - i,
        {
            let cur_len = self.ontology_graph.vals[i].len();
            if cur_len > 100 {
                let ghost orig = self.ontology_graph.vals@[i as int]@;
                let mut es = crate::graph::copy_edges(&self.ontology_graph.vals[i]);
                crate::graph::sort_edges_desc(&mut es);
                let ghost sorted = es@;
                es.truncate(100);
                proof {
                    lemma_cap_sound(orig, sorted);
                    assert(es@ == sorted.subrange(0, 100));
                }
                self.ontology_graph.set_val(i, es);
            }
            i = i + 1;
        }
    }
}

/// `total_edges` of a one-longer prefix adds the length of the next list.
proof fn lemma_total_edges_take(ls: Seq<Vec<GraphEdge>>, i: int)
    requires
        0 <= i < ls.len(),
    ensures
        total_edges(ls.take(i + 1)) == total_edges(ls.take(i)) + ls[i]@.len(),
{
    assert(ls.take(i + 1).drop_last() =~= ls.take(i));
    assert(ls.take(i + 1).last() == ls[i]);
}


/// The 16-bit temporal field of a fingerprint.
pub open spec fn temporal_field(fp: u64) -> u16 {
    ((fp & MASK_TEMPORAL) >> 32) as u16
}

/// A freshly created event node for summary `s` under id `id`.
pub open spec fn is_event_node(n: Node, id: i64, s: Seq<char>) -> bool {
    &&& n.id == id
    &&& n.node_type == NodeType::Event
    &&& n.content@ == s
    &&& n.fingerprint == fp_multimodal(s, crate::timeparse::ets_of(s), 0, 0)
    &&& n.timestamp == crate::timeparse::ets_of(s)
    &&& n.emotions@.len() == 0
    &&& n.prev_event is None
    &&& n.next_event is None
}

impl AdvancedEngine {
    /// Stores an event memory: the timestamp is extracted from the
    /// summary, the multimodal fingerprint is computed from summary and
    /// timestamp, the chaos entry is added when a fingerprint or vector
    /// is given, and the temporal index gains the event under its
    /// nonzero temporal field.
    pub fn add_event(
        &mut self,
        id: i64,
        summary: &str,
        chaos_fp: Option<u128>,
        chaos_vec: Option<Vec<u16>>,
    )
        requires
            old(self).wf(),
        ensures
            final (self).wf(),
            final (self).nodes.getv(id) matches Some(n) && is_event_node(n, id, summary@),
            forall|w: i64|
                w != id ==> #[trigger] final (self).nodes.getv(w) == old(self).nodes.getv(w),
            final (self).nodes.keys@ == if old(self).nodes.contains_spec(id) {
                old(self).nodes.keys@
            } else {
                old(self).nodes.keys@.push(id)
            },
            ({
                let cf = match chaos_fp {
                    Some(f) => f,
                    None => 0,
                };
                let cvl = match chaos_vec {
                    Some(v) => v@.len(),
                    None => 0,
                };
                if cf != 0 || cvl > 0 {
                    if old(self).chaos_store.id_to_index.contains_spec(id) {
                        final (self).chaos_store.ids@ == old(self).chaos_store.ids@ && final (
                        self).chaos_store.fingerprints@ == old(self).chaos_store.fingerprints@
                    } else {
                        final (self).chaos_store.ids@ == old(self).chaos_store.ids@.push(id)
                            && final (self).chaos_store.fingerprints@ == old(
                        self).chaos_store.fingerprints@.push(cf)
                    }
                } else {
                    final (self).chaos_store == old(self).chaos_store
                }
            }),
            ({
                let fp = fp_multimodal(summary@, crate::timeparse::ets_of(summary@), 0, 0);
                let key = temporal_field(fp) as i64;
                if fp & MASK_TEMPORAL != 0 {
                    (final (self).temporal_index.getv(key) matches Some(b) && b@ == (match old(
                        self,
                    ).temporal_index.getv(key) {
                        Some(b0) => b0@,
                        None => Seq::empty(),
                    }).push(id)) && (forall|w: i64|
                        w != key ==> #[trigger] final (self).temporal_index.getv(w) == old(
                            self,
                        ).temporal_index.getv(w))
                } else {
                    final (self).temporal_index == old(self).temporal_index
                }
            }),
            final (self).affective_index == old(self).affective_index,
            final (self).graph == old(self).graph,
            final (self).ontology_graph == old(self).ontology_graph,
            final (self).ac_matcher == old(self).ac_matcher,
            final (self).feature_keywords == old(self).feature_keywords,
            final (self).keyword_to_node == old(self).keyword_to_node,
            final (self).in_degrees == old(self).in_degrees,
    {
        let sc = chars_of(summary);
        let timestamp = crate::timeparse::extract_timestamp(&sc);
        let fingerprint = SimHash::compute_multimodal(summary, timestamp, 0, 0);
        let content = summary.to_owned();
        let node = Node {
            id,
            node_type: NodeType::Event,
            content,
            fingerprint,
            timestamp,
            emotions: Vec::new(),
            prev_event: None,
            next_event: None,
        };
        self.nodes.upsert(id, node);
        proof {
            crate::store::lemma_find_from_some(self.nodes.keys@, id, 0);
            assert forall|i: int|
                0 <= i < self.nodes.vals@.len() implies (#[trigger] self.nodes.vals@[i]).id
                == self.nodes.keys@[i] by {
                if old(self).nodes.contains_spec(id) {
                    crate::store::lemma_find_from_some(old(self).nodes.keys@, id, 0);
                }
            }
        }
        let chaos_fingerprint: u128 = match chaos_fp {
            Some(f) => f,
            None => 0,
        };
        let chaos_vector: Vec<u16> = match chaos_vec {
            Some(v) => v,
            None => Vec::new(),
        };
        if chaos_fingerprint != 0 || chaos_vector.len() > 0 {
            self.chaos_store.add(id, chaos_fingerprint, chaos_vector);
        }
        if fingerprint & MASK_TEMPORAL != 0 {
            let st: u16 = ((fingerprint & MASK_TEMPORAL) >> 32) as u16;
            let key = st as i64;
            let found = self.temporal_index.find_idx(key);
            match found {
                Some(i) => {
                    proof {
                        assert(self.temporal_index.getv(key) matches Some(b) && b@
                            == self.temporal_index.vals@[i as int]@);
                    }
                    let mut b = crate::graph::copy_ids(&self.temporal_index.vals[i]);
                    b.push(id);
                    self.temporal_index.set_val(i, b);
                    proof {
                        crate::store::lemma_find_from_some(self.temporal_index.keys@, key, 0);
                        assert forall|w: i64| w != key implies #[trigger] self.temporal_index.getv(
                            w,
                        ) == old(self).temporal_index.getv(w) by {
                            if crate::store::find_from(self.temporal_index.keys@, w, 0) is Some {
                                crate::store::lemma_find_from_some(
                                    self.temporal_index.keys@,
                                    w,
                                    0,
                                );
                            }
                        }
                    }
                },
                None => {
                    let mut b: Vec<i64> = Vec::new();
                    b.push(id);
                    proof {
                        assert(b@ =~= Seq::<i64>::empty().push(id));
                    }
                    self.temporal_index.upsert(key, b);
                },
            }
        }
        let emotion_hash: u8 = ((fingerprint & MASK_AFFECTIVE) >> 48) as u8;
        proof {
            let sem = crate::codec::raw_text_hash(lower_of(summary@)) as u64;
            let tf: u64 = if timestamp > 0 {
                crate::codec::temporal_hash_of(timestamp) as u64
            } else {
                0
            };
            assert(sem <= 0xFFFFFFFF && tf <= 0xFFFF ==> ((((sem | (tf << 32) | (0u64 << 48) | (
            0u64 << 56)) & 0x00FF000000000000u64) >> 48) as u8) == 0) by (bit_vector);
            assert(fingerprint == (sem | (tf << 32) | (0u64 << 48) | (0u64 << 56)));
            assert(MASK_AFFECTIVE == 0x00FF000000000000u64);
            assert(emotion_hash == 0);
        }
        if emotion_hash != 0 {
            let mut bi: usize = 0;
            while bi < 8
                invariant
                    emotion_hash != 0,
                    emotion_hash == 0,
                decreases 8 - bi,
            {
                let bit: u8 = 1u8 << (bi as u8);
                if emotion_hash & bit != 0 {
                    let key = bit as i64;
                    let found = self.affective_index.find_idx(key);
                    match found {
                        Some(i) => {
                            let mut b = crate::graph::copy_ids(&self.affective_index.vals[i]);
                            b.push(id);
                            self.affective_index.set_val(i, b);
                        },
                        None => {
                            let mut b: Vec<i64> = Vec::new();
                            b.push(id);
                            self.affective_index.upsert(key, b);
                        },
                    }
                }
                bi = bi + 1;
            }
        }
    }
}


/// The value held by an optional degree entry.
pub open spec fn degv(o: Option<u32>) -> int {
    match o {
        Some(v) => v as int,
        None => 0,
    }
}

/// A count saturated to 32 bits.
pub open spec fn sat32(c: int) -> u32 {
    if c > 0xFFFFFFFF {
        0xFFFFFFFFu32
    } else if c < 0 {
        0u32
    } else {
        c as u32
    }
}

/// The number of edges in a list that point at `id`.
pub open spec fn count_tgt(es: Seq<GraphEdge>, id: i64) -> int
    decreases es.len(),
{
    if es.len() == 0 {
        0
    } else {
        count_tgt(es.drop_last(), id) + if es.last().target_node_id == id {
            1int
        } else {
            0
        }
    }
}

/// The number of edges across a sequence of lists that point at `id`.
pub open spec fn count_tgt_lists(ls: Seq<Vec<GraphEdge>>, id: i64) -> int
    decreases ls.len(),
{
    if ls.len() == 0 {
        0
    } else {
        count_tgt_lists(ls.drop_last(), id) + count_tgt(ls.last()@, id)
    }
}

/// Edge counts are nonnegative.
pub proof fn lemma_count_tgt_nonneg(es: Seq<GraphEdge>, id: i64)
    ensures
        0 <= count_tgt(es, id) <= es.len(),
    decreases es.len(),
{
    if es.len() > 0 {
        lemma_count_tgt_nonneg(es.drop_last(), id);
    }
}

/// Edge counts over lists are nonnegative.
pub proof fn lemma_count_tgt_lists_nonneg(ls: Seq<Vec<GraphEdge>>, id: i64)
    ensures
        0 <= count_tgt_lists(ls, id),
    decreases ls.len(),
{
    if ls.len() > 0 {
        lemma_count_tgt_lists_nonneg(ls.drop_last(), id);
        lemma_count_tgt_nonneg(ls.last()@, id);
    }
}

/// The expected degree entry for a count.
pub open spec fn deg_expect(c: int) -> Option<u32> {
    if c > 0 {
        Some(sat32(c))
    } else {
        None
    }
}

/// Adds the in-edges of one list to a degree table.
#[verifier::rlimit(100)]
fn add_edges_degrees(d: &mut IdTable<u32>, es: &Vec<GraphEdge>)
    requires
        old(d).wf(),
    ensures
        final (d).wf(),
        forall|id: i64|
            #[trigger] final (d).getv(id) == (if count_tgt(es@, id) == 0 {
                old(d).getv(id)
            } else {
                Some(sat32(degv(old(d).getv(id)) + count_tgt(es@, id)))
            }),
{
    let n = es.len();
    let mut j: usize = 0;
    while j < n
        invariant
            d.wf(),
            n == es@.len(),
            j <= n,
            forall|id: i64|
                #[trigger] d.getv(id) == (if count_tgt(es@.take(j as int), id) == 0 {
                    old(d).getv(id)
                } else {
                    Some(sat32(degv(old(d).getv(id)) + count_tgt(es@.take(j as int), id)))
                }),
        decreases n - j,
    {
        let t0 = es[j].target_node_id;
        let ghost dprev = *d;
        let found = d.find_idx(t0);
        match found {
            Some(i) => {
                let v = d.vals[i];
                let nv: u32 = if v == 0xFFFFFFFFu32 {
                    v
                } else {
                    v + 1
                };
                d.set_val(i, nv);
                proof {
                    crate::store::lemma_find_from_some(d.keys@, t0, 0);
                    assert(d.getv(t0) == Some(nv));
                    assert forall|w: i64| w != t0 implies #[trigger] d.getv(w) == dprev.getv(
                        w,
                    ) by {
                        if crate::store::find_from(d.keys@, w, 0) is Some {
                            crate::store::lemma_find_from_some(d.keys@, w, 0);
                        }
                    }
                }
            },
            None => {
                d.upsert(t0, 1);
            },
        }
        proof {
            assert forall|id: i64|
                #[trigger] d.getv(id) == (if count_tgt(es@.take(j + 1), id) == 0 {
                    old(d).getv(id)
                } else {
                    Some(sat32(degv(old(d).getv(id)) + count_tgt(es@.take(j + 1), id)))
                }) by {
                assert(es@.take(j + 1).drop_last() =~= es@.take(j as int));
                assert(es@.take(j + 1).last() == es@[j as int]);
                lemma_count_tgt_nonneg(es@.take(j as int), id);
                assert(dprev.getv(id) == (if count_tgt(es@.take(j as int), id) == 0 {
                    old(d).getv(id)
                } else {
                    Some(sat32(degv(old(d).getv(id)) + count_tgt(es@.take(j as int), id)))
                }));
                if id != t0 {
                    assert(d.getv(id) == dprev.getv(id));
                } else {
                    assert(count_tgt(es@.take(j + 1), id) == count_tgt(es@.take(j as int), id)
                        + 1);
                }
            }
        }
        j = j + 1;
    }
    proof {
        assert(es@.take(n as int) =~= es@);
    }
}

impl AdvancedEngine {
    /// Rebuilds the in-degree table from both graphs: every node's entry
    /// becomes the number of edges pointing at it, saturating, with no
    /// entry for a node of in-degree zero.
    #[verifier::rlimit(100)]
    fn rebuild_in_degrees(&mut self)
        requires
            old(self).wf(),
        ensures
            final (self).wf(),
            forall|id: i64|
                #[trigger] final (self).in_degrees.getv(id) == deg_expect(
                    count_tgt_lists(old(self).graph.vals@, id) + count_tgt_lists(
                        old(self).ontology_graph.vals@,
                        id,
                    ),
                ),
            final (self).nodes == old(self).nodes,
            final (self).graph == old(self).graph,
            final (self).ontology_graph == old(self).ontology_graph,
            final (self).ac_matcher == old(self).ac_matcher,
            final (self).feature_keywords == old(self).feature_keywords,
            final (self).keyword_to_node == old(self).keyword_to_node,
            final (self).temporal_index == old(self).temporal_index,
            final (self).affective_index == old(self).affective_index,
            final (self).chaos_store == old(self).chaos_store,
    {
        self.in_degrees.clear();
        proof {
            assert forall|id: i64| #[trigger] self.in_degrees.getv(id) == deg_expect(0) by {
            }
        }
        let gn = self.graph.len();
        let mut i: usize = 0;
        while i < gn
            invariant
                self.wf(),
                gn == self.graph.vals@.len(),
                i <= gn,
                forall|id: i64|
                    #[trigger] self.in_degrees.getv(id) == deg_expect(
                        count_tgt_lists(self.graph.vals@.take(i as int), id),
                    ),
                self.nodes == old(self).nodes,
                self.graph == old(self).graph,
                self.ontology_graph == old(self).ontology_graph,
                self.ac_matcher == old(self).ac_matcher,
                self.feature_keywords == old(self).feature_keywords,
                self.keyword_to_node == old(self).keyword_to_node,
                self.temporal_index == old(self).temporal_index,
                self.affective_index == old(self).affective_index,
                self.chaos_store == old(self).chaos_store,
            decreases gn - i,
        {
            let ghost dprev = self.in_degrees;
            let es = crate::graph::copy_edges(&self.graph.vals[i]);
            add_edges_degrees(&mut self.in_degrees, &es);
            proof {
                assert(self.graph.vals@.take(i + 1).drop_last() =~= self.graph.vals@.take(
                    i as int,
                ));
                assert(self.graph.vals@.take(i + 1).last() == self.graph.vals@[i as int]);
                assert forall|id: i64|
                    #[trigger] self.in_degrees.getv(id) == deg_expect(
                        count_tgt_lists(self.graph.vals@.take(i + 1), id),
                    ) by {
                    assert(dprev.getv(id) == deg_expect(
                        count_tgt_lists(self.graph.vals@.take(i as int), id),
                    ));
                    let c0 = count_tgt_lists(self.graph.vals@.take(i as int), id);
                    let k0 = count_tgt(es@, id);
                    lemma_count_tgt_lists_nonneg(self.graph.vals@.take(i as int), id);
                    lemma_count_tgt_nonneg(es@, id);
                    assert(count_tgt_lists(self.graph.vals@.take(i + 1), id) == c0 + k0);
                    assert(self.in_degrees.getv(id) == (if k0 == 0 {
                        dprev.getv(id)
                    } else {
                        Some(sat32(degv(dprev.getv(id)) + k0))
                    }));
                }
            }
            i = i + 1;
        }
        proof {
            assert(self.graph.vals@.take(gn as int) =~= self.graph.vals@);
        }
        let on = self.ontology_graph.len();
        let mut k: usize = 0;
        while k < on
            invariant
                self.wf(),
                on == self.ontology_graph.vals@.len(),
                k <= on,
                forall|id: i64|
                    #[trigger] self.in_degrees.getv(id) == deg_expect(
                        count_tgt_lists(self.graph.vals@, id) + count_tgt_lists(
                            self.ontology_graph.vals@.take(k as int),
                            id,
                        ),
                    ),
                self.nodes == old(self).nodes,
                self.graph == old(self).graph,
                self.ontology_graph == old(self).ontology_graph,
                self.ac_matcher == old(self).ac_matcher,
                self.feature_keywords == old(self).feature_keywords,
                self.keyword_to_node == old(self).keyword_to_node,
                self.temporal_index == old(self).temporal_index,
                self.affective_index == old(self).affective_index,
                self.chaos_store == old(self).chaos_store,
            decreases on - k,
        {
            let ghost dprev = self.in_degrees;
            let es = crate::graph::copy_edges(&self.ontology_graph.vals[k]);
            add_edges_degrees(&mut self.in_degrees, &es);
            proof {
                assert(self.ontology_graph.vals@.take(k + 1).drop_last()
                    =~= self.ontology_graph.vals@.take(k as int));
                assert(self.ontology_graph.vals@.take(k + 1).last()
                    == self.ontology_graph.vals@[k as int]);
                assert forall|id: i64|
                    #[trigger] self.in_degrees.getv(id) == deg_expect(
                        count_tgt_lists(self.graph.vals@, id) + count_tgt_lists(
                            self.ontology_graph.vals@.take(k + 1),
                            id,
                        ),
                    ) by {
                    assert(dprev.getv(id) == deg_expect(
                        count_tgt_lists(self.graph.vals@, id) + count_tgt_lists(
                            self.ontology_graph.vals@.take(k as int),
                            id,
                        ),
                    ));
                    let c0 = count_tgt_lists(self.graph.vals@, id) + count_tgt_lists(
                        self.ontology_graph.vals@.take(k as int),
                        id,
                    );
                    let k0 = count_tgt(es@, id);
                    lemma_count_tgt_lists_nonneg(self.graph.vals@, id);
                    lemma_count_tgt_lists_nonneg(self.ontology_graph.vals@.take(k as int), id);
                    lemma_count_tgt_nonneg(es@, id);
                    assert(count_tgt_lists(self.ontology_graph.vals@.take(k + 1), id)
                        == count_tgt_lists(self.ontology_graph.vals@.take(k as int), id) + k0);
                    assert(self.in_degrees.getv(id) == (if k0 == 0 {
                        dprev.getv(id)
                    } else {
                        Some(sat32(degv(dprev.getv(id)) + k0))
                    }));
                }
            }
            k = k + 1;
        }
        proof {
            assert(self.ontology_graph.vals@.take(on as int) =~= self.ontology_graph.vals@);
        }
    }
}


/// The 8-bit emotion field of a fingerprint.
pub open spec fn emo_field(fp: u64) -> u8 {
    ((fp & MASK_AFFECTIVE) >> 48) as u8
}

/// A key naming a single emotion bit.
pub open spec fn is_bit_key(w: i64) -> bool {
    w == 1 || w == 2 || w == 4 || w == 8 || w == 16 || w == 32 || w == 64 || w == 128
}

/// The view of an optional bucket.
pub open spec fn opt_view(o: Option<Vec<i64>>) -> Option<Seq<i64>> {
    match o {
        Some(v) => Some(v@),
        None => None,
    }
}

/// A bucket as an index entry: absent when empty.
pub open spec fn bucket_opt(b: Seq<i64>) -> Option<Seq<i64>> {
    if b.len() == 0 {
        None
    } else {
        Some(b)
    }
}

/// The ids of events whose temporal field is nonzero and equals `w`, in
/// node order.
pub open spec fn temporal_bucket(ns: Seq<Node>, w: i64) -> Seq<i64>
    decreases ns.len(),
{
    if ns.len() == 0 {
        Seq::empty()
    } else {
        temporal_bucket(ns.drop_last(), w) + (if ns.last().node_type == NodeType::Event
            && temporal_field(ns.last().fingerprint) != 0 && temporal_field(
            ns.last().fingerprint,
        ) as i64 == w {
            seq![ns.last().id]
        } else {
            Seq::empty()
        })
    }
}

/// The ids of events carrying the emotion bit named by `w`, in node
/// order.
pub open spec fn affective_bucket(ns: Seq<Node>, w: i64) -> Seq<i64>
    decreases ns.len(),
{
    if ns.len() == 0 {
        Seq::empty()
    } else {
        affective_bucket(ns.drop_last(), w) + (if ns.last().node_type == NodeType::Event
            && is_bit_key(w) && emo_field(ns.last().fingerprint) & (w as u8) != 0 {
            seq![ns.last().id]
        } else {
            Seq::empty()
        })
    }
}

/// Appends `id` to the bucket under `key`, creating the bucket if absent.
fn push_bucket(t: &mut IdTable<Vec<i64>>, key: i64, id: i64)
    requires
        old(t).wf(),
    ensures
        final (t).wf(),
        opt_view(final (t).getv(key)) == Some(
            (match opt_view(old(t).getv(key)) {
                Some(b) => b,
                None => Seq::empty(),
            }).push(id),
        ),
        forall|w: i64| w != key ==> #[trigger] final (t).getv(w) == old(t).getv(w),
{
    let found = t.find_idx(key);
    match found {
        Some(i) => {
            proof {
                assert(t.getv(key) matches Some(b) && b@ == t.vals@[i as int]@);
            }
            let mut b = crate::graph::copy_ids(&t.vals[i]);
            b.push(id);
            t.set_val(i, b);
            proof {
                crate::store::lemma_find_from_some(t.keys@, key, 0);
                assert forall|w: i64| w != key implies #[trigger] t.getv(w) == old(t).getv(
                    w,
                ) by {
                    if crate::store::find_from(t.keys@, w, 0) is Some {
                        crate::store::lemma_find_from_some(t.keys@, w, 0);
                    }
                }
            }
        },
        None => {
            let mut b: Vec<i64> = Vec::new();
            b.push(id);
            proof {
                assert(b@ =~= Seq::<i64>::empty().push(id));
            }
            t.upsert(key, b);
        },
    }
}


/// Appends `nid` to the bucket of every emotion bit set in
/// `emotion_hash`.
#[verifier::rlimit(100)]
fn push_affective(t: &mut IdTable<Vec<i64>>, emotion_hash: u8, nid: i64)
    requires
        old(t).wf(),
    ensures
        final (t).wf(),
        forall|w: i64|
            #[trigger] opt_view(final (t).getv(w)) == (if is_bit_key(w) && emotion_hash & (
            w as u8) != 0 {
                Some(
                    (match opt_view(old(t).getv(w)) {
                        Some(b) => b,
                        None => Seq::empty(),
                    }).push(nid),
                )
            } else {
                opt_view(old(t).getv(w))
            }),
{
    let ghost a0 = *t;
    if emotion_hash & 1 != 0 {
        push_bucket(t, 1, nid);
    }
    let ghost a1 = *t;
    proof {
        assert forall|w: i64|
            #[trigger] opt_view(a1.getv(w)) == (if (w == 1) && is_bit_key(w) && emotion_hash & (
            w as u8) != 0 {
                Some(
                    (match opt_view(a0.getv(w)) {
                        Some(b) => b,
                        None => Seq::empty(),
                    }).push(nid),
                )
            } else {
                opt_view(a0.getv(w))
            }) by {}
    }
    if emotion_hash & 2 != 0 {
        push_bucket(t, 2, nid);
    }
    let ghost a2 = *t;
    proof {
        assert forall|w: i64|
            #[trigger] opt_view(a2.getv(w)) == (if (w == 1 || w == 2) && is_bit_key(w)
                && emotion_hash & (w as u8) != 0 {
                Some(
                    (match opt_view(a0.getv(w)) {
                        Some(b) => b,
                        None => Seq::empty(),
                    }).push(nid),
                )
            } else {
                opt_view(a0.getv(w))
            }) by {
            assert(opt_view(a1.getv(w)) == (if (w == 1) && is_bit_key(w) && emotion_hash & (
            w as u8) != 0 {
                Some(
                    (match opt_view(a0.getv(w)) {
                        Some(b) => b,
                        None => Seq::empty(),
                    }).push(nid),
                )
            } else {
                opt_view(a0.getv(w))
            }));
        }
    }
    if emotion_hash & 4 != 0 {
        push_bucket(t, 4, nid);
    }
    let ghost a3 = *t;
    proof {
        assert forall|w: i64|
            #[trigger] opt_view(a3.getv(w)) == (if (w == 1 || w == 2 || w == 4) && is_bit_key(w) && emotion_hash & (
            w as u8) != 0 {
                Some(
                    (match opt_view(a0.getv(w)) {
                        Some(b) => b,
                        None => Seq::empty(),
                    }).push(nid),
                )
            } else {
                opt_view(a0.getv(w))
            }) by {
            assert(opt_view(a2.getv(w)) == (if (w == 1 || w == 2) && is_bit_key(w) && emotion_hash & (
            w as u8) != 0 {
                Some(
                    (match opt_view(a0.getv(w)) {
                        Some(b) => b,
                        None => Seq::empty(),
                    }).push(nid),
                )
            } else {
                opt_view(a0.getv(w))
            }));
        }
    }
    if emotion_hash & 8 != 0 {
        push_bucket(t, 8, nid);
    }
    let ghost a4 = *t;
    proof {
        assert forall|w: i64|
            #[trigger] opt_view(a4.getv(w)) == (if (w == 1 || w == 2 || w == 4 || w == 8) && is_bit_key(w) && emotion_hash & (
            w as u8) != 0 {
                Some(
                    (match opt_view(a0.getv(w)) {
                        Some(b) => b,
                        None => Seq::empty(),
                    }).push(nid),
                )
            } else {
                opt_view(a0.getv(w))
            }) by {
            assert(opt_view(a3.getv(w)) == (if (w == 1 || w == 2 || w == 4) && is_bit_key(w) && emotion_hash & (
            w as u8) != 0 {
                Some(
                    (match opt_view(a0.getv(w)) {
                        Some(b) => b,
                        None => Seq::empty(),
                    }).push(nid),
                )
            } else {
                opt_view(a0.getv(w))
            }));
        }
    }
    if emotion_hash & 16 != 0 {
        push_bucket(t, 16, nid);
    }
    let ghost a5 = *t;
    proof {
        assert forall|w: i64|
            #[trigger] opt_view(a5.getv(w)) == (if (w == 1 || w == 2 || w == 4 || w == 8 || w == 16) && is_bit_key(w) && emotion_hash & (
            w as u8) != 0 {
                Some(
                    (match opt_view(a0.getv(w)) {
                        Some(b) => b,
                        None => Seq::empty(),
                    }).push(nid),
                )
            } else {
                opt_view(a0.getv(w))
            }) by {
            assert(opt_view(a4.getv(w)) == (if (w == 1 || w == 2 || w == 4 || w == 8) && is_bit_key(w) && emotion_hash & (
            w as u8) != 0 {
                Some(
                    (match opt_view(a0.getv(w)) {
                        Some(b) => b,
                        None => Seq::empty(),
                    }).push(nid),
                )
            } else {
                opt_view(a0.getv(w))
            }));
        }
    }
    if emotion_hash & 32 != 0 {
        push_bucket(t, 32, nid);
    }
    let ghost a6 = *t;
    proof {
        assert forall|w: i64|
            #[trigger] opt_view(a6.getv(w)) == (if (w == 1 || w == 2 || w == 4 || w == 8 || w == 16 || w == 32) && is_bit_key(w) && emotion_hash & (
            w as u8) != 0 {
                Some(
                    (match opt_view(a0.getv(w)) {
                        Some(b) => b,
                        None => Seq::empty(),
                    }).push(nid),
                )
            } else {
                opt_view(a0.getv(w))
            }) by {
            assert(opt_view(a5.getv(w)) == (if (w == 1 || w == 2 || w == 4 || w == 8 || w == 16) && is_bit_key(w) && emotion_hash & (
            w as u8) != 0 {
                Some(
                    (match opt_view(a0.getv(w)) {
                        Some(b) => b,
                        None => Seq::empty(),
                    }).push(nid),
                )
            } else {
                opt_view(a0.getv(w))
            }));
        }
    }
    if emotion_hash & 64 != 0 {
        push_bucket(t, 64, nid);
    }
    let ghost a7 = *t;
    proof {
        assert forall|w: i64|
            #[trigger] opt_view(a7.getv(w)) == (if (w == 1 || w == 2 || w == 4 || w == 8 || w == 16 || w == 32 || w == 64) && is_bit_key(w) && emotion_hash & (
            w as u8) != 0 {
                Some(
                    (match opt_view(a0.getv(w)) {
                        Some(b) => b,
                        None => Seq::empty(),
                    }).push(nid),
                )
            } else {
                opt_view(a0.getv(w))
            }) by {
            assert(opt_view(a6.getv(w)) == (if (w == 1 || w == 2 || w == 4 || w == 8 || w == 16 || w == 32) && is_bit_key(w) && emotion_hash & (
            w as u8) != 0 {
                Some(
                    (match opt_view(a0.getv(w)) {
                        Some(b) => b,
                        None => Seq::empty(),
                    }).push(nid),
                )
            } else {
                opt_view(a0.getv(w))
            }));
        }
    }
    if emotion_hash & 128 != 0 {
        push_bucket(t, 128, nid);
    }
    let ghost a8 = *t;
    proof {
        assert forall|w: i64|
            #[trigger] opt_view(a8.getv(w)) == (if (w == 1 || w == 2 || w == 4 || w == 8 || w == 16 || w == 32 || w == 64 || w == 128) && is_bit_key(w) && emotion_hash & (
            w as u8) != 0 {
                Some(
                    (match opt_view(a0.getv(w)) {
                        Some(b) => b,
                        None => Seq::empty(),
                    }).push(nid),
                )
            } else {
                opt_view(a0.getv(w))
            }) by {
            assert(opt_view(a7.getv(w)) == (if (w == 1 || w == 2 || w == 4 || w == 8 || w == 16 || w == 32 || w == 64) && is_bit_key(w) && emotion_hash & (
            w as u8) != 0 {
                Some(
                    (match opt_view(a0.getv(w)) {
                        Some(b) => b,
                        None => Seq::empty(),
                    }).push(nid),
                )
            } else {
                opt_view(a0.getv(w))
            }));
        }
    }
    proof {
        assert forall|w: i64|
            #[trigger] opt_view(t.getv(w)) == (if is_bit_key(w) && emotion_hash & (w as u8)
                != 0 {
                Some(
                    (match opt_view(old(t).getv(w)) {
                        Some(b) => b,
                        None => Seq::empty(),
                    }).push(nid),
                )
            } else {
                opt_view(old(t).getv(w))
            }) by {
            assert(opt_view(a8.getv(w)) == (if (w == 1 || w == 2 || w == 4 || w == 8 || w == 16
                || w == 32 || w == 64 || w == 128) && is_bit_key(w) && emotion_hash & (w as u8)
                != 0 {
                Some(
                    (match opt_view(a0.getv(w)) {
                        Some(b) => b,
                        None => Seq::empty(),
                    }).push(nid),
                )
            } else {
                opt_view(a0.getv(w))
            }));
        }
    }

}

/// The lowercased keywords of all feature nodes, in node order.
pub open spec fn feature_contents(ns: Seq<Node>) -> Seq<Seq<char>>
    decreases ns.len(),
{
    if ns.len() == 0 {
        Seq::empty()
    } else {
        feature_contents(ns.drop_last()) + (if ns.last().node_type == NodeType::Feature {
            seq![ns.last().content@]
        } else {
            Seq::empty()
        })
    }
}

impl AdvancedEngine {
    /// Rebuilds both inverted indexes from the stored nodes: every event
    /// appears in the bucket of its nonzero temporal field, and in one
    /// bucket per set emotion bit, in node order.
    #[verifier::rlimit(100)]
    fn rebuild_indexes(&mut self)
        requires
            old(self).wf(),
        ensures
            final (self).wf(),
            forall|w: i64|
                #[trigger] opt_view(final (self).temporal_index.getv(w)) == bucket_opt(
                    temporal_bucket(old(self).nodes.vals@, w),
                ),
            forall|w: i64|
                #[trigger] opt_view(final (self).affective_index.getv(w)) == bucket_opt(
                    affective_bucket(old(self).nodes.vals@, w),
                ),
            final (self).nodes == old(self).nodes,
            final (self).graph == old(self).graph,
            final (self).ontology_graph == old(self).ontology_graph,
            final (self).ac_matcher == old(self).ac_matcher,
            final (self).feature_keywords == old(self).feature_keywords,
            final (self).keyword_to_node == old(self).keyword_to_node,
            final (self).in_degrees == old(self).in_degrees,
            final (self).chaos_store == old(self).chaos_store,
    {
        self.temporal_index.clear();
        self.affective_index.clear();
        let n = self.nodes.len();
        let mut i: usize = 0;
        while i < n
            invariant
                self.wf(),
                n == self.nodes.vals@.len(),
                i <= n,
                forall|w: i64|
                    #[trigger] opt_view(self.temporal_index.getv(w)) == bucket_opt(
                        temporal_bucket(self.nodes.vals@.take(i as int), w),
                    ),
                forall|w: i64|
                    #[trigger] opt_view(self.affective_index.getv(w)) == bucket_opt(
                        affective_bucket(self.nodes.vals@.take(i as int), w),
                    ),
                self.nodes == old(self).nodes,
                self.graph == old(self).graph,
                self.ontology_graph == old(self).ontology_graph,
                self.ac_matcher == old(self).ac_matcher,
                self.feature_keywords == old(self).feature_keywords,
                self.keyword_to_node == old(self).keyword_to_node,
                self.in_degrees == old(self).in_degrees,
                self.chaos_store == old(self).chaos_store,
            decreases n - i,
        {
            let ghost ns = self.nodes.vals@;
            let ghost nd = ns[i as int];
            proof {
                assert(ns.take(i + 1).drop_last() =~= ns.take(i as int));
                assert(ns.take(i + 1).last() == nd);
            }
            let is_event = match self.nodes.vals[i].node_type {
                NodeType::Event => true,
                NodeType::Feature => false,
            };
            if is_event {
                let fp = self.nodes.vals[i].fingerprint;
                let nid = self.nodes.vals[i].id;
                let st: u16 = ((fp & MASK_TEMPORAL) >> 32) as u16;
                let ghost tprev = self.temporal_index;
                if st != 0 {
                    push_bucket(&mut self.temporal_index, st as i64, nid);
                }
                proof {
                    assert forall|w: i64|
                        #[trigger] opt_view(self.temporal_index.getv(w)) == bucket_opt(
                            temporal_bucket(ns.take(i + 1), w),
                        ) by {
                        assert(opt_view(tprev.getv(w)) == bucket_opt(
                            temporal_bucket(ns.take(i as int), w),
                        ));
                        if st != 0 && w == st as i64 {
                            assert(temporal_bucket(ns.take(i + 1), w) == temporal_bucket(
                                ns.take(i as int),
                                w,
                            ).push(nid)) by {
                                assert(temporal_bucket(ns.take(i as int), w) + seq![nid]
                                    =~= temporal_bucket(ns.take(i as int), w).push(nid));
                            }
                        } else {
                            assert(temporal_bucket(ns.take(i + 1), w) == temporal_bucket(
                                ns.take(i as int),
                                w,
                            )) by {
                                assert(temporal_bucket(ns.take(i as int), w) + Seq::<
                                    i64,
                                >::empty() =~= temporal_bucket(ns.take(i as int), w));
                            }
                        }
                    }
                }
                let emotion_hash: u8 = ((fp & MASK_AFFECTIVE) >> 48) as u8;
                let ghost aprev = self.affective_index;
                push_affective(&mut self.affective_index, emotion_hash, nid);
                proof {
                    assert forall|w: i64|
                        #[trigger] opt_view(self.affective_index.getv(w)) == bucket_opt(
                            affective_bucket(ns.take(i + 1), w),
                        ) by {
                        assert(opt_view(aprev.getv(w)) == bucket_opt(
                            affective_bucket(ns.take(i as int), w),
                        ));
                        if is_bit_key(w) && emo_field(nd.fingerprint) & (w as u8) != 0 {
                            assert(affective_bucket(ns.take(i + 1), w) == affective_bucket(
                                ns.take(i as int),
                                w,
                            ).push(nid)) by {
                                assert(affective_bucket(ns.take(i as int), w) + seq![nid]
                                    =~= affective_bucket(ns.take(i as int), w).push(nid));
                            }
                        } else {
                            assert(affective_bucket(ns.take(i + 1), w) == affective_bucket(
                                ns.take(i as int),
                                w,
                            )) by {
                                assert(affective_bucket(ns.take(i as int), w) + Seq::<
                                    i64,
                                >::empty() =~= affective_bucket(ns.take(i as int), w));
                            }
                        }
                    }
                }
            } else {
                proof {
                    assert forall|w: i64|
                        #[trigger] opt_view(self.temporal_index.getv(w)) == bucket_opt(
                            temporal_bucket(ns.take(i + 1), w),
                        ) by {
                        assert(temporal_bucket(ns.take(i as int), w) + Seq::<i64>::empty()
                            =~= temporal_bucket(ns.take(i as int), w));
                    }
                    assert forall|w: i64|
                        #[trigger] opt_view(self.affective_index.getv(w)) == bucket_opt(
                            affective_bucket(ns.take(i + 1), w),
                        ) by {
                        assert(affective_bucket(ns.take(i as int), w) + Seq::<i64>::empty()
                            =~= affective_bucket(ns.take(i as int), w));
                    }
                }
            }
            i = i + 1;
        }
        proof {
            assert(self.nodes.vals@.take(n as int) =~= self.nodes.vals@);
        }
    }

    /// Rebuilds the feature matcher: the feature keywords are collected,
    /// sorted by byte length descending so that longer keywords win, and
    /// compiled into the leftmost-longest matcher; with no keywords the
    /// old matcher is kept.
    fn rebuild_matcher(&mut self)
        requires
            old(self).wf(),
        ensures
            final (self).wf(),
            ({
                let kws = crate::sorts::sort_len_desc(feature_contents(old(self).nodes.vals@));
                if kws.len() == 0 {
                    final (self).ac_matcher == old(self).ac_matcher && final (
                    self).feature_keywords == old(self).feature_keywords
                } else {
                    crate::sorts::string_views(final (self).feature_keywords@) == kws && (match
                    final (self).ac_matcher {
                        Some(m) => ac_patterns(m) == kws,
                        None => true,
                    })
                }
            }),
            final (self).nodes == old(self).nodes,
            final (self).graph == old(self).graph,
            final (self).ontology_graph == old(self).ontology_graph,
            final (self).keyword_to_node == old(self).keyword_to_node,
            final (self).in_degrees == old(self).in_degrees,
            final (self).temporal_index == old(self).temporal_index,
            final (self).affective_index == old(self).affective_index,
            final (self).chaos_store == old(self).chaos_store,
    {
        let n = self.nodes.len();
        let mut kws: Vec<String> = Vec::new();
        let mut i: usize = 0;
        while i < n
            invariant
                n == self.nodes.vals@.len(),
                i <= n,
                crate::sorts::string_views(kws@) == feature_contents(
                    self.nodes.vals@.take(i as int),
                ),
            decreases n - i,
        {
            let ghost ns = self.nodes.vals@;
            proof {
                assert(ns.take(i + 1).drop_last() =~= ns.take(i as int));
                assert(ns.take(i + 1).last() == ns[i as int]);
            }
            let is_feature = match self.nodes.vals[i].node_type {
                NodeType::Feature => true,
                NodeType::Event => false,
            };
            if is_feature {
                let ghost prev = kws@;
                kws.push(self.nodes.vals[i].content.clone());
                proof {
                    assert(crate::sorts::string_views(kws@) =~= crate::sorts::string_views(
                        prev,
                    ).push(ns[i as int].content@));
                    assert(feature_contents(ns.take(i + 1)) =~= feature_contents(
                        ns.take(i as int),
                    ).push(ns[i as int].content@));
                }
            } else {
                proof {
                    assert(feature_contents(ns.take(i + 1)) =~= feature_contents(
                        ns.take(i as int),
                    ));
                }
            }
            i = i + 1;
        }
        proof {
            assert(self.nodes.vals@.take(n as int) =~= self.nodes.vals@);
        }
        crate::sorts::sort_strings_len_desc(&mut kws);
        if kws.len() > 0 {
            let built = crate::matcher::build_matcher(&kws);
            match built {
                Some(m) => {
                    self.ac_matcher = Some(m);
                },
                None => {
                    self.ac_matcher = None;
                },
            }
            self.feature_keywords = kws;
        }
    }

    /// Compiles the engine: rebuilds the feature matcher over all feature
    /// keywords, the in-degree table over both graphs, and both inverted
    /// indexes over all events.
    pub fn compile(&mut self)
        requires
            old(self).wf(),
        ensures
            final (self).wf(),
            ({
                let kws = crate::sorts::sort_len_desc(feature_contents(old(self).nodes.vals@));
                if kws.len() == 0 {
                    final (self).ac_matcher == old(self).ac_matcher && final (
                    self).feature_keywords == old(self).feature_keywords
                } else {
                    crate::sorts::string_views(final (self).feature_keywords@) == kws && (match
                    final (self).ac_matcher {
                        Some(m) => ac_patterns(m) == kws,
                        None => true,
                    })
                }
            }),
            forall|id: i64|
                #[trigger] final (self).in_degrees.getv(id) == deg_expect(
                    count_tgt_lists(old(self).graph.vals@, id) + count_tgt_lists(
                        old(self).ontology_graph.vals@,
                        id,
                    ),
                ),
            forall|w: i64|
                #[trigger] opt_view(final (self).temporal_index.getv(w)) == bucket_opt(
                    temporal_bucket(old(self).nodes.vals@, w),
                ),
            forall|w: i64|
                #[trigger] opt_view(final (self).affective_index.getv(w)) == bucket_opt(
                    affective_bucket(old(self).nodes.vals@, w),
                ),
            final (self).nodes == old(self).nodes,
            final (self).graph == old(self).graph,
            final (self).ontology_graph == old(self).ontology_graph,
            final (self).keyword_to_node == old(self).keyword_to_node,
            final (self).chaos_store == old(self).chaos_store,
    {
        self.rebuild_matcher();
        self.rebuild_in_degrees();
        self.rebuild_indexes();
    }
}


/// The `(id, timestamp)` pairs of all event nodes, in node order.
pub open spec fn event_pairs(ns: Seq<Node>) -> Seq<(i64, u64)>
    decreases ns.len(),
{
    if ns.len() == 0 {
        Seq::empty()
    } else {
        event_pairs(ns.drop_last()) + (if ns.last().node_type == NodeType::Event {
            seq![(ns.last().id, ns.last().timestamp)]
        } else {
            Seq::empty()
        })
    }
}

/// Everything of a node but its temporal links.
pub open spec fn same_node_core(a: Node, b: Node) -> bool {
    &&& a.id == b.id
    &&& a.node_type == b.node_type
    &&& a.content@ == b.content@
    &&& a.fingerprint == b.fingerprint
    &&& a.timestamp == b.timestamp
    &&& a.emotions@ == b.emotions@
}

/// Node `ev[j]` is linked into the backbone: its neighbors are its
/// predecessor and successor in the sorted event order, the ends keeping
/// their old links.
pub open spec fn backbone_linked(
    pre: AdvancedEngine,
    post: AdvancedEngine,
    ev: Seq<(i64, u64)>,
    j: int,
) -> bool
    recommends
        0 <= j < ev.len(),
{
    &&& pre.nodes.getv(ev[j].0) matches Some(n0) && (post.nodes.getv(ev[j].0) matches Some(n1)
        && same_node_core(n0, n1) && n1.prev_event == (if j > 0 {
        Some(ev[j - 1].0)
    } else {
        n0.prev_event
    }) && n1.next_event == (if j + 1 < ev.len() {
        Some(ev[j + 1].0)
    } else {
        n0.next_event
    }))
}

/// How the backbone pass relates the engine states, for the sorted event
/// order `ev`.
pub open spec fn backbone_post(
    pre: AdvancedEngine,
    post: AdvancedEngine,
    ev: Seq<(i64, u64)>,
) -> bool {
    &&& crate::sorts::events_sorted_asc(ev)
    &&& ev.to_multiset() == event_pairs(pre.nodes.vals@).to_multiset()
    &&& ev.len() == event_pairs(pre.nodes.vals@).len()
    &&& post.nodes.keys@ == pre.nodes.keys@
    &&& (forall|j: int| 0 <= j < ev.len() ==> backbone_linked(pre, post, ev, j))
    &&& (forall|w: i64|
        (forall|j: int| 0 <= j < ev.len() ==> (#[trigger] ev[j]).0 != w) ==> #[trigger] post.nodes.getv(
            w,
        ) == pre.nodes.getv(w))
    &&& post.graph == pre.graph
    &&& post.ontology_graph == pre.ontology_graph
    &&& post.ac_matcher == pre.ac_matcher
    &&& post.feature_keywords == pre.feature_keywords
    &&& post.keyword_to_node == pre.keyword_to_node
    &&& post.in_degrees == pre.in_degrees
    &&& post.temporal_index == pre.temporal_index
    &&& post.affective_index == pre.affective_index
    &&& post.chaos_store == pre.chaos_store
}

/// Every event pair's id is the id of some node.
proof fn lemma_event_pairs_member(ns: Seq<Node>, p: (i64, u64))
    requires
        event_pairs(ns).contains(p),
    ensures
        exists|i: int| 0 <= i < ns.len() && (#[trigger] ns[i]).id == p.0,
    decreases ns.len(),
{
    if ns.len() > 0 {
        let ep = event_pairs(ns);
        let prev = event_pairs(ns.drop_last());
        if ns.last().node_type == NodeType::Event && p == (ns.last().id, ns.last().timestamp) {
            assert(ns[ns.len() - 1].id == p.0);
        } else {
            assert(prev.contains(p)) by {
                let k = choose|k: int| 0 <= k < ep.len() && ep[k] == p;
                if k < prev.len() {
                    assert(prev[k] == p);
                } else {
                    assert(ns.last().node_type == NodeType::Event);
                    assert(ep[k] == (ns.last().id, ns.last().timestamp));
                }
            }
            lemma_event_pairs_member(ns.drop_last(), p);
            let i = choose|i: int|
                0 <= i < ns.drop_last().len() && (#[trigger] ns.drop_last()[i]).id == p.0;
            assert(ns[i].id == p.0);
        }
    }
}

/// Under well-formed node storage, the event pairs carry distinct ids.
proof fn lemma_event_pairs_distinct(ns: Seq<Node>, keys: Seq<i64>)
    requires
        keys.len() == ns.len(),
        forall|i: int, j: int| 0 <= i < j < keys.len() ==> keys[i] != keys[j],
        forall|i: int| 0 <= i < ns.len() ==> (#[trigger] ns[i]).id == keys[i],
    ensures
        forall|a: int, b: int|
            0 <= a < b < event_pairs(ns).len() ==> (#[trigger] event_pairs(ns)[a]).0 != (
            #[trigger] event_pairs(ns)[b]).0,
    decreases ns.len(),
{
    if ns.len() > 0 {
        lemma_event_pairs_distinct(ns.drop_last(), keys.drop_last());
        let ep = event_pairs(ns);
        let prev = event_pairs(ns.drop_last());
        assert forall|a: int, b: int| 0 <= a < b < ep.len() implies (#[trigger] ep[a]).0 != (
        #[trigger] ep[b]).0 by {
            if b < prev.len() {
                assert(prev[a] == ep[a] && prev[b] == ep[b]);
            } else {
                assert(ns.last().node_type == NodeType::Event);
                assert(ep[b] == (ns.last().id, ns.last().timestamp));
                assert(prev[a] == ep[a]);
                if ep[a].0 == ep[b].0 {
                    assert(prev.contains(prev[a]));
                    lemma_event_pairs_member(ns.drop_last(), prev[a]);
                    let i = choose|i: int|
                        0 <= i < ns.drop_last().len() && (#[trigger] ns.drop_last()[i]).id
                            == prev[a].0;
                    assert(keys[i] == keys[ns.len() - 1]);
                }
            }
        }
    }
}

/// A permutation of an id-distinct pair sequence is id-distinct.
proof fn lemma_perm_ids_distinct(ev0: Seq<(i64, u64)>, ev: Seq<(i64, u64)>)
    requires
        ev.to_multiset() == ev0.to_multiset(),
        forall|a: int, b: int|
            0 <= a < b < ev0.len() ==> (#[trigger] ev0[a]).0 != (#[trigger] ev0[b]).0,
    ensures
        forall|a: int, b: int|
            0 <= a < b < ev.len() ==> (#[trigger] ev[a]).0 != (#[trigger] ev[b]).0,
{
    broadcast use vstd::multiset::group_multiset_axioms;

    assert(ev0.no_duplicates()) by {
        assert forall|i: int, j: int|
            0 <= i < ev0.len() && 0 <= j < ev0.len() && i != j implies ev0[i] != ev0[j] by {
            if i < j {
                assert(ev0[i].0 != ev0[j].0);
            } else {
                assert(ev0[j].0 != ev0[i].0);
            }
        }
    }
    ev0.lemma_multiset_has_no_duplicates();
    ev.lemma_multiset_has_no_duplicates_conv();
    assert forall|a: int, b: int| 0 <= a < b < ev.len() implies (#[trigger] ev[a]).0 != (
    #[trigger] ev[b]).0 by {
        if ev[a].0 == ev[b].0 {
            assert(ev[a] != ev[b]);
            vstd::seq_lib::to_multiset_contains::<(i64, u64)>(ev, ev[a]);
            vstd::seq_lib::to_multiset_contains::<(i64, u64)>(ev, ev[b]);
            assert(ev.contains(ev[a]) && ev.contains(ev[b]));
            vstd::seq_lib::to_multiset_contains::<(i64, u64)>(ev0, ev[a]);
            vstd::seq_lib::to_multiset_contains::<(i64, u64)>(ev0, ev[b]);
            assert(ev0.contains(ev[a]) && ev0.contains(ev[b]));
            let ia = choose|i: int| 0 <= i < ev0.len() && ev0[i] == ev[a];
            let ib = choose|i: int| 0 <= i < ev0.len() && ev0[i] == ev[b];
            assert(ia != ib);
            if ia < ib {
                assert(ev0[ia].0 != ev0[ib].0);
            } else {
                assert(ev0[ib].0 != ev0[ia].0);
            }
        }
    }
}

impl AdvancedEngine {
    /// Builds the temporal backbone: all events are ordered by timestamp,
    /// ties by id, and linked into a doubly-linked chain through their
    /// `prev_event` and `next_event` fields; the ends keep their old
    /// links, and nothing else changes.
    #[verifier::rlimit(100)]
    pub fn build_temporal_backbone(&mut self)
        requires
            old(self).wf(),
        ensures
            final (self).wf(),
            exists|ev: Seq<(i64, u64)>| backbone_post(*old(self), *final (self), ev),
    {
        let ghost ns0 = self.nodes.vals@;
        let mut evs: Vec<(i64, u64)> = Vec::new();
        let n = self.nodes.len();
        let mut i: usize = 0;
        proof {
            assert(ns0.take(0) =~= Seq::<Node>::empty());
            assert(evs@ =~= event_pairs(ns0.take(0)));
        }
        while i < n
            invariant
                n == ns0.len(),
                i <= n,
                self.nodes.vals@ == ns0,
                evs@ == event_pairs(ns0.take(i as int)),
            decreases n - i,
        {
            proof {
                assert(ns0.take(i + 1).drop_last() =~= ns0.take(i as int));
                assert(ns0.take(i + 1).last() == ns0[i as int]);
            }
            let is_event = match self.nodes.vals[i].node_type {
                NodeType::Event => true,
                NodeType::Feature => false,
            };
            if is_event {
                let ghost prev = evs@;
                evs.push((self.nodes.vals[i].id, self.nodes.vals[i].timestamp));
                proof {
                    assert(evs@ =~= prev + seq![(ns0[i as int].id, ns0[i as int].timestamp)]);
                }
            } else {
                proof {
                    assert(event_pairs(ns0.take(i + 1)) =~= event_pairs(ns0.take(i as int))
                        + Seq::<(i64, u64)>::empty());
                }
            }
            i = i + 1;
        }
        proof {
            assert(ns0.take(n as int) =~= ns0);
            lemma_event_pairs_distinct(ns0, self.nodes.keys@);
        }
        crate::sorts::sort_events_asc(&mut evs);
        let ghost ev = evs@;
        proof {
            lemma_perm_ids_distinct(event_pairs(ns0), ev);
            assert forall|q: int|
                0 <= q < ev.len() implies event_pairs(old(self).nodes.vals@).contains(
                #[trigger] ev[q],
            ) by {
                vstd::seq_lib::to_multiset_contains::<(i64, u64)>(ev, ev[q]);
                assert(ev.contains(ev[q]));
                vstd::seq_lib::to_multiset_contains::<(i64, u64)>(event_pairs(ns0), ev[q]);
            }
        }
        let ecount = evs.len();
        let mut j: usize = 0;
        while j < ecount
            invariant
                old(self).wf(),
                self.wf(),
                ecount == ev.len(),
                j <= ecount,
                evs@ == ev,
                forall|a: int, b: int|
                    0 <= a < b < ev.len() ==> (#[trigger] ev[a]).0 != (#[trigger] ev[b]).0,
                self.nodes.keys@ == old(self).nodes.keys@,
                self.nodes.vals@.len() == old(self).nodes.vals@.len(),
                forall|q: int| 0 <= q < ev.len() ==> event_pairs(old(self).nodes.vals@).contains(
                    #[trigger] ev[q],
                ),
                forall|p: int| 0 <= p < j ==> backbone_linked(*old(self), *self, ev, p),
                forall|w: i64|
                    (forall|p: int| 0 <= p < j ==> (#[trigger] ev[p]).0 != w)
                        ==> #[trigger] self.nodes.getv(w) == old(self).nodes.getv(w),
                self.graph == old(self).graph,
                self.ontology_graph == old(self).ontology_graph,
                self.ac_matcher == old(self).ac_matcher,
                self.feature_keywords == old(self).feature_keywords,
                self.keyword_to_node == old(self).keyword_to_node,
                self.in_degrees == old(self).in_degrees,
                self.temporal_index == old(self).temporal_index,
                self.affective_index == old(self).affective_index,
                self.chaos_store == old(self).chaos_store,
            decreases ecount - j,
        {
            let cid = evs[j].0;
            proof {
                assert(self.nodes.getv(cid) == old(self).nodes.getv(cid)) by {
                    assert(forall|p: int| 0 <= p < j ==> (#[trigger] ev[p]).0 != cid);
                }
                assert(event_pairs(old(self).nodes.vals@).contains(ev[j as int]));
                lemma_event_pairs_member(old(self).nodes.vals@, ev[j as int]);
                let q = choose|q: int|
                    0 <= q < old(self).nodes.vals@.len() && (#[trigger] old(
                        self,
                    ).nodes.vals@[q]).id == cid;
                assert(old(self).nodes.keys@[q] == cid);
                if crate::store::find_from(self.nodes.keys@, cid, 0) is None {
                    crate::store::lemma_find_from_none(self.nodes.keys@, cid, 0);
                }
            }
            let found = self.nodes.find_idx(cid);
            match found {
                Some(ni) => {
                    proof {
                        assert(self.nodes.getv(cid) matches Some(nd) && nd
                            == self.nodes.vals@[ni as int]);
                    }
                    let prev_link: Option<i64> = if j > 0 {
                        Some(evs[j - 1].0)
                    } else {
                        self.nodes.vals[ni].prev_event
                    };
                    let next_link: Option<i64> = if j + 1 < ecount {
                        Some(evs[j + 1].0)
                    } else {
                        self.nodes.vals[ni].next_event
                    };
                    let mut emo: Vec<u8> = Vec::new();
                    let emolen = self.nodes.vals[ni].emotions.len();
                    let mut ei: usize = 0;
                    while ei < emolen
                        invariant
                            ni < self.nodes.vals@.len(),
                            emolen == self.nodes.vals@[ni as int].emotions@.len(),
                            ei <= emolen,
                            emo@ == self.nodes.vals@[ni as int].emotions@.take(ei as int),
                        decreases emolen - ei,
                    {
                        emo.push(self.nodes.vals[ni].emotions[ei]);
                        ei = ei + 1;
                    }
                    proof {
                        assert(emo@ =~= self.nodes.vals@[ni as int].emotions@);
                    }
                    let newnode = Node {
                        id: cid,
                        node_type: self.nodes.vals[ni].node_type,
                        content: self.nodes.vals[ni].content.clone(),
                        fingerprint: self.nodes.vals[ni].fingerprint,
                        timestamp: self.nodes.vals[ni].timestamp,
                        emotions: emo,
                        prev_event: prev_link,
                        next_event: next_link,
                    };
                    let ghost before = *self;
                    self.nodes.set_val(ni, newnode);
                    proof {
                        crate::store::lemma_find_from_some(self.nodes.keys@, cid, 0);
                        assert(self.nodes.getv(cid) matches Some(n1) && n1
                            == self.nodes.vals@[ni as int]);
                        assert forall|w: i64| w != cid implies #[trigger] self.nodes.getv(w)
                            == before.nodes.getv(w) by {
                            if crate::store::find_from(self.nodes.keys@, w, 0) is Some {
                                crate::store::lemma_find_from_some(self.nodes.keys@, w, 0);
                            }
                        }
                        assert(backbone_linked(*old(self), *self, ev, j as int));
                        assert forall|p: int| 0 <= p < j + 1 implies backbone_linked(
                            *old(self),
                            *self,
                            ev,
                            p,
                        ) by {
                            if p < j {
                                assert(ev[p].0 != cid);
                                assert(backbone_linked(*old(self), before, ev, p));
                            }
                        }
                        assert forall|i2: int|
                            0 <= i2 < self.nodes.vals@.len() implies (#[trigger] self.nodes.vals@[
                        i2]).id == self.nodes.keys@[i2] by {
                        }
                    }
                },
                None => {
                },
            }
            j = j + 1;
        }
        proof {
            assert(backbone_post(*old(self), *self, ev));
        }
    }
}

} // verus!
