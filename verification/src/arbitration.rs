//! Arbitration over the ontology: exporting a feature's outgoing edges
//! as text for an external arbiter, applying an arbiter's deletions, and
//! the unified maintenance dispatch.
use vstd::prelude::*;

use crate::engine::edge_base;
use crate::engine::onto_edge_post;
use crate::engine::quantize_micros;
use crate::engine::rel_type_of;
use crate::engine::AdvancedEngine;
use crate::extern_specs::lower_of;
use crate::extern_specs::lowercase;
use crate::extern_specs::string_from_chars;
use crate::graph::GraphEdge;
use crate::store::KwTable;
use crate::text::chars_of;

verus! {

/// The decimal digit character for a value below ten.
pub open spec fn digit_char(d: int) -> char {
    ((d + 48) as u8) as char
}

/// A strength shown with two decimals: the fraction of 65535 rounded to
/// hundredths, written `0.xx`, or `1.00` at saturation.
pub open spec fn strength_chars(s: u16) -> Seq<char> {
    let h = (s * 100 + 32767) / 65535;
    if h >= 100 {
        seq!['1', '.', '0', '0']
    } else {
        seq!['0', '.', digit_char(h / 10), digit_char(h % 10)]
    }
}

/// One arbitration line: `source -> target (Strength: 0.xx)`.
pub open spec fn line_of(src: Seq<char>, tgt: Seq<char>, s: u16) -> Seq<char> {
    src + " -> "@ + tgt + " (Strength: "@ + strength_chars(s) + ")"@
}

/// The newline-joined arbitration context of an edge list: one line per
/// edge whose target names a stored node, in edge order.
pub open spec fn arb_text(e: AdvancedEngine, src: Seq<char>, es: Seq<GraphEdge>) -> Seq<char>
    decreases es.len(),
{
    if es.len() == 0 {
        Seq::empty()
    } else {
        let prev = arb_text(e, src, es.drop_last());
        match e.nodes.getv(es.last().target_node_id) {
            Some(tn) => (if prev.len() > 0 {
                prev + seq!['\n']
            } else {
                prev
            }) + line_of(src, tn.content@, es.last().connection_strength),
            None => prev,
        }
    }
}

/// The ids that a list of target words resolves to, in order; unresolved
/// words are skipped.
pub open spec fn resolved_ids(kt: KwTable, ts: Seq<String>) -> Seq<i64>
    decreases ts.len(),
{
    if ts.len() == 0 {
        Seq::empty()
    } else {
        resolved_ids(kt, ts.drop_last()) + (match kt.getid(lower_of(ts.last()@)) {
            Some(id) => seq![id],
            None => Seq::empty(),
        })
    }
}

/// The edges that survive an arbitration deletion: those whose target is
/// not among the resolved ids, in order.
pub open spec fn keep_edges(es: Seq<GraphEdge>, tids: Seq<i64>) -> Seq<GraphEdge>
    decreases es.len(),
{
    if es.len() == 0 {
        Seq::empty()
    } else {
        keep_edges(es.drop_last(), tids) + (if tids.contains(es.last().target_node_id) {
            Seq::empty()
        } else {
            seq![es.last()]
        })
    }
}

/// Appends the characters of `piece` to `out`.
fn push_chars(out: &mut Vec<char>, piece: &Vec<char>)
    ensures
        final (out)@ == old(out)@ + piece@,
{
    let n = piece.len();
    let mut i: usize = 0;
    while i < n
        invariant
            n == piece@.len(),
            i <= n,
            out@ == old(out)@ + piece@.take(i as int),
        decreases n - i,
    {
        out.push(piece[i]);
        proof {
            assert(out@ =~= old(out)@ + piece@.take(i + 1));
        }
        i = i + 1;
    }
    proof {
        assert(piece@.take(n as int) =~= piece@);
    }
}

/// Appends the two-decimal strength text to `out`.
fn push_strength(out: &mut Vec<char>, s: u16)
    ensures
        final (out)@ == old(out)@ + strength_chars(s),
{
    let h: u32 = (s as u32 * 100 + 32767) / 65535;
    proof {
        vstd::arithmetic::div_mod::lemma_div_is_ordered(
            (s as int) * 100 + 32767,
            65535int * 100 + 32767,
            65535int,
        );
        assert((65535int * 100 + 32767) / 65535 == 100);
    }
    if h >= 100 {
        out.push('1');
        out.push('.');
        out.push('0');
        out.push('0');
        proof {
            assert(out@ =~= old(out)@ + strength_chars(s));
        }
    } else {
        out.push('0');
        out.push('.');
        let d1: u32 = h / 10;
        let d2: u32 = h % 10;
        out.push((d1 as u8 + 48) as char);
        out.push((d2 as u8 + 48) as char);
        proof {
            assert(out@ =~= old(out)@ + strength_chars(s));
        }
    }
}

impl AdvancedEngine {
    /// Exports the outgoing ontology edges of `source` as a newline-joined
    /// context for an external arbiter, or nothing when the feature is
    /// unknown or has no presentable edges.
    pub fn trigger_arbitration(&self, source: &str) -> (r: Option<String>)
        requires
            self.wf(),
        ensures
            ({
                let kl = lower_of(source@);
                match self.keyword_to_node.getid(kl) {
                    None => r is None,
                    Some(sid) => {
                        let text = arb_text(*self, source@, edge_base(self.ontology_graph, sid));
                        if text.len() == 0 {
                            r is None
                        } else {
                            r matches Some(s) && s@ == text
                        }
                    },
                }
            }),
    {
        let source_lower = lowercase(source);
        let found = self.keyword_to_node.find_idx(source_lower.as_str());
        let src_id = match found {
            Some(i) => self.keyword_to_node.ids[i],
            None => {
                return None;
            },
        };
        proof {
            assert(self.keyword_to_node.getid(lower_of(source@)) == Some(src_id));
        }
        let src_chars = chars_of(source);
        let arrow = chars_of(" -> ");
        let strength_label = chars_of(" (Strength: ");
        let close = chars_of(")");
        let mut out: Vec<char> = Vec::new();
        let gfound = self.ontology_graph.find_idx(src_id);
        match gfound {
            Some(gi) => {
                proof {
                    assert(self.ontology_graph.getv(src_id) matches Some(l) && l@
                        == self.ontology_graph.vals@[gi as int]@);
                }
                let es = &self.ontology_graph.vals[gi];
                let ghost esv = es@;
                let en = es.len();
                let mut k: usize = 0;
                proof {
                    assert(esv.take(0) =~= Seq::<GraphEdge>::empty());
                    assert(out@ =~= arb_text(*self, source@, esv.take(0)));
                }
                while k < en
                    invariant
                        self.wf(),
                        en == esv.len(),
                        k <= en,
                        es@ == esv,
                        gi < self.ontology_graph.vals@.len(),
                        esv == self.ontology_graph.vals@[gi as int]@,
                        src_chars@ == source@,
                        arrow@ == " -> "@,
                        strength_label@ == " (Strength: "@,
                        close@ == ")"@,
                        out@ == arb_text(*self, source@, esv.take(k as int)),
                    decreases en - k,
                {
                    proof {
                        assert(esv.take(k + 1).drop_last() =~= esv.take(k as int));
                        assert(esv.take(k + 1).last() == esv[k as int]);
                    }
                    let ed = es[k];
                    let nfound = self.nodes.find_idx(ed.target_node_id);
                    match nfound {
                        Some(ni) => {
                            proof {
                                assert(self.nodes.getv(ed.target_node_id) matches Some(n) && n
                                    == self.nodes.vals@[ni as int]);
                            }
                            if out.len() > 0 {
                                out.push('\n');
                            }
                            push_chars(&mut out, &src_chars);
                            push_chars(&mut out, &arrow);
                            let tc = chars_of(self.nodes.vals[ni].content.as_str());
                            push_chars(&mut out, &tc);
                            push_chars(&mut out, &strength_label);
                            push_strength(&mut out, ed.connection_strength);
                            push_chars(&mut out, &close);
                            proof {
                                assert(out@ =~= arb_text(*self, source@, esv.take(k + 1)));
                            }
                        },
                        None => {
                        },
                    }
                    k = k + 1;
                }
                proof {
                    assert(esv.take(en as int) =~= esv);
                }
            },
            None => {
                proof {
                    assert(arb_text(*self, source@, edge_base(self.ontology_graph, src_id))
                        =~= Seq::<char>::empty());
                }
            },
        }
        if out.len() == 0 {
            return None;
        }
        Some(string_from_chars(&out))
    }

    /// Removes the outgoing ontology edges of `source` whose targets are
    /// named in `delete_targets`, resolving each target through the
    /// keyword registry.
    pub fn apply_arbitration(&mut self, source: &str, delete_targets: Vec<String>)
        requires
            old(self).wf(),
        ensures
            final (self).wf(),
            ({
                let kl = lower_of(source@);
                match old(self).keyword_to_node.getid(kl) {
                    None => *final (self) == *old(self),
                    Some(sid) => {
                        match old(self).ontology_graph.getv(sid) {
                            None => *final (self) == *old(self),
                            Some(l) => {
                                let tids = resolved_ids(
                                    old(self).keyword_to_node,
                                    delete_targets@,
                                );
                                &&& (final (self).ontology_graph.getv(sid) matches Some(l2)
                                    && (if tids.len() > 0 {
                                    l2@ == keep_edges(l@, tids)
                                } else {
                                    l2@ == l@
                                }))
                                &&& (forall|w: i64|
                                    w != sid ==> #[trigger] final (self).ontology_graph.getv(w)
                                        == old(self).ontology_graph.getv(w))
                                &&& final (self).nodes == old(self).nodes
                                &&& final (self).graph == old(self).graph
                                &&& final (self).ac_matcher == old(self).ac_matcher
                                &&& final (self).feature_keywords == old(self).feature_keywords
                                &&& final (self).keyword_to_node == old(self).keyword_to_node
                                &&& final (self).in_degrees == old(self).in_degrees
                                &&& final (self).temporal_index == old(self).temporal_index
                                &&& final (self).affective_index == old(self).affective_index
                                &&& final (self).chaos_store == old(self).chaos_store
                            },
                        }
                    },
                }
            }),
    {
        let source_lower = lowercase(source);
        let found = self.keyword_to_node.find_idx(source_lower.as_str());
        let src_id = match found {
            Some(i) => self.keyword_to_node.ids[i],
            None => {
                return ;
            },
        };
        proof {
            assert(self.keyword_to_node.getid(lower_of(source@)) == Some(src_id));
        }
        let gfound = self.ontology_graph.find_idx(src_id);
        let gi = match gfound {
            Some(gi) => gi,
            None => {
                return ;
            },
        };
        proof {
            assert(self.ontology_graph.getv(src_id) matches Some(l) && l@
                == self.ontology_graph.vals@[gi as int]@);
        }
        let ghost dt = delete_targets@;
        let mut tids: Vec<i64> = Vec::new();
        let tn = delete_targets.len();
        let mut i: usize = 0;
        proof {
            assert(dt.take(0) =~= Seq::<String>::empty());
            assert(tids@ =~= resolved_ids(self.keyword_to_node, dt.take(0)));
        }
        while i < tn
            invariant
                self.wf(),
                tn == dt.len(),
                i <= tn,
                delete_targets@ == dt,
                tids@ == resolved_ids(self.keyword_to_node, dt.take(i as int)),
            decreases tn - i,
        {
            proof {
                assert(dt.take(i + 1).drop_last() =~= dt.take(i as int));
                assert(dt.take(i + 1).last() == dt[i as int]);
            }
            let tl = lowercase(delete_targets[i].as_str());
            let tfound = self.keyword_to_node.find_idx(tl.as_str());
            match tfound {
                Some(ki) => {
                    let tid = self.keyword_to_node.ids[ki];
                    proof {
                        assert(self.keyword_to_node.getid(lower_of(dt[i as int]@)) == Some(
                            tid,
                        ));
                    }
                    let ghost prev = tids@;
                    tids.push(tid);
                    proof {
                        assert(tids@ =~= prev + seq![tid]);
                    }
                },
                None => {
                    proof {
                        assert(resolved_ids(self.keyword_to_node, dt.take(i + 1))
                            =~= resolved_ids(self.keyword_to_node, dt.take(i as int)) + Seq::<
                            i64,
                        >::empty());
                    }
                },
            }
            i = i + 1;
        }
        proof {
            assert(dt.take(tn as int) =~= dt);
        }
        if tids.len() == 0 {
            return ;
        }
        let es = crate::graph::copy_edges(&self.ontology_graph.vals[gi]);
        let ghost esv = es@;
        let mut kept: Vec<GraphEdge> = Vec::new();
        let ecount = es.len();
        let mut k: usize = 0;
        proof {
            assert(esv.take(0) =~= Seq::<GraphEdge>::empty());
            assert(kept@ =~= keep_edges(esv.take(0), tids@));
        }
        while k < ecount
            invariant
                ecount == esv.len(),
                k <= ecount,
                es@ == esv,
                kept@ == keep_edges(esv.take(k as int), tids@),
            decreases ecount - k,
        {
            proof {
                assert(esv.take(k + 1).drop_last() =~= esv.take(k as int));
                assert(esv.take(k + 1).last() == esv[k as int]);
            }
            let ed = es[k];
            let mut found_t = false;
            let tcount = tids.len();
            let mut t: usize = 0;
            while t < tcount
                invariant
                    tcount == tids@.len(),
                    t <= tcount,
                    found_t == exists|a: int| 0 <= a < t && tids@[a] == ed.target_node_id,
                decreases tcount - t,
            {
                if tids[t] == ed.target_node_id {
                    found_t = true;
                }
                t = t + 1;
            }
            proof {
                assert(found_t == tids@.contains(ed.target_node_id));
            }
            if !found_t {
                let ghost prev = kept@;
                kept.push(ed);
                proof {
                    assert(kept@ =~= prev + seq![ed]);
                }
            } else {
                proof {
                    assert(keep_edges(esv.take(k + 1), tids@) =~= keep_edges(
                        esv.take(k as int),
                        tids@,
                    ) + Seq::<GraphEdge>::empty());
                }
            }
            k = k + 1;
        }
        proof {
            assert(esv.take(ecount as int) =~= esv);
        }
        self.ontology_graph.set_val(gi, kept);
        proof {
            crate::store::lemma_find_from_some(self.ontology_graph.keys@, src_id, 0);
            assert forall|w: i64| w != src_id implies #[trigger] self.ontology_graph.getv(w)
                == old(self).ontology_graph.getv(w) by {
                if crate::store::find_from(self.ontology_graph.keys@, w, 0) is Some {
                    crate::store::lemma_find_from_some(self.ontology_graph.keys@, w, 0);
                }
            }
        }
    }

    /// The unified maintenance dispatch: "upsert" maintains the relation;
    /// "replace" maintains it and then exports the arbitration context;
    /// anything else does nothing.
    pub fn execute_maintenance(
        &mut self,
        action: &str,
        source: &str,
        target: &str,
        relation_type: &str,
        strength_micros: u32,
        _reason: &str,
    ) -> (r: Option<String>)
        requires
            old(self).wf(),
        ensures
            final (self).wf(),
            lower_of(action@) == "upsert"@ ==> onto_edge_post(
                *old(self),
                *final (self),
                lower_of(source@),
                lower_of(target@),
                quantize_micros(strength_micros),
                rel_type_of(lower_of(relation_type@)),
            ) && r is None,
            lower_of(action@) == "replace"@ ==> onto_edge_post(
                *old(self),
                *final (self),
                lower_of(source@),
                lower_of(target@),
                quantize_micros(strength_micros),
                rel_type_of(lower_of(relation_type@)),
            ) && ({
                let kl = lower_of(source@);
                match final (self).keyword_to_node.getid(kl) {
                    None => r is None,
                    Some(sid) => {
                        let text = arb_text(
                            *final (self),
                            source@,
                            edge_base(final (self).ontology_graph, sid),
                        );
                        if text.len() == 0 {
                            r is None
                        } else {
                            r matches Some(s) && s@ == text
                        }
                    },
                }
            }),
            lower_of(action@) != "upsert"@ && lower_of(action@) != "replace"@ ==> *final (self)
                == *old(self) && r is None,
    {
        proof {
            reveal_strlit("upsert");
            reveal_strlit("replace");
            assert("upsert"@.len() == 6);
            assert("replace"@.len() == 7);
        }
        let al = lowercase(action);
        if crate::text::str_eq(al.as_str(), "upsert") {
            self.maintain_ontology(source, target, relation_type, strength_micros);
            None
        } else if crate::text::str_eq(al.as_str(), "replace") {
            self.maintain_ontology(source, target, relation_type, strength_micros);
            self.trigger_arbitration(source)
        } else {
            None
        }
    }
}

} // verus!
