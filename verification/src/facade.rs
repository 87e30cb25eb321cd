//! The engine facade: thin operations over the engine and the JSON
//! rendering of ranked results, with quote escaping and four-decimal
//! scores.
use vstd::prelude::*;

use crate::engine::is_event_node;
use crate::engine::is_feature_node;
use crate::engine::onto_edge_post;
use crate::engine::quantize_micros;
use crate::engine::rel_type_of;
use crate::engine::AdvancedEngine;
use crate::extern_specs::lower_of;
use crate::extern_specs::string_from_chars;
use crate::retrieve::retrieve_spec;
use crate::stopwords::is_stopword;

verus! {

/// The decimal digits of a nonnegative number, most significant first.
pub open spec fn dec_chars(n: int) -> Seq<char>
    recommends
        n >= 0,
    decreases n,
{
    if n < 10 {
        seq![crate::arbitration::digit_char(if n >= 0 {
            n
        } else {
            0
        })]
    } else {
        dec_chars(n / 10).push(crate::arbitration::digit_char(n % 10))
    }
}

/// A signed id in decimal.
pub open spec fn i64_chars(v: i64) -> Seq<char> {
    if v < 0 {
        seq!['-'] + dec_chars(-(v as int))
    } else {
        dec_chars(v as int)
    }
}

/// A score in millionths shown with four decimals, rounding the last
/// digit half up.
pub open spec fn score_chars(m: i64) -> Seq<char> {
    let am = if m >= 0 {
        m as int
    } else {
        -(m as int)
    };
    let t4 = (am + 50) / 100;
    let whole = t4 / 10000;
    let frac = t4 % 10000;
    (if m < 0 {
        seq!['-']
    } else {
        Seq::empty()
    }) + dec_chars(whole) + seq!['.'] + seq![
        crate::arbitration::digit_char(frac / 1000),
        crate::arbitration::digit_char((frac / 100) % 10),
        crate::arbitration::digit_char((frac / 10) % 10),
        crate::arbitration::digit_char(frac % 10),
    ]
}

/// A text with every double quote escaped by a backslash.
pub open spec fn escape_json(s: Seq<char>) -> Seq<char>
    decreases s.len(),
{
    if s.len() == 0 {
        Seq::empty()
    } else {
        escape_json(s.drop_last()) + (if s.last() == '"' {
            seq!['\\', '"']
        } else {
            seq![s.last()]
        })
    }
}

/// One rendered result object.
pub open spec fn json_item(e: AdvancedEngine, id: i64, score: i64) -> Seq<char> {
    let content = match e.nodes.getv(id) {
        Some(n) => n.content@,
        None => Seq::empty(),
    };
    let ts: u64 = match e.nodes.getv(id) {
        Some(n) => n.timestamp,
        None => 0,
    };
    "{\"id\":"@ + i64_chars(id) + ",\"score\":"@ + score_chars(score) + ",\"content\":\""@
        + escape_json(content) + "\",\"timestamp\":"@ + dec_chars(ts as int) + seq!['}']
}

/// The comma-joined rendered items, in rank order.
pub open spec fn json_items(rs: Seq<(i64, i64)>, e: AdvancedEngine) -> Seq<char>
    decreases rs.len(),
{
    if rs.len() == 0 {
        Seq::empty()
    } else {
        let prev = json_items(rs.drop_last(), e);
        (if rs.len() > 1 {
            prev + seq![',']
        } else {
            prev
        }) + json_item(e, rs.last().0, rs.last().1)
    }
}

/// The rendered result array.
pub open spec fn json_of(rs: Seq<(i64, i64)>, e: AdvancedEngine) -> Seq<char> {
    seq!['['] + json_items(rs, e) + seq![']']
}

/// Appends the decimal digits of `n`.
fn push_dec(out: &mut Vec<char>, n: u64)
    ensures
        final (out)@ == old(out)@ + dec_chars(n as int),
    decreases n,
{
    if n < 10 {
        out.push((n as u8 + 48) as char);
        proof {
            assert(out@ =~= old(out)@ + dec_chars(n as int));
        }
    } else {
        push_dec(out, n / 10);
        out.push(((n % 10) as u8 + 48) as char);
        proof {
            assert(out@ =~= old(out)@ + dec_chars(n as int));
        }
    }
}

/// Appends a signed id in decimal.
fn push_i64(out: &mut Vec<char>, v: i64)
    ensures
        final (out)@ == old(out)@ + i64_chars(v),
{
    if v < 0 {
        out.push('-');
        let av: u64 = (-(v as i128)) as u64;
        push_dec(out, av);
        proof {
            assert(out@ =~= old(out)@ + i64_chars(v));
        }
    } else {
        push_dec(out, v as u64);
    }
}

/// Appends a score with four decimals.
fn push_score(out: &mut Vec<char>, m: i64)
    ensures
        final (out)@ == old(out)@ + score_chars(m),
{
    let am: u64 = if m >= 0 {
        m as u64
    } else {
        (-(m as i128)) as u64
    };
    let t4: u64 = (am + 50) / 100;
    let whole: u64 = t4 / 10000;
    let frac: u64 = t4 % 10000;
    if m < 0 {
        out.push('-');
    }
    push_dec(out, whole);
    out.push('.');
    out.push(((frac / 1000) as u8 + 48) as char);
    out.push((((frac / 100) % 10) as u8 + 48) as char);
    out.push((((frac / 10) % 10) as u8 + 48) as char);
    out.push(((frac % 10) as u8 + 48) as char);
    proof {
        assert(out@ =~= old(out)@ + score_chars(m));
    }
}

/// Appends a text with double quotes escaped.
fn push_escaped(out: &mut Vec<char>, s: &Vec<char>)
    ensures
        final (out)@ == old(out)@ + escape_json(s@),
{
    let n = s.len();
    let mut i: usize = 0;
    proof {
        assert(s@.take(0) =~= Seq::<char>::empty());
        assert(out@ =~= old(out)@ + escape_json(s@.take(0)));
    }
    while i < n
        invariant
            n == s@.len(),
            i <= n,
            out@ == old(out)@ + escape_json(s@.take(i as int)),
        decreases n - i,
    {
        proof {
            assert(s@.take(i + 1).drop_last() =~= s@.take(i as int));
            assert(s@.take(i + 1).last() == s@[i as int]);
        }
        let c = s[i];
        if c == '"' {
            out.push('\\');
            out.push('"');
        } else {
            out.push(c);
        }
        proof {
            assert(out@ =~= old(out)@ + escape_json(s@.take(i + 1)));
        }
        i = i + 1;
    }
    proof {
        assert(s@.take(n as int) =~= s@);
    }
}

/// The engine behind the facade operations.
pub struct PedsaEngine {
    pub inner: AdvancedEngine,
}

impl PedsaEngine {
    /// A fresh engine.
    pub fn new() -> (r: Self)
        ensures
            r.inner.wf(),
            r.inner.nodes.keys@.len() == 0,
    {
        PedsaEngine { inner: AdvancedEngine::new() }
    }

    /// Registers a feature anchor.
    pub fn add_feature(&mut self, id: i64, keyword: &str)
        requires
            old(self).inner.wf(),
        ensures
            final (self).inner.wf(),
            is_stopword(lower_of(keyword@)) ==> final (self).inner == old(self).inner,
            !is_stopword(lower_of(keyword@)) ==> (final (self).inner.nodes.getv(id) matches Some(
                n,
            ) && is_feature_node(n, id, lower_of(keyword@))),
    {
        self.inner.add_feature(id, keyword);
    }

    /// Stores an event memory.
    pub fn add_event(&mut self, id: i64, summary: &str)
        requires
            old(self).inner.wf(),
        ensures
            final (self).inner.wf(),
            final (self).inner.nodes.getv(id) matches Some(n) && is_event_node(n, id, summary@),
    {
        self.inner.add_event(id, summary, None, None);
    }

    /// Adds or strengthens a memory association, weight in millionths.
    pub fn add_edge(&mut self, src: i64, tgt: i64, weight_micros: u32)
        requires
            old(self).inner.wf(),
        ensures
            final (self).inner.wf(),
            final (self).inner.graph.getv(src) matches Some(l) && l@
                == crate::graph::mem_upsert_spec(
                crate::engine::edge_base(old(self).inner.graph, src),
                tgt,
                quantize_micros(weight_micros),
            ),
    {
        self.inner.add_edge(src, tgt, weight_micros);
    }

    /// Maintains an ontology relation named by a string tag.
    pub fn maintain_ontology(
        &mut self,
        source: &str,
        target: &str,
        relation_type: &str,
        strength_micros: u32,
    )
        requires
            old(self).inner.wf(),
        ensures
            final (self).inner.wf(),
            onto_edge_post(
                old(self).inner,
                final (self).inner,
                lower_of(source@),
                lower_of(target@),
                quantize_micros(strength_micros),
                rel_type_of(lower_of(relation_type@)),
            ),
    {
        self.inner.maintain_ontology(source, target, relation_type, strength_micros);
    }

    /// Compiles the matcher, in-degrees and inverted indexes.
    pub fn compile(&mut self)
        requires
            old(self).inner.wf(),
        ensures
            final (self).inner.wf(),
            forall|w: i64|
                #[trigger] crate::engine::opt_view(final (self).inner.temporal_index.getv(w))
                    == crate::engine::bucket_opt(
                    crate::engine::temporal_bucket(old(self).inner.nodes.vals@, w),
                ),
            forall|w: i64|
                #[trigger] crate::engine::opt_view(final (self).inner.affective_index.getv(w))
                    == crate::engine::bucket_opt(
                    crate::engine::affective_bucket(old(self).inner.nodes.vals@, w),
                ),
    {
        self.inner.compile();
    }

    /// Runs the standing pruning pass over the ontology.
    pub fn prune_ontology(&mut self)
        requires
            old(self).inner.wf(),
        ensures
            final (self).inner.wf(),
            forall|j: int|
                0 <= j < old(self).inner.ontology_graph.vals@.len() ==> crate::engine::cap_post(
                    crate::graph::decay_keep(
                        old(self).inner.ontology_graph.vals@[j]@,
                        990000,
                        3277,
                    ),
                    (#[trigger] final (self).inner.ontology_graph.vals@[j])@,
                ),
    {
        self.inner.prune_ontology();
    }

    /// Retrieves the ranked results for a query and renders them as a
    /// JSON array of `{"id","score","content","timestamp"}` objects in
    /// rank order, scores with four decimals and quotes escaped.
    pub fn retrieve(&self, query: &str, ref_time: u64) -> (r: String)
        requires
            self.inner.wf(),
        ensures
            r@ == json_of(retrieve_spec(self.inner, query@, ref_time), self.inner),
    {
        let results = self.inner.retrieve(query, ref_time);
        let ghost rs = results@;
        let mut out: Vec<char> = Vec::new();
        out.push('[');
        let n = results.len();
        let mut i: usize = 0;
        proof {
            assert(rs.take(0) =~= Seq::<(i64, i64)>::empty());
            assert(out@ =~= seq!['['] + json_items(rs.take(0), self.inner));
        }
        while i < n
            invariant
                self.inner.wf(),
                n == rs.len(),
                i <= n,
                results@ == rs,
                out@ == seq!['['] + json_items(rs.take(i as int), self.inner),
            decreases n - i,
        {
            proof {
                assert(rs.take(i + 1).drop_last() =~= rs.take(i as int));
                assert(rs.take(i + 1).last() == rs[i as int]);
            }
            if i > 0 {
                out.push(',');
            }
            let rid = results[i].0;
            let score = results[i].1;
            let open_brace = crate::text::chars_of("{\"id\":");
            push_chars_local(&mut out, &open_brace);
            push_i64(&mut out, rid);
            let sc_label = crate::text::chars_of(",\"score\":");
            push_chars_local(&mut out, &sc_label);
            push_score(&mut out, score);
            let ct_label = crate::text::chars_of(",\"content\":\"");
            push_chars_local(&mut out, &ct_label);
            let found = self.inner.nodes.find_idx(rid);
            match found {
                Some(ni) => {
                    proof {
                        assert(self.inner.nodes.getv(rid) matches Some(nd) && nd
                            == self.inner.nodes.vals@[ni as int]);
                    }
                    let cc = crate::text::chars_of(self.inner.nodes.vals[ni].content.as_str());
                    push_escaped(&mut out, &cc);
                    let ts_label = crate::text::chars_of("\",\"timestamp\":");
                    push_chars_local(&mut out, &ts_label);
                    push_dec(&mut out, self.inner.nodes.vals[ni].timestamp);
                },
                None => {
                    proof {
                        assert(escape_json(Seq::empty()) =~= Seq::<char>::empty());
                    }
                    let ts_label = crate::text::chars_of("\",\"timestamp\":");
                    push_chars_local(&mut out, &ts_label);
                    push_dec(&mut out, 0);
                },
            }
            out.push('}');
            proof {
                assert(out@ =~= seq!['['] + json_items(rs.take(i + 1), self.inner));
            }
            i = i + 1;
        }
        proof {
            assert(rs.take(n as int) =~= rs);
        }
        out.push(']');
        proof {
            assert(out@ =~= json_of(rs, self.inner));
        }
        string_from_chars(&out)
    }
}

/// Appends the characters of `piece` to `out`.
fn push_chars_local(out: &mut Vec<char>, piece: &Vec<char>)
    ensures
        final (out)@ == old(out)@ + piece@,
{
    let n = piece.len();
    let mut i: usize = 0;
    while i < n
        invariant
            n == piece@.len(),
            i <= n,
            out@ == old(out)@ + piece@.take(i as int),
        decreases n - i,
    {
        out.push(piece[i]);
        proof {
            assert(out@ =~= old(out)@ + piece@.take(i + 1));
        }
        i = i + 1;
    }
    proof {
        assert(piece@.take(n as int) =~= piece@);
    }
}

} // verus!
