//! PEDSA: an in-memory associative-recall engine. A query is answered by
//! fusing lexical-feature activation, fingerprint similarity, temporal
//! proximity and affective overlap over a two-layer typed graph, with an
//! optional vector-based chaos track blended in.
pub mod arbitration;
pub mod chaos;
pub mod codec;
pub mod engine;
pub mod extern_specs;
pub mod facade;
pub mod fixed;
pub mod graph;
pub mod laws;
pub mod matcher;
pub mod model;
pub mod retrieve;
pub mod sorts;
pub mod stopwords;
pub mod store;
pub mod text;
pub mod timeparse;
