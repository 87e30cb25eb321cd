//! Fingerprint codec, timestamp extraction and vector-file parsing.
use pedsa::codec::SimHash;
use pedsa::codec::MASK_AFFECTIVE;
use pedsa::codec::MASK_SEMANTIC;
use pedsa::codec::MASK_TEMPORAL;
use pedsa::codec::MASK_TYPE;
use pedsa::engine::AdvancedEngine;
use pedsa::model::parse_model;

#[test]
fn similarity_of_equal_fingerprints_is_one() {
    assert_eq!(SimHash::similarity_weighted(0xABCD, 0xABCD, MASK_SEMANTIC), 1_000_000);
    assert_eq!(SimHash::similarity(0xDEAD_BEEF, 0xDEAD_BEEF), 1_000_000);
}

#[test]
fn similarity_with_empty_mask_is_zero() {
    assert_eq!(SimHash::similarity_weighted(1, 2, 0), 0);
}

#[test]
fn similarity_counts_masked_bits_exactly() {
    // One differing bit out of a four-bit mask: 1 - 1/4.
    assert_eq!(SimHash::similarity_weighted(0b1010, 0b1000, 0b1111), 750_000);
    // Bits outside the mask never matter.
    assert_eq!(SimHash::similarity_weighted(0xF0, 0x0F, 0xF00), 1_000_000);
}

#[test]
fn multimodal_fields_do_not_bleed() {
    let fp = SimHash::compute_multimodal("fields", 0, 0x15, 0x02);
    assert_eq!((fp & MASK_AFFECTIVE) >> 48, 0x15);
    assert_eq!((fp & MASK_TYPE) >> 56, 0x02);
    assert_eq!(fp & MASK_TEMPORAL, 0);
    let bare = SimHash::compute_multimodal("fields", 0, 0, 0);
    assert_eq!(fp & MASK_SEMANTIC, bare & MASK_SEMANTIC);
}

#[test]
fn semantic_hash_reflects_the_text() {
    // A constant or echoing hash backend would zero the counters or
    // collapse distinct texts; both are caught here.
    assert_ne!(SimHash::compute("rust code") & MASK_SEMANTIC, 0);
    assert_ne!(
        SimHash::compute("rust code") & MASK_SEMANTIC,
        SimHash::compute("quiet garden evening") & MASK_SEMANTIC
    );
}

#[test]
fn compute_is_multimodal_with_defaults() {
    assert_eq!(SimHash::compute("abc"), SimHash::compute_multimodal("abc", 0, 0, 0));
}

#[test]
fn zero_timestamp_leaves_temporal_field_empty() {
    let fp = SimHash::compute_multimodal("x", 0, 0, 0);
    assert_eq!(fp & MASK_TEMPORAL, 0);
}

#[test]
fn query_year_trigger_sets_temporal_field() {
    let with_year = SimHash::compute_for_query("2025", 0);
    let plain = SimHash::compute_for_query("plain", 0);
    assert_ne!(with_year & MASK_TEMPORAL, 0);
    assert_eq!(plain & MASK_TEMPORAL, 0);
}

#[test]
fn query_emotion_and_type_triggers() {
    let fp = SimHash::compute_for_query("rust made me 开心", 0);
    assert_eq!((fp & MASK_AFFECTIVE) >> 48, 1, "joy bit");
    assert_eq!((fp & MASK_TYPE) >> 56, 2, "tech type");
    let person = SimHash::compute_for_query("the 用户 asked", 0);
    assert_eq!((person & MASK_TYPE) >> 56, 1);
}

#[test]
fn query_relative_time_yesterday() {
    let fp = SimHash::compute_for_query("yesterday it rained", 1_750_000_000);
    let direct = SimHash::compute_multimodal("yesterday it rained", 1_750_000_000 - 86_400, 0, 0);
    assert_eq!(fp & MASK_TEMPORAL, direct & MASK_TEMPORAL);
}

#[test]
fn event_timestamp_extracted_from_date() {
    let mut e = AdvancedEngine::new();
    e.add_event(7, "2025年06月15日 meeting", None, None);
    let i = e.nodes.find_idx(7).unwrap();
    // (2025-1970)*31536000 + 6*2592000 + 15*86400
    assert_eq!(e.nodes.vals[i].timestamp, 1_751_328_000);
}

#[test]
fn event_timestamp_defaults_without_date() {
    let mut e = AdvancedEngine::new();
    e.add_event(8, "no date here", None, None);
    let i = e.nodes.find_idx(8).unwrap();
    assert_eq!(e.nodes.vals[i].timestamp, 1_672_531_200);
}

#[test]
fn event_timestamp_day_defaults_to_first() {
    let mut e = AdvancedEngine::new();
    e.add_event(9, "1999年12月", None, None);
    let i = e.nodes.find_idx(9).unwrap();
    assert_eq!(e.nodes.vals[i].timestamp, 29 * 31_536_000 + 12 * 2_592_000 + 86_400);
}

#[test]
fn event_timestamp_distant_month_marker_ignored() {
    let mut e = AdvancedEngine::new();
    e.add_event(10, "2020年 and much later 3月", None, None);
    let i = e.nodes.find_idx(10).unwrap();
    assert_eq!(e.nodes.vals[i].timestamp, 1_672_531_200);
}

#[test]
fn inverse_frequency_factor_interpolates_log() {
    // log10(1) = 0, log10(10) = 1, log10(100) = 2.
    assert_eq!(pedsa::fixed::inv_freq(1), 1_000_000);
    assert_eq!(pedsa::fixed::inv_freq(10), 500_000);
    assert_eq!(pedsa::fixed::inv_freq(100), 333_333);
    // Halfway between 10 and 100 the interpolated log is 1.5.
    assert_eq!(pedsa::fixed::inv_freq(55), 1_000_000_000 / 2500);
}

#[test]
fn ebbinghaus_factor_decays_and_floors() {
    assert_eq!(pedsa::fixed::ebb_factor(0), 1_000_000);
    // A tenth of a year: the series gives 1 - x + x^2/2 - x^3/6 at x = 0.1.
    assert_eq!(pedsa::fixed::ebb_factor(3_153_600), 904_834);
    // Old memories keep at least eighty percent of their energy.
    assert_eq!(pedsa::fixed::ebb_factor(10 * 31_536_000), 800_000);
}

fn tiny_model_bytes() -> Vec<u8> {
    let mut b: Vec<u8> = Vec::new();
    b.extend_from_slice(b"PEDSA_VEC\0");
    b.extend_from_slice(&1u16.to_le_bytes()); // version
    b.extend_from_slice(&2u16.to_le_bytes()); // dimension
    b.extend_from_slice(&2u32.to_le_bytes()); // vocab size
    for (word, v0, v1) in [("sun", 1.0f32, 0.0f32), ("moon", 0.0f32, 1.0f32)] {
        b.push(word.len() as u8);
        b.extend_from_slice(word.as_bytes());
        b.extend_from_slice(&v0.to_le_bytes());
        b.extend_from_slice(&v1.to_le_bytes());
    }
    b
}

#[test]
fn model_parses_words_and_lanes() {
    let m = parse_model(&tiny_model_bytes()).unwrap();
    assert_eq!(m.dimension, 2);
    assert_eq!(m.words, vec!["sun".to_string(), "moon".to_string()]);
    assert_eq!(m.vectors[0], vec![1.0f32.to_bits(), 0.0f32.to_bits()]);
    assert_eq!(m.vectors[1], vec![0.0f32.to_bits(), 1.0f32.to_bits()]);
}

#[test]
fn model_rejects_bad_magic() {
    let mut b = tiny_model_bytes();
    b[0] = b'X';
    assert!(parse_model(&b).is_err());
}

#[test]
fn model_rejects_short_read() {
    let mut b = tiny_model_bytes();
    b.truncate(b.len() - 3);
    assert!(parse_model(&b).is_err());
}

#[test]
fn model_rejects_invalid_word_bytes() {
    let mut b = tiny_model_bytes();
    // Overwrite the first word's bytes with an invalid UTF-8 sequence.
    b[19] = 0xFF;
    assert!(parse_model(&b).is_err());
}
