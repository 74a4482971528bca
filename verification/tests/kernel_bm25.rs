use laplacianos::bm25::{bm25_term_score_q16, idf_q16, Bm25Index, Q16_ONE};

#[test]
fn interleaved_postings_are_isolated() {
    let mut index = Bm25Index::new();
    let first = index.add_document(10).unwrap();
    let second = index.add_document(20).unwrap();
    assert!(index.index_term(b"alpha", first));
    assert!(index.index_term(b"beta", first));
    assert!(index.index_term(b"alpha", second));
    let mut output = [(0, 0); 2];
    assert_eq!(index.query(&[b"alpha"], &mut output), 2);
    assert!(output.iter().all(|entry| entry.1 > 0));
}

#[test]
fn forced_hash_collision_does_not_merge_terms() {
    let mut index = Bm25Index::new();
    let first = index.add_document(10).unwrap();
    let second = index.add_document(20).unwrap();
    assert!(index.index_term_with_hash(b"alpha", first, 7));
    assert!(index.index_term_with_hash(b"omega", second, 7));
    assert_eq!(index.term_count(), 2);
    assert!(index.find_term(7, b"alpha").is_some());
    assert!(index.find_term(7, b"omega").is_some());
}

#[test]
fn q16_reference_scores_are_within_one_thousandth_relative_error() {
    // N=2, df=1 => idf=ln(2); tf=1, dl=avgdl=1 => term factor=1.
    let idf = idf_q16(1, 2);
    let score = bm25_term_score_q16(Q16_ONE, Q16_ONE, Q16_ONE, idf);
    let reference_q16 = 45_426u64;
    let error = score.abs_diff(reference_q16);
    assert!(error * 1_000 < reference_q16);
}

#[test]
fn empty_and_repeated_query_terms_are_defined() {
    let mut index = Bm25Index::new();
    index.add_document(1).unwrap();
    let mut output = [(0, 0); 1];
    assert_eq!(index.query(&[b"anything"], &mut output), 0);
    assert!(index.index_text(b"alpha alpha", 0) == 2);
    assert_eq!(index.query(&[b"alpha", b"alpha"], &mut output), 1);
    assert!(output[0].1 > 0);
}
