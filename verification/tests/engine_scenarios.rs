use search_engine::codec::encode_u64;
use search_engine::postings::{dedup_tokens, token_frequencies, InMemIndex};
use search_engine::query::{eval_resolved, QueryExecutor, ResolvedQuery};
use search_engine::rank::{candidates, rank_top_k};
use search_engine::store::{
    get_doc_freq, get_file_count, get_file_path, get_term_freq, lookup_postings, persist_index,
    write_file_count, write_term_freqs,
};
use search_engine::text::filter_with_stopwords;

// corpus of the three-document scenario: alpha=1, beta=2, gamma=3
fn build(db: &sled::Db) -> (sled::Tree, sled::Tree, sled::Tree, sled::Tree) {
    let root: sled::Tree = (**db).clone();
    let files = db.open_tree("files").unwrap();
    let tf_df = db.open_tree("tf_df").unwrap();
    let index = db.open_tree("index").unwrap();
    let mut root_m = root.clone();
    let mut tf_df_m = tf_df.clone();
    let mut index_m = index.clone();
    let docs: [(u64, &str, Vec<i64>); 3] = [
        (1, "corpus/doc1", vec![1, 2]),
        (2, "corpus/doc2", vec![2, 3]),
        (3, "corpus/doc3", vec![1, 3, 3]),
    ];
    let mut idx = InMemIndex::new();
    for (doc_id, path, ids) in docs {
        files
            .insert(encode_u64(doc_id).as_slice(), path.as_bytes())
            .unwrap();
        let freqs = token_frequencies(&ids);
        write_term_freqs(&mut tf_df_m, doc_id, &freqs).unwrap();
        let distinct = dedup_tokens(&ids);
        idx.add_document(doc_id, &distinct);
        write_file_count(&mut root_m, idx.file_count).unwrap();
    }
    persist_index(&idx, &mut root_m, &mut tf_df_m, &mut index_m).unwrap();
    (root, files, tf_df, index)
}

fn kw(ids: Vec<i64>) -> Box<ResolvedQuery> {
    Box::new(ResolvedQuery::KeyWordIds(ids))
}

#[test]
fn scenario_boolean_queries() {
    let db = sled::Config::new().temporary(true).open().unwrap();
    let (_root, _files, _tf_df, index) = build(&db);
    let and = ResolvedQuery::And(kw(vec![1]), kw(vec![3]));
    assert_eq!(eval_resolved(&and, &index).unwrap().as_vec(), &vec![3]);
    let or = ResolvedQuery::Or(kw(vec![1]), kw(vec![2]));
    assert_eq!(eval_resolved(&or, &index).unwrap().as_vec(), &vec![1, 2, 3]);
    let diff = ResolvedQuery::Diff(kw(vec![1]), kw(vec![2]));
    assert_eq!(eval_resolved(&diff, &index).unwrap().as_vec(), &vec![3]);
}

#[test]
fn empty_keyword_matches_nothing() {
    let db = sled::Config::new().temporary(true).open().unwrap();
    let (_root, _files, _tf_df, index) = build(&db);
    let empty = ResolvedQuery::KeyWordIds(Vec::new());
    assert_eq!(eval_resolved(&empty, &index).unwrap().len(), 0);
}

#[test]
fn unknown_token_reads_as_empty_set() {
    let db = sled::Config::new().temporary(true).open().unwrap();
    let (_root, _files, _tf_df, index) = build(&db);
    let ds = lookup_postings(&index, 99).unwrap();
    assert_eq!(ds.len(), 0);
}

#[test]
fn doc_frequency_matches_posting_size() {
    let db = sled::Config::new().temporary(true).open().unwrap();
    let (_root, _files, tf_df, index) = build(&db);
    for t in [1i64, 2, 3] {
        let df = get_doc_freq(&tf_df, t).unwrap();
        let posting = lookup_postings(&index, t).unwrap();
        assert_eq!(df as usize, posting.len());
    }
}

#[test]
fn frequency_records_read_back() {
    let db = sled::Config::new().temporary(true).open().unwrap();
    let (root, files, tf_df, _index) = build(&db);
    assert_eq!(get_file_count(&root).unwrap(), 3);
    assert_eq!(get_term_freq(&tf_df, 3, 3).unwrap(), 2);
    assert_eq!(get_term_freq(&tf_df, 1, 3).unwrap(), 0);
    assert_eq!(get_file_path(&files, 2).unwrap(), "corpus/doc2");
    assert!(get_file_path(&files, 9).is_err());
}

#[test]
fn candidate_set_is_a_union() {
    let db = sled::Config::new().temporary(true).open().unwrap();
    let (_root, _files, _tf_df, index) = build(&db);
    let c = candidates(&vec![1, 3], &index).unwrap();
    assert_eq!(c.as_vec(), &vec![1, 2, 3]);
    let none = candidates(&Vec::new(), &index).unwrap();
    assert_eq!(none.len(), 0);
}

#[test]
fn equal_document_frequency_gives_equal_scores() {
    // a token in every document contributes log10(N/N) == 0 everywhere, so
    // ranking on such a token alone falls back to the document-id order
    let scored = vec![(1u64, 0u64), (2, 0), (3, 0)];
    assert_eq!(rank_top_k(&scored, 10), vec![(1, 0), (2, 0), (3, 0)]);
}

#[test]
fn filter_drops_stopwords_and_single_characters() {
    let stops = vec!["the".to_string(), "a".to_string()];
    let toks = vec![
        "alpha".to_string(),
        "the".to_string(),
        "a".to_string(),
        "x".to_string(),
        "gamma".to_string(),
    ];
    let kept = filter_with_stopwords(&stops, toks);
    assert_eq!(kept, vec!["alpha".to_string(), "gamma".to_string()]);
}

#[test]
fn filter_of_all_stopwords_is_empty() {
    let stops = vec!["the".to_string(), "of".to_string()];
    let toks = vec!["the".to_string(), "of".to_string(), "b".to_string()];
    assert_eq!(filter_with_stopwords(&stops, toks), Vec::<String>::new());
}
