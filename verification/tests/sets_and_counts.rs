use search_engine::docset::DocSet;
use search_engine::postings::{token_frequencies, dedup_tokens, InMemIndex};
use search_engine::query::eval_keyword_ids_mem;
use search_engine::rank::rank_top_k;

fn set_of(ids: &[u64]) -> DocSet {
    let mut s = DocSet::new();
    for &i in ids {
        s.insert(i);
    }
    s
}

#[test]
fn docset_keeps_ascending_unique_order() {
    let s = set_of(&[5, 2, 9, 2, 5]);
    assert_eq!(s.as_vec(), &vec![2, 5, 9]);
    assert_eq!(s.len(), 3);
    assert!(s.contains(9));
    assert!(!s.contains(4));
}

#[test]
fn docset_algebra_on_concrete_sets() {
    let p = set_of(&[1, 2, 3]);
    let q = set_of(&[2, 3, 4]);
    assert_eq!(p.intersect(&q).as_vec(), &vec![2, 3]);
    assert_eq!(p.union(&q).as_vec(), &vec![1, 2, 3, 4]);
    assert_eq!(p.difference(&q).as_vec(), &vec![1]);
    // the boolean algebra laws, on these values
    assert_eq!(p.intersect(&q).as_vec(), q.intersect(&p).as_vec());
    assert_eq!(p.union(&q).as_vec(), q.union(&p).as_vec());
    assert_eq!(
        p.difference(&q).as_vec(),
        p.difference(&p.intersect(&q)).as_vec()
    );
    assert_eq!(p.intersect(&p.union(&q)).as_vec(), p.as_vec());
}

#[test]
fn token_frequencies_counts_every_occurrence() {
    let r = token_frequencies(&vec![5, 3, 5, 5]);
    assert_eq!(r, vec![(3, 1), (5, 3)]);
    let total: u64 = r.iter().map(|e| e.1).sum();
    assert_eq!(total, 4);
}

#[test]
fn token_frequencies_of_empty_document() {
    assert_eq!(token_frequencies(&Vec::new()), Vec::new());
}

#[test]
fn dedup_keeps_one_of_each_token() {
    assert_eq!(dedup_tokens(&vec![5, 3, 5, -1]), vec![-1, 3, 5]);
}

#[test]
fn index_accumulates_postings() {
    let mut idx = InMemIndex::new();
    idx.add_document(1, &vec![10, 20]);
    idx.add_document(2, &vec![20, 30]);
    idx.add_document(3, &vec![10, 30]);
    assert_eq!(idx.file_count, 3);
    assert_eq!(idx.postings.get(10).unwrap().as_vec(), &vec![1, 3]);
    assert_eq!(idx.postings.get(20).unwrap().as_vec(), &vec![1, 2]);
    assert_eq!(idx.postings.get(30).unwrap().as_vec(), &vec![2, 3]);
    assert!(idx.postings.get(99).is_none());
}

#[test]
fn keyword_evaluation_in_memory_intersects_postings() {
    let mut idx = InMemIndex::new();
    idx.add_document(1, &vec![10, 20]);
    idx.add_document(2, &vec![20, 30]);
    idx.add_document(3, &vec![10, 30]);
    assert_eq!(eval_keyword_ids_mem(&vec![10, 30], &idx.postings).as_vec(), &vec![3]);
    assert_eq!(eval_keyword_ids_mem(&vec![20], &idx.postings).as_vec(), &vec![1, 2]);
    assert_eq!(eval_keyword_ids_mem(&Vec::new(), &idx.postings).len(), 0);
    assert_eq!(eval_keyword_ids_mem(&vec![99], &idx.postings).len(), 0);
}

#[test]
fn top_k_ranks_by_score_then_doc_id() {
    let scored = vec![(1u64, 100u64), (2, 300), (3, 300)];
    assert_eq!(rank_top_k(&scored, 2), vec![(2, 300), (3, 300)]);
    assert_eq!(rank_top_k(&scored, 10), vec![(2, 300), (3, 300), (1, 100)]);
    assert_eq!(rank_top_k(&scored, 0), Vec::new());
}

#[test]
fn top_k_is_deterministic_across_runs() {
    let scored = vec![(4u64, 7u64), (9, 7), (1, 7), (2, 50)];
    let first = rank_top_k(&scored, 3);
    assert_eq!(first, vec![(2, 50), (1, 7), (4, 7)]);
    for _ in 0..5 {
        assert_eq!(rank_top_k(&scored, 3), first);
    }
}
