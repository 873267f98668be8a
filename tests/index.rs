use boolean_ir::index::{BooleanIndex, Error};
use boolean_ir::query::{BooleanOperator, BooleanQuery, FilterOperator, PositionalOperator, QueryAtom};

fn prepare_index() -> BooleanIndex {
    let docs: Vec<Vec<u64>> = vec![
        (0..10).collect(),
        (0..10).map(|i| i * 2).collect(),
        vec![5, 4, 3, 2, 1, 0],
    ];
    BooleanIndex::new(&docs).unwrap()
}

fn atom(relative_position: u32, term: u64) -> BooleanQuery {
    BooleanQuery::Atom(QueryAtom::new(relative_position, term))
}

fn and(qs: Vec<BooleanQuery>) -> BooleanQuery {
    BooleanQuery::NAry(BooleanOperator::And, qs)
}

fn or(qs: Vec<BooleanQuery>) -> BooleanQuery {
    BooleanQuery::NAry(BooleanOperator::Or, qs)
}

fn in_order(atoms: Vec<(u32, u64)>) -> BooleanQuery {
    BooleanQuery::Positional(
        PositionalOperator::InOrder,
        atoms.into_iter().map(|(r, t)| QueryAtom::new(r, t)).collect(),
    )
}

#[test]
fn empty_query() {
    let index = prepare_index();
    assert!(index.execute_query(&atom(0, 15)) == vec![]);
}

#[test]
fn indexing() {
    let index = prepare_index();
    // Check number of docs
    assert!(index.document_count() == 3);
    // Check number of terms (0, 1, 2, 3, 4, 5, 6, 7, 8, 9, 10, 12, 14, 16, 18)
    assert!(index.term_count() == 15);
    let postings: Vec<(u32, Vec<u32>)> = index.postings(0).into_iter().map(|p| (p.0, p.1)).collect();
    assert!(postings == vec![(0, vec![0]), (1, vec![0]), (2, vec![5])]);
}

#[test]
fn query_atom() {
    let index = prepare_index();
    assert!(index.execute_query(&atom(0, 7)) == vec![0]);
    assert!(index.execute_query(&atom(0, 5)) == vec![0, 2]);
    assert!(index.execute_query(&atom(0, 0)) == vec![0, 1, 2]);
    assert!(index.execute_query(&atom(0, 16)) == vec![1]);
}

#[test]
fn nary_query() {
    let index = prepare_index();
    assert!(index.execute_query(&and(vec![atom(0, 5), atom(0, 0)])) == vec![0, 2]);
    assert!(index.execute_query(&and(vec![atom(0, 0), atom(0, 5)])) == vec![0, 2]);
}

#[test]
fn and_query() {
    let index = prepare_index();
    assert!(index.execute_query(&and(vec![atom(0, 3), atom(0, 12)])) == vec![]);
    assert!(index.execute_query(&and(vec![atom(0, 14), atom(0, 12)])) == vec![1]);
    assert!(index.execute_query(&and(vec![and(vec![atom(0, 3), atom(0, 9)]), atom(0, 12)])) == vec![]);
    assert!(index.execute_query(&and(vec![and(vec![atom(0, 2), atom(0, 4)]), atom(0, 16)])) == vec![1]);
}

#[test]
fn or_query() {
    let index = prepare_index();
    assert_eq!(index.execute_query(&or(vec![atom(0, 3), atom(0, 12)])), vec![0, 1, 2]);
    assert_eq!(index.execute_query(&or(vec![atom(0, 14), atom(0, 12)])), vec![1]);
    assert_eq!(index.execute_query(&or(vec![or(vec![atom(0, 3), atom(0, 9)]), atom(0, 16)])), vec![0, 1, 2]);
}

#[test]
fn inorder_query() {
    let index = prepare_index();
    assert!(index.execute_query(&in_order(vec![(0, 0), (1, 1)])) == vec![0]);
    assert!(index.execute_query(&in_order(vec![(1, 0), (0, 1)])) == vec![2]);
    assert!(index.execute_query(&in_order(vec![(0, 0), (1, 2)])) == vec![1]);
    assert!(index.execute_query(&in_order(vec![(2, 2), (1, 1), (0, 0)])) == vec![0]);
    assert!(index.execute_query(&in_order(vec![(0, 2), (1, 1), (2, 0)])) == vec![2]);
    assert!(index.execute_query(&in_order(vec![(0, 2), (1, 1), (3, 0)])) == vec![]);
}

#[test]
fn query_filter() {
    let index = prepare_index();
    let q = BooleanQuery::Filter(
        FilterOperator::Not,
        Box::new(and(vec![atom(0, 2), atom(0, 0)])),
        Box::new(atom(0, 16)),
    );
    assert!(index.execute_query(&q) == vec![0, 2]);
}

#[test]
fn scenario_atom_seven() {
    assert_eq!(prepare_index().execute_query(&atom(0, 7)), vec![0]);
}

#[test]
fn scenario_atom_zero() {
    assert_eq!(prepare_index().execute_query(&atom(0, 0)), vec![0, 1, 2]);
}

#[test]
fn scenario_and_disjoint() {
    assert_eq!(prepare_index().execute_query(&and(vec![atom(0, 3), atom(0, 12)])), vec![]);
}

#[test]
fn scenario_or_same_document() {
    assert_eq!(prepare_index().execute_query(&or(vec![atom(0, 14), atom(0, 12)])), vec![1]);
}

#[test]
fn scenario_in_order_forward() {
    assert_eq!(prepare_index().execute_query(&in_order(vec![(0, 0), (1, 1)])), vec![0]);
}

#[test]
fn scenario_in_order_backward() {
    assert_eq!(prepare_index().execute_query(&in_order(vec![(1, 0), (0, 1)])), vec![2]);
}

#[test]
fn scenario_not_filter() {
    let q = BooleanQuery::Filter(
        FilterOperator::Not,
        Box::new(and(vec![atom(0, 2), atom(0, 0)])),
        Box::new(atom(0, 16)),
    );
    assert_eq!(prepare_index().execute_query(&q), vec![0, 2]);
}

#[test]
fn and_is_intersection_on_values() {
    let index = prepare_index();
    let a = index.execute_query(&atom(0, 4));
    let b = index.execute_query(&atom(0, 8));
    let both = index.execute_query(&and(vec![atom(0, 4), atom(0, 8)]));
    let expected: Vec<u32> = a.iter().copied().filter(|d| b.contains(d)).collect();
    assert_eq!(both, expected);
    assert_eq!(both, vec![0, 1]);
}

#[test]
fn or_and_not_on_values() {
    let index = prepare_index();
    assert_eq!(index.execute_query(&or(vec![atom(0, 9), atom(0, 18)])), vec![0, 1]);
    let q = BooleanQuery::Filter(FilterOperator::Not, Box::new(atom(0, 0)), Box::new(atom(0, 6)));
    assert_eq!(index.execute_query(&q), vec![2]);
    assert_eq!(index.execute_query(&and(vec![])), vec![]);
    assert_eq!(index.execute_query(&or(vec![])), vec![]);
    assert_eq!(index.execute_query(&in_order(vec![])), vec![]);
}

#[test]
fn repeated_term_positions() {
    let docs: Vec<Vec<u64>> = vec![vec![7, 1, 7, 7], vec![1], vec![7]];
    let index = BooleanIndex::new(&docs).unwrap();
    let postings: Vec<(u32, Vec<u32>)> = index.postings(7).into_iter().map(|p| (p.0, p.1)).collect();
    assert_eq!(postings, vec![(0, vec![0, 2, 3]), (2, vec![0])]);
    assert_eq!(index.execute_query(&in_order(vec![(0, 7), (1, 7)])), vec![0]);
    assert_eq!(index.execute_query(&in_order(vec![(0, 1), (1, 7)])), vec![0]);
}

#[test]
fn too_many_positions_is_an_error() {
    let docs: Vec<Vec<u64>> = vec![vec![3; 100]];
    match BooleanIndex::new(&docs) {
        Err(e) => assert_eq!(e, Error::PostingTooLarge),
        Ok(_) => panic!("expected an error"),
    }
}

#[test]
fn many_documents() {
    let docs: Vec<Vec<u64>> = (0..3000u64).map(|d| vec![d % 7, 100 + d % 3, 1000]).collect();
    let index = BooleanIndex::new(&docs).unwrap();
    assert_eq!(index.document_count(), 3000);
    let r = index.execute_query(&and(vec![atom(0, 3), atom(0, 101)]));
    let expected: Vec<u32> = (0..3000u32).filter(|d| d % 7 == 3 && d % 3 == 1).collect();
    assert_eq!(r, expected);
    let r = index.execute_query(&in_order(vec![(0, 5), (1, 102), (2, 1000)]));
    let expected: Vec<u32> = (0..3000u32).filter(|d| d % 7 == 5 && d % 3 == 2).collect();
    assert_eq!(r, expected);
}

#[test]
fn index_document_after_build() {
    let mut index = prepare_index();
    let id = index.index_document(&(1..24).collect()).unwrap();
    assert_eq!(id, 3);
    assert_eq!(index.document_count(), 4);
    // listings of known terms are reopened and appended to; 9 terms are new
    assert_eq!(index.execute_query(&atom(0, 7)), vec![0, 3]);
    assert_eq!(index.execute_query(&atom(0, 0)), vec![0, 1, 2]);
    assert_eq!(index.execute_query(&atom(0, 23)), vec![3]);
    assert_eq!(index.execute_query(&in_order(vec![(0, 20), (1, 21)])), vec![3]);
    let postings: Vec<(u32, Vec<u32>)> = index.postings(5).into_iter().map(|p| (p.0, p.1)).collect();
    assert_eq!(postings, vec![(0, vec![5]), (2, vec![0]), (3, vec![4])]);
    assert_eq!(index.term_count(), 15 + 9);
}

#[test]
fn index_document_rejects_oversized_posting() {
    let mut index = prepare_index();
    assert_eq!(index.index_document(&vec![4; 90]), Err(Error::PostingTooLarge));
    assert_eq!(index.document_count(), 3);
    assert_eq!(index.execute_query(&atom(0, 4)), vec![0, 1, 2]);
    assert_eq!(index.index_document(&vec![4, 4]), Ok(3));
    let postings: Vec<(u32, Vec<u32>)> = index.postings(4).into_iter().map(|p| (p.0, p.1)).collect();
    assert_eq!(postings, vec![(0, vec![4]), (1, vec![2]), (2, vec![1]), (3, vec![0, 1])]);
}

#[test]
fn many_documents_one_at_a_time() {
    let docs: Vec<Vec<u64>> = (0..400u64).map(|d| vec![d % 5, 50 + d % 2]).collect();
    let mut index = BooleanIndex::new(&vec![]).unwrap();
    for d in docs.iter() {
        index.index_document(d).unwrap();
    }
    let batch = BooleanIndex::new(&docs).unwrap();
    for t in [0u64, 1, 2, 3, 4, 50, 51] {
        let a: Vec<(u32, Vec<u32>)> = index.postings(t).into_iter().map(|p| (p.0, p.1)).collect();
        let b: Vec<(u32, Vec<u32>)> = batch.postings(t).into_iter().map(|p| (p.0, p.1)).collect();
        assert_eq!(a, b);
    }
    let q = and(vec![atom(0, 3), atom(0, 51)]);
    assert_eq!(index.execute_query(&q), batch.execute_query(&q));
}
