use std::iter::repeat;

use malh::choice_vec::ChoiceVec;
use malh::page::{PAGE_DATA_SIZE, PAGE_SIZE};
use malh::query::Query;
use malh::relation::{RelError, Relation, SelectIter};
use malh::tuple::Tuple;

/// A throwaway relation, checked for sanity when closed.
struct TestRelation(pub Relation);

impl TestRelation {
    fn new(num_attrs: u32) -> TestRelation {
        TestRelation(Relation::new(num_attrs, 1, ChoiceVec::new(vec![], 1)).unwrap())
    }

    fn close(self) {
        assert!(self.0.is_sane());
    }
}

fn collect(mut it: SelectIter) -> Vec<Tuple> {
    let mut out = Vec::new();
    while let Some(t) = it.next() {
        out.push(t);
    }
    out
}

#[test]
fn insert_oversize_tuple() {
    let mut r = TestRelation::new(1);
    let oversized = Tuple { values: vec![repeat('A').take(PAGE_SIZE as usize).collect()] };
    r.0.insert(oversized).unwrap_err();
    r.close();
}

#[test]
fn insert_largest_tuple() {
    let mut r = TestRelation::new(1);
    let large = Tuple { values: vec![repeat('A').take(PAGE_DATA_SIZE - 1).collect()] };
    r.0.insert(large).unwrap();
    r.close();
}

#[test]
fn select_empty() {
    let r = TestRelation::new(10);
    assert_eq!(r.0.select(&Query::wildcard(r.0.num_attrs)).count(), 0);
    r.close();
}

fn select_single_() {
    let num_attrs = 5;
    let mut r = TestRelation::new(num_attrs);
    let tuple = Tuple::parse("hello,world,this,is,me", num_attrs).unwrap();
    r.0.insert(tuple.clone()).unwrap();
    let matching_queries = [
        "hello,?,?,?,?",
        "?,world,?,?,?",
        "?,?,this,?,?",
        "?,?,?,is,?",
        "?,?,?,?,me",
        "hello,?,?,is,?",
    ];
    for q in matching_queries.iter() {
        let query = Query::parse(q, num_attrs).unwrap();
        let results = collect(r.0.select(&query));
        assert_eq!(results.len(), 1);
        assert_eq!(&results[0], &tuple);
    }
    let non_matching_queries = ["hello,warld,?,?,?", "world,hello,this,is,me"];
    for q in non_matching_queries.iter() {
        let query = Query::parse(q, num_attrs).unwrap();
        assert_eq!(r.0.select(&query).count(), 0);
    }
    r.close();
}

#[test]
fn select_single() {
    // The test depends on the randomly generated choice vec, so run it a
    // few times.
    for _ in 0..500 {
        select_single_();
    }
}

// NOTE: random strings of A's keep the failures readable.
fn random_tuple(num_attrs: u32) -> Tuple {
    loop {
        let tuple_values: Vec<String> = (0..num_attrs)
            .map(|_| {
                let tuple_len = (rand::random::<u64>() as usize) % (PAGE_DATA_SIZE / num_attrs as usize);
                repeat('A').take(tuple_len).collect()
            })
            .collect();
        let tuple = Tuple { values: tuple_values };
        if tuple.serialise().len() <= PAGE_DATA_SIZE {
            return tuple;
        }
    }
}

fn append_to_query(elem: Option<String>, q: Query) -> Query {
    let mut matches = q.matches;
    matches.push(elem);
    Query { matches }
}

fn queries_for_tuple(tuple: &[String]) -> Vec<Query> {
    match tuple.split_last() {
        None => vec![Query::wildcard(0)],
        Some((last, init)) => {
            let init_queries = queries_for_tuple(init);
            let mut none_queries: Vec<Query> = init_queries
                .iter()
                .map(|q| append_to_query(None, Query { matches: q.matches.clone() }))
                .collect();
            let some_queries: Vec<Query> = init_queries
                .iter()
                .map(|q| append_to_query(Some(last.clone()), Query { matches: q.matches.clone() }))
                .collect();
            none_queries.extend(some_queries);
            none_queries
        }
    }
}

/// Compute the 2^n queries that should match a given tuple.
fn all_queries_for_tuple(tuple: &Tuple) -> Vec<Query> {
    queries_for_tuple(&tuple.values[..])
}

#[test]
fn all_queries_generation() {
    let tuple = Tuple::parse("hello,world,wow", 3).unwrap();
    let queries = all_queries_for_tuple(&tuple);
    assert_eq!(8, queries.len());
}

fn insert_select(num_attrs: u32, num_tuples: u32) {
    if num_attrs == 0 || num_tuples == 0 {
        return;
    }
    let mut r = TestRelation::new(num_attrs);

    let tuples: Vec<Tuple> = (0..num_tuples).map(|_| random_tuple(num_attrs)).collect();
    for t in &tuples {
        r.0.insert(t.clone())
            .unwrap_or_else(|e| panic!("inserting tuple failed: {:?}, tuple: {:?}", e, t));
    }

    assert!(r.0.is_sane());

    for t in &tuples {
        for q in all_queries_for_tuple(t) {
            let results = collect(r.0.select(&q));
            assert!(results.contains(t));
        }
    }

    r.close();
}

#[test]
fn random_insert_select() {
    insert_select(2, 5);
    insert_select(3, 5);
    insert_select(8, 5);
    insert_select(3, 300);
}

#[test]
fn create_then_stats() {
    let cv = ChoiceVec::parse("0,0:1,1:2,2", 3).unwrap();
    let r = Relation::new(3, 5, cv).unwrap();
    assert_eq!(r.num_attrs, 3);
    assert_eq!(r.depth, 3);
    assert_eq!(r.split_pointer, 0);
    assert_eq!(r.num_pages, 8);
    assert_eq!(r.num_tuples, 0);
    assert!(r.is_sane());
}

#[test]
fn create_no_attributes() {
    match Relation::new(0, 1, ChoiceVec::new(vec![], 1)) {
        Err(e) => assert_eq!(e, RelError::NoAttributes),
        Ok(_) => panic!("a relation with zero attributes must be rejected"),
    }
}

#[test]
fn insert_and_wildcard_select() {
    let cv = ChoiceVec::parse("0,0:1,1:2,2", 3).unwrap();
    let mut r = Relation::new(3, 1, cv).unwrap();
    r.insert(Tuple::parse("a,b,c", 3).unwrap()).unwrap();
    r.insert(Tuple::parse("a,x,c", 3).unwrap()).unwrap();
    let results = collect(r.select(&Query::parse("?,?,?", 3).unwrap()));
    assert_eq!(results.len(), 2);
    let texts: Vec<String> = results.iter().map(|t| t.to_string()).collect();
    assert!(texts.contains(&"a,b,c".to_string()));
    assert!(texts.contains(&"a,x,c".to_string()));
}

#[test]
fn partial_select() {
    let cv = ChoiceVec::parse("0,0:1,1:2,2", 3).unwrap();
    let mut r = Relation::new(3, 1, cv).unwrap();
    r.insert(Tuple::parse("a,b,c", 3).unwrap()).unwrap();
    r.insert(Tuple::parse("a,x,c", 3).unwrap()).unwrap();

    assert_eq!(r.select(&Query::parse("a,?,c", 3).unwrap()).count(), 2);

    let only_abc = collect(r.select(&Query::parse("a,b,?", 3).unwrap()));
    assert_eq!(only_abc.len(), 1);
    assert_eq!(only_abc[0].to_string(), "a,b,c");

    assert_eq!(r.select(&Query::parse("z,?,?", 3).unwrap()).count(), 0);
}

#[test]
fn split_keeps_tuples_retrievable() {
    let mut r = TestRelation::new(1);
    assert_eq!(r.0.num_pages, 1);
    // the single-page relation grows once its mean occupancy target of 102
    // tuples is hit
    let n = 103;
    for i in 0..n {
        let t = Tuple::parse(&format!("value{}", i), 1).unwrap();
        r.0.insert(t).unwrap();
    }
    assert_eq!(r.0.num_pages, 2);
    assert!(r.0.is_sane());
    for i in 0..n {
        let text = format!("value{}", i);
        let q = Query::parse(&text, 1).unwrap();
        let results = collect(r.0.select(&q));
        assert!(results.iter().any(|t| t.to_string() == text));
    }
    r.close();
}

#[test]
fn oversize_rejection_changes_nothing() {
    let mut r = TestRelation::new(1);
    r.0.insert(Tuple::parse("small", 1).unwrap()).unwrap();
    let before = r.0.num_tuples;
    let oversized = Tuple { values: vec![repeat('A').take(PAGE_DATA_SIZE).collect()] };
    assert_eq!(r.0.insert(oversized).unwrap_err(), RelError::TupleTooLarge);
    assert_eq!(r.0.num_tuples, before);
    assert_eq!(r.0.select(&Query::wildcard(1)).count(), 1);
    r.close();
}

#[test]
fn page_count_matches_depth_and_split() {
    let mut r = TestRelation::new(1);
    for i in 0..250 {
        r.0.insert(Tuple::parse(&format!("v{}", i), 1).unwrap()).unwrap();
    }
    assert_eq!(r.0.num_pages, (1u64 << r.0.depth) + r.0.split_pointer as u64);
    assert!((r.0.split_pointer as u64) < (1u64 << r.0.depth));
    r.close();
}

#[test]
fn data_file_image_length() {
    let mut r = TestRelation::new(2);
    for i in 0..40 {
        r.0.insert(Tuple::parse(&format!("k{},v{}", i, i), 2).unwrap()).unwrap();
    }
    let (data, ovflow) = r.0.file_images().unwrap();
    assert_eq!(data.len() as u64, r.0.num_pages * 1024);
    assert_eq!(ovflow.len() % 1024, 0);
    assert_eq!(r.0.info_bytes().len(), 185);
    r.close();
}

#[test]
fn empty_values_permitted() {
    let mut r = TestRelation::new(2);
    r.0.insert(Tuple::parse("x,", 2).unwrap()).unwrap();
    r.0.insert(Tuple::parse(",y", 2).unwrap()).unwrap();
    assert_eq!(r.0.select(&Query::wildcard(2)).count(), 2);
    let results = collect(r.0.select(&Query::parse("x,?", 2).unwrap()));
    assert_eq!(results.len(), 1);
    assert_eq!(results[0].values, vec!["x", ""]);
    r.close();
}

#[test]
fn file_names_use_extensions() {
    assert_eq!(malh::relation::info_file_name("r"), "r.info");
    assert_eq!(malh::relation::data_file_name("r"), "r.data");
    assert_eq!(malh::relation::ovflow_file_name("r"), "r.ovflow");
}

#[test]
fn images_roundtrip() {
    // large tuples force overflow chains before the first split
    let mut r = TestRelation::new(1);
    for i in 0..20 {
        let value = format!("{}{}", "B".repeat(300), i);
        r.0.insert(Tuple::parse(&value, 1).unwrap()).unwrap();
    }
    let info = r.0.info_bytes();
    let (data, ovflow) = r.0.file_images().unwrap();
    assert_eq!(data.len() as u64, r.0.num_pages * 1024);

    let r2 = Relation::open_images(&info, &data, &ovflow).unwrap();
    assert_eq!(r2.num_attrs, r.0.num_attrs);
    assert_eq!(r2.depth, r.0.depth);
    assert_eq!(r2.split_pointer, r.0.split_pointer);
    assert_eq!(r2.num_pages, r.0.num_pages);
    assert_eq!(r2.num_tuples, r.0.num_tuples);
    assert_eq!(r2.select(&Query::wildcard(1)).count(), 20);
    let probe = format!("{}{}", "B".repeat(300), 7);
    let hits = collect(r2.select(&Query::parse(&probe, 1).unwrap()));
    assert!(hits.iter().any(|t| t.to_string() == probe));
    assert!(r2.is_sane());
    r.close();
}

#[test]
fn open_images_rejects_corruption() {
    let r = TestRelation::new(1);
    let info = r.0.info_bytes();
    let (data, ovflow) = r.0.file_images().unwrap();
    match Relation::open_images(&info[..10], &data, &ovflow) {
        Err(RelError::CorruptImage) => {}
        _ => panic!("a truncated info image must be rejected"),
    }
    let mut bad_info = info.clone();
    bad_info[17] = 9;  // tuple count no longer matches the pages
    match Relation::open_images(&bad_info, &data, &ovflow) {
        Err(RelError::CorruptImage) => {}
        _ => panic!("a wrong tuple count must be rejected"),
    }
    r.close();
}

#[test]
fn info_image_layout() {
    let cv = ChoiceVec::parse("0,0:1,1:2,2", 3).unwrap();
    let r = Relation::new(3, 5, cv).unwrap();
    let info = r.info_bytes();
    assert_eq!(&info[0..4], &[0, 0, 0, 3]); // num_attrs, big-endian
    assert_eq!(info[4], 3); // depth
    assert_eq!(&info[5..9], &[0, 0, 0, 0]); // split pointer
    assert_eq!(&info[9..17], &[0, 0, 0, 0, 0, 0, 0, 8]); // num_pages
    assert_eq!(&info[25..30], &[0, 0, 0, 0, 0]); // first choice entry: (0, 0)
    assert_eq!(&info[30..35], &[0, 0, 0, 1, 1]); // second choice entry: (1, 1)
}
