use apex::catalog::IndexCatalog;
use apex::ranking::{distance_key, ranks_before, sort_candidates};
use apex::{Document, IndexError, RecordStore};

fn doc(id: &str, vector: &[f32]) -> Document {
    Document {
        id: id.to_string(),
        vector: vector.iter().map(|x| x.to_bits()).collect(),
        content: format!("content of {}", id),
        url: format!("https://example.org/{}", id),
    }
}

#[test]
fn store_put_get_and_overwrite() {
    let mut store = RecordStore::new();
    assert!(store.get(0).is_none());
    store.put(0, doc("a", &[1.0, 0.0]));
    store.put(1, doc("b", &[0.0, 1.0]));
    assert_eq!(store.get(1).unwrap().id, "b");
    store.put(0, doc("c", &[0.5, 0.5]));
    assert_eq!(store.get(0).unwrap().id, "c");
    assert_eq!(store.get_all().len(), 2);
    assert!(store.get(2).is_none());
}

#[test]
fn store_keeps_sparse_ids() {
    let mut store = RecordStore::new();
    store.put(5, doc("e", &[1.0]));
    store.put(2, doc("b", &[2.0]));
    assert!(store.get(0).is_none());
    assert!(store.get(3).is_none());
    assert_eq!(store.get(5).unwrap().id, "e");
    let ids: Vec<usize> = store.get_all().into_iter().map(|(i, _)| i).collect();
    assert_eq!(ids, vec![2, 5]);
}

#[test]
fn store_get_all_in_id_order() {
    let mut store = RecordStore::new();
    store.put(0, doc("a", &[1.0]));
    store.put(1, doc("b", &[2.0]));
    store.put(2, doc("c", &[3.0]));
    let all = store.get_all();
    let ids: Vec<(usize, String)> = all.into_iter().map(|(i, d)| (i, d.id)).collect();
    assert_eq!(ids, vec![(0, "a".to_string()), (1, "b".to_string()), (2, "c".to_string())]);
}

#[test]
fn duplicate_keeps_every_field() {
    let d = doc("x", &[0.25, -3.5, 7.0]);
    let e = d.duplicate();
    assert_eq!(e.id, d.id);
    assert_eq!(e.vector, d.vector);
    assert_eq!(e.content, d.content);
    assert_eq!(e.url, d.url);
    assert_eq!(e.dimension(), 3);
}

#[test]
fn ids_are_dense_from_zero() {
    let mut c = IndexCatalog::new(2);
    for i in 0..5usize {
        assert_eq!(c.add(doc(&format!("d{}", i), &[i as f32, 1.0])), Ok(i));
    }
    assert_eq!(c.len(), 5);
}

#[test]
fn dimension_is_fixed_at_creation() {
    let mut c = IndexCatalog::new(2);
    assert_eq!(c.dimension(), 2);
    assert_eq!(c.check_query(2), Ok(()));
    assert_eq!(c.check_query(7), Err(IndexError::InvalidInput));
    assert_eq!(c.add(doc("a", &[1.0, 0.0, 0.0])), Err(IndexError::InvalidInput));
    assert_eq!(c.len(), 0);
    assert_eq!(c.add(doc("b", &[1.0, 0.0])), Ok(0));
    assert_eq!(c.dimension(), 2);
    assert_eq!(c.check_query(3), Err(IndexError::InvalidInput));
}

#[test]
fn mismatched_dimension_is_refused_and_changes_nothing() {
    let mut c = IndexCatalog::new(2);
    assert_eq!(c.add(doc("a", &[1.0, 0.0])), Ok(0));
    assert_eq!(c.add(doc("b", &[1.0, 0.0, 0.0])), Err(IndexError::InvalidInput));
    assert_eq!(c.len(), 1);
    assert_eq!(c.dimension(), 2);
    assert_eq!(c.add(doc("c", &[0.0, 1.0])), Ok(1));
}

#[test]
fn rebuild_reports_each_id_and_skips_refused() {
    let mut c = IndexCatalog::new(2);
    let docs = vec![doc("a", &[1.0, 0.0]), doc("bad", &[1.0]), doc("b", &[0.0, 1.0])];
    let ids = c.rebuild_from(&docs);
    assert_eq!(ids, vec![Some(0), None, Some(1)]);
    assert_eq!(c.len(), 2);
}

#[test]
fn rebuild_equals_sequential_adds() {
    let docs = vec![doc("a", &[1.0, 0.0]), doc("b", &[0.0, 1.0]), doc("c", &[1.0, 0.0])];
    let mut rebuilt = IndexCatalog::new(2);
    let ids = rebuilt.rebuild_from(&docs);
    let mut added = IndexCatalog::new(2);
    let mut add_ids = Vec::new();
    for d in &docs {
        add_ids.push(added.add(d.duplicate()).ok());
    }
    assert_eq!(ids, add_ids);
    let raw = vec![(0usize, 0u32), (1, 0), (2, 0)];
    let a: Vec<String> = rebuilt.resolve(&raw, 3).into_iter().map(|(d, _)| d.id).collect();
    let b: Vec<String> = added.resolve(&raw, 3).into_iter().map(|(d, _)| d.id).collect();
    assert_eq!(a, b);
}

#[test]
fn distance_key_orders_like_floats() {
    let values = [-2.0f32, -0.5, -0.0, 0.0, 1e-7, 0.5, 1.0, 2.0];
    for w in values.windows(2) {
        assert!(distance_key(w[0].to_bits()) <= distance_key(w[1].to_bits()));
    }
    assert!(distance_key((-0.5f32).to_bits()) < distance_key(0.5f32.to_bits()));
    assert_eq!(distance_key(0.0f32.to_bits()), 0x8000_0000);
    assert_eq!(distance_key((-0.0f32).to_bits()), 0x7FFF_FFFF);
}

#[test]
fn ties_are_broken_by_id() {
    assert!(ranks_before((1, 0.5f32.to_bits()), (2, 0.5f32.to_bits())));
    assert!(!ranks_before((2, 0.5f32.to_bits()), (1, 0.5f32.to_bits())));
    assert!(ranks_before((9, 0.25f32.to_bits()), (1, 0.5f32.to_bits())));
}

#[test]
fn sort_candidates_ranks_by_distance_then_id() {
    let raw = vec![
        (4usize, 0.5f32.to_bits()),
        (3, 0.1f32.to_bits()),
        (1, 0.5f32.to_bits()),
        (2, 0.0f32.to_bits()),
    ];
    let sorted = sort_candidates(&raw);
    let ids: Vec<usize> = sorted.iter().map(|c| c.0).collect();
    assert_eq!(ids, vec![2, 3, 1, 4]);
}

#[test]
fn sort_candidates_of_nothing_is_empty() {
    assert!(sort_candidates(&Vec::new()).is_empty());
}

#[test]
fn resolve_takes_top_k_and_drops_unknown_ids() {
    let mut c = IndexCatalog::new(2);
    c.add(doc("a", &[1.0, 0.0])).unwrap();
    c.add(doc("b", &[0.0, 1.0])).unwrap();
    let raw = vec![(1usize, 0.3f32.to_bits()), (7, 0.1f32.to_bits()), (0, 0.2f32.to_bits())];
    let top2: Vec<(String, u32)> = c.resolve(&raw, 2).into_iter().map(|(d, k)| (d.id, k)).collect();
    // the closest candidate, id 7, has no record and is dropped after the cut
    assert_eq!(top2, vec![("a".to_string(), 0.2f32.to_bits())]);
    let all: Vec<String> = c.resolve(&raw, 10).into_iter().map(|(d, _)| d.id).collect();
    assert_eq!(all, vec!["a".to_string(), "b".to_string()]);
    assert!(c.resolve(&raw, 0).is_empty());
}

#[test]
fn empty_index_resolves_nothing() {
    let c = IndexCatalog::new(2);
    assert!(c.resolve(&vec![(0usize, 0u32), (1, 5)], 5).is_empty());
    assert!(c.resolve(&Vec::new(), 5).is_empty());
}
