use minhash_lsh::fixed::{integrate_minhash_fn, FP_ONE};
use minhash_lsh::index::{MinhashDB, MinhashError};
use minhash_lsh::models::ServiceError;
use minhash_lsh::options::MinhashOptions;
use minhash_lsh::sim::{jaccard_similarity, Ratio, Similarity};

fn fp_to_f64(x: u64) -> f64 {
    (x as f64) / (FP_ONE as f64)
}

fn sim_to_f64(s: Similarity) -> f64 {
    if s.den == 0 {
        0.0
    } else {
        (s.num as f64) / (s.den as f64)
    }
}

fn small_options() -> MinhashOptions {
    MinhashOptions { num_hashes: 16, num_bands: Some(16), target_jaccard_similarity: None }
}

#[test]
fn test_integral() {
    let rows = 5;
    let bands = 20;
    assert!((fp_to_f64(integrate_minhash_fn(rows, bands, 0, FP_ONE / 2)) - 0.0446349).abs() < 1e-5);
    assert!(
        (fp_to_f64(integrate_minhash_fn(rows, bands, 0, FP_ONE / 10 * 9)) - 0.39865).abs() < 1e-5
    );
    assert!(
        (fp_to_f64(integrate_minhash_fn(rows, bands, FP_ONE / 2, FP_ONE)) - 0.454015).abs() < 1e-5
    );
}

#[test]
fn jaccard_symmetric_and_self() {
    let a = vec![1, 2, 3, 4];
    let b = vec![3, 4, 5, 6];
    let ab = jaccard_similarity(&a, &b);
    let ba = jaccard_similarity(&b, &a);
    assert_eq!(ab.num, 2);
    assert_eq!(ab.den, 6);
    assert_eq!(ba.num, 2);
    assert_eq!(ba.den, 6);
    let aa = jaccard_similarity(&a, &a);
    assert_eq!(sim_to_f64(aa), 1.0);
}

#[test]
fn jaccard_empty_is_zero() {
    let a = vec![10, 20, 30];
    let empty: Vec<i32> = vec![];
    let s = jaccard_similarity(&a, &empty);
    assert_eq!(s.num, 0);
    assert_eq!(sim_to_f64(s), 0.0);
    // 0/0 is defined as 0, not an undefined form
    let z = jaccard_similarity(&empty, &empty);
    assert_eq!(sim_to_f64(z), 0.0);
}

#[test]
fn optimizer_picks_valid_band_count() {
    let mut o = MinhashOptions {
        num_hashes: 100,
        num_bands: None,
        target_jaccard_similarity: Some(Ratio { num: 7, den: 10 }),
    };
    o.calculate_bands();
    let b = o.num_bands.expect("a band count must be derived");
    assert_eq!(100 % b, 0);
    assert!(1 <= b && b < 10);
}

#[test]
fn signature_is_deterministic() {
    let eles = vec![5, -3, 77, 1000000];
    let s1 = MinhashDB::calc_minhash(&eles, 32);
    let s2 = MinhashDB::calc_minhash(&eles, 32);
    assert_eq!(s1, s2);
    assert_eq!(s1.len(), 32);
}

#[test]
fn signature_is_not_the_input() {
    // would fail if the pseudo-random stream handed its seed back unchanged
    let s = MinhashDB::calc_minhash(&vec![7], 3);
    assert_ne!(s, vec![7, 7, 7]);
    // different seeds give different streams
    let a = MinhashDB::calc_minhash(&vec![1], 4);
    let b = MinhashDB::calc_minhash(&vec![2], 4);
    assert_ne!(a, b);
}

#[test]
fn fold_hash_depends_on_content() {
    // would fail if the fold hash ignored its input
    let x = minhash_lsh::hash::calculate_hash(&[1, 2, 3]);
    let y = minhash_lsh::hash::calculate_hash(&[3, 2, 1]);
    let z = minhash_lsh::hash::calculate_hash(&[1, 2, 3]);
    assert_eq!(x, z);
    assert_ne!(x, y);
    let p = minhash_lsh::hash::calculate_hash_str("abc");
    let q = minhash_lsh::hash::calculate_hash_str("abd");
    assert_ne!(p, q);
}

#[test]
fn insert_then_find_exact_round_trip() {
    let mut db = MinhashDB::create(Some(small_options())).unwrap();
    let elements = vec![4, 8, 15, 16, 23, 42];
    let prior = db.insert_or_update_raw(7, &elements);
    assert!(prior.is_none());
    let found = db.find_exact(7).expect("the record must be stored");
    assert_eq!(found.did, 7);
    let mut got = found.eles.clone();
    got.sort();
    assert_eq!(got, vec![4, 8, 15, 16, 23, 42]);
}

#[test]
fn update_replaces_not_accumulates() {
    let mut db = MinhashDB::create(Some(small_options())).unwrap();
    db.insert_or_update_raw(9, &[1, 2, 3]);
    let replaced = db.insert_or_update_raw(9, &[7, 8]).expect("the first record is replaced");
    let mut old = replaced.eles.clone();
    old.sort();
    assert_eq!(old, vec![1, 2, 3]);
    // exactly one record for the id, holding the new set
    let records: Vec<_> = db.data_coll.iter().filter(|e| e.did == 9).collect();
    assert_eq!(records.len(), 1);
    let mut now = records[0].eles.clone();
    now.sort();
    assert_eq!(now, vec![7, 8]);
    // exactly num_bands band rows for the id, not twice as many
    let rows = db.table_coll.iter().filter(|t| t.did == 9).count();
    assert_eq!(rows, 16);
}

#[test]
fn delete_removes_all_trace() {
    let mut db = MinhashDB::create(Some(small_options())).unwrap();
    db.insert_or_update_raw(1, &[10, 20, 30]);
    db.insert_or_update_raw(2, &[40, 50, 60]);
    let removed = db.delete(1).expect("the record must exist");
    assert_eq!(removed.did, 1);
    assert!(db.find_exact(1).is_none());
    assert!(db.table_coll.iter().all(|t| t.did != 1));
    // the other document is untouched
    assert!(db.find_exact(2).is_some());
    assert_eq!(db.table_coll.iter().filter(|t| t.did == 2).count(), 16);
    // deleting again is a no-op
    assert!(db.delete(1).is_none());
}

#[test]
fn ann_returns_near_duplicates_ranked() {
    let mut db = MinhashDB::create(Some(small_options())).unwrap();
    let query: Vec<i32> = (1..=10).collect();
    db.insert_or_update_raw(1, &query); // identical: similarity 1
    let mut near = query.clone();
    near[9] = 100; // 9 shared of 11 union
    db.insert_or_update_raw(2, &near);
    db.insert_or_update_raw(3, &(1000..1010).collect::<Vec<i32>>()); // unrelated
    let mut far = query.clone();
    far[8] = 200;
    far[9] = 201; // 8 shared of 12 union
    db.insert_or_update_raw(4, &far);
    db.insert_or_update_raw(5, &(2000..2010).collect::<Vec<i32>>()); // unrelated

    let hits = db.find_ann_raw(&query, None, Some(Ratio { num: 1, den: 2 }));
    let ids: Vec<u64> = hits.iter().map(|h| h.1).collect();
    // only the near-duplicates pass the 0.5 threshold
    assert!(!ids.contains(&3));
    assert!(!ids.contains(&5));
    assert_eq!(ids, vec![1, 2, 4]);
    assert_eq!(sim_to_f64(hits[0].0), 1.0);
    // descending by exact similarity
    for w in hits.windows(2) {
        assert!(sim_to_f64(w[0].0) >= sim_to_f64(w[1].0));
    }
}

#[test]
fn top_k_bounds_the_result() {
    let mut db = MinhashDB::create(Some(small_options())).unwrap();
    for d in 0..6u64 {
        let mut eles: Vec<i32> = (1..=10).collect();
        eles[0] = 50 + d as i32;
        db.insert_or_update_raw(d, &eles);
    }
    let query: Vec<i32> = (1..=10).collect();
    let all = db.find_ann_raw(&query, None, None);
    assert!(all.len() >= 2);
    let two = db.find_ann_raw(&query, Some(2), None);
    assert!(two.len() <= 2);
    let zero = db.find_ann_raw(&query, Some(0), None);
    assert!(zero.is_empty());
    // a bound wider than the candidate set changes nothing
    let wide = db.find_ann_raw(&query, Some(100), None);
    let all_ids: Vec<u64> = all.iter().map(|h| h.1).collect();
    let wide_ids: Vec<u64> = wide.iter().map(|h| h.1).collect();
    assert_eq!(all_ids, wide_ids);
}

#[test]
fn empty_query_returns_nothing() {
    let mut db = MinhashDB::create(Some(small_options())).unwrap();
    db.insert_or_update_raw(3, &[1, 2, 3]);
    let empty: Vec<i32> = vec![];
    // the empty query's similarity to everything is the defined 0, so no hit
    assert!(db.find_ann_raw(&empty, None, None).is_empty());
    assert!(db.find_ann_raw(&empty, Some(4), Some(Ratio { num: 1, den: 2 })).is_empty());
    let no_lines: Vec<String> = vec![];
    assert!(db.find_ann_lines(&no_lines, None, None).is_empty());
}

#[test]
fn ann_hits_carry_distinct_ids() {
    let mut db = MinhashDB::create(Some(small_options())).unwrap();
    let base: Vec<i32> = (1..=10).collect();
    db.insert_or_update_raw(1, &base);
    db.insert_or_update_raw(1, &base); // update, not a second record
    db.insert_or_update_raw(2, &base);
    let hits = db.find_ann_raw(&base, None, None);
    let mut ids: Vec<u64> = hits.iter().map(|h| h.1).collect();
    let n = ids.len();
    ids.sort();
    ids.dedup();
    assert_eq!(ids.len(), n);
    assert_eq!(ids, vec![1, 2]);
}

#[test]
fn lines_round_trip() {
    let mut db = MinhashDB::create(Some(small_options())).unwrap();
    let lines = vec!["alpha".to_string(), "beta".to_string(), "gamma".to_string()];
    db.insert_or_update_lines(11, &lines);
    let hits = db.find_ann_lines(&lines, Some(5), Some(Ratio { num: 9, den: 10 }));
    assert_eq!(hits.len(), 1);
    assert_eq!(hits[0].1, 11);
    assert_eq!(sim_to_f64(hits[0].0), 1.0);
}

#[test]
fn creation_fails_on_bad_configuration() {
    // a band count that does not divide the hash count
    let r = MinhashDB::create(Some(MinhashOptions {
        num_hashes: 5,
        num_bands: Some(3),
        target_jaccard_similarity: None,
    }));
    assert!(matches!(r, Err(MinhashError::ConfigurationError)));
    // neither a band count nor a target similarity
    let r2 = MinhashDB::create(Some(MinhashOptions {
        num_hashes: 100,
        num_bands: None,
        target_jaccard_similarity: None,
    }));
    assert!(matches!(r2, Err(MinhashError::ConfigurationError)));
}

#[test]
fn creation_with_default_options() {
    let db = MinhashDB::create(None).unwrap();
    assert_eq!(db.options.num_hashes, 100);
    let b = db.options.num_bands.expect("bands derived from the default target");
    assert_eq!(100 % b, 0);
    assert!(1 <= b && b < 10);
}

#[test]
fn service_error_names() {
    assert_eq!(ServiceError::NotFound.name(), "NotFound");
    assert_eq!(ServiceError::Unknown.name(), "Unknown");
}
