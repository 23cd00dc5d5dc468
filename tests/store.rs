use ecs_project::{Db, KeyValue, Score, StoreError, Zset};

fn sc(x: f64) -> Score {
    Score::from_bits(x.to_bits())
}

fn pairs(db: &Db, key: &str, min: f64, max: f64) -> Vec<(f64, String)> {
    db.zrange(&key.to_string(), sc(min), sc(max))
        .into_iter()
        .map(|e| (f64::from_bits(e.score.to_bits()), e.value))
        .collect()
}

#[test]
fn it_works() {
    let result = 2 + 2;
    assert_eq!(result, 4);
}

#[test]
fn put_then_get_returns_value() {
    let mut db = Db::new();
    db.add("k".to_string(), "v".to_string());
    assert_eq!(db.query("k"), Some("v".to_string()));
    db.add("k".to_string(), "w".to_string());
    assert_eq!(db.query("k"), Some("w".to_string()));
    assert_eq!(db.query("other"), None);
}

#[test]
fn delete_clears_text_and_set() {
    let mut db = Db::new();
    db.add("t".to_string(), "1".to_string());
    db.del("t");
    assert_eq!(db.query("t"), None);
    db.zadd("z".to_string(), "x".to_string(), sc(1.0)).unwrap();
    db.del("z");
    assert!(pairs(&db, "z", f64::NEG_INFINITY, f64::INFINITY).is_empty());
    db.del("never");
    assert_eq!(db.query("never"), None);
}

#[test]
fn list_keeps_order_and_drops_missing() {
    let mut db = Db::new();
    db.add("a".to_string(), "1".to_string());
    db.add("b".to_string(), "2".to_string());
    let r = db.list(vec!["a".to_string(), "b".to_string(), "c".to_string()]);
    let got: Vec<(String, String)> = r.into_iter().map(|kv| (kv.key, kv.value)).collect();
    assert_eq!(got, vec![("a".to_string(), "1".to_string()), ("b".to_string(), "2".to_string())]);
}

#[test]
fn list_skips_sorted_set_keys() {
    let mut db = Db::new();
    db.add("b".to_string(), "2".to_string());
    db.zadd("z".to_string(), "x".to_string(), sc(1.0)).unwrap();
    let r = db.list(vec!["z".to_string(), "b".to_string(), "b".to_string()]);
    let got: Vec<(String, String)> = r.into_iter().map(|kv| (kv.key, kv.value)).collect();
    assert_eq!(got, vec![("b".to_string(), "2".to_string()), ("b".to_string(), "2".to_string())]);
}

#[test]
fn batch_writes_in_order() {
    let mut db = Db::new();
    db.batch(vec![
        KeyValue { key: "a".to_string(), value: "1".to_string() },
        KeyValue { key: "b".to_string(), value: "2".to_string() },
        KeyValue { key: "a".to_string(), value: "3".to_string() },
    ]);
    assert_eq!(db.query("a"), Some("3".to_string()));
    assert_eq!(db.query("b"), Some("2".to_string()));
}

#[test]
fn range_scenario() {
    let mut db = Db::new();
    db.zadd("z".to_string(), "x".to_string(), sc(1.0)).unwrap();
    db.zadd("z".to_string(), "y".to_string(), sc(2.0)).unwrap();
    assert_eq!(pairs(&db, "z", 0.5, 1.5), vec![(1.0, "x".to_string())]);
}

#[test]
fn nan_score_rejected_and_nothing_changes() {
    let mut db = Db::new();
    db.zadd("z".to_string(), "y".to_string(), sc(2.0)).unwrap();
    let before = pairs(&db, "z", f64::NEG_INFINITY, f64::INFINITY);
    assert_eq!(db.zadd("z".to_string(), "x".to_string(), sc(f64::NAN)), Err(StoreError::InvalidScore));
    assert_eq!(pairs(&db, "z", f64::NEG_INFINITY, f64::INFINITY), before);
}

#[test]
fn nan_score_on_text_key_keeps_text() {
    let mut db = Db::new();
    db.add("t".to_string(), "1".to_string());
    assert_eq!(db.zadd("t".to_string(), "x".to_string(), sc(f64::NAN)), Err(StoreError::InvalidScore));
    assert_eq!(db.query("t"), Some("1".to_string()));
}

#[test]
fn second_add_replaces_score() {
    let mut db = Db::new();
    db.zadd("k".to_string(), "m".to_string(), sc(1.0)).unwrap();
    db.zadd("k".to_string(), "m".to_string(), sc(5.0)).unwrap();
    assert_eq!(pairs(&db, "k", f64::NEG_INFINITY, f64::INFINITY), vec![(5.0, "m".to_string())]);
    assert!(pairs(&db, "k", 0.0, 2.0).is_empty());
}

#[test]
fn range_sorted_with_ties_by_member() {
    let mut db = Db::new();
    db.zadd("k".to_string(), "b".to_string(), sc(1.0)).unwrap();
    db.zadd("k".to_string(), "a".to_string(), sc(1.0)).unwrap();
    db.zadd("k".to_string(), "c".to_string(), sc(0.5)).unwrap();
    db.zadd("k".to_string(), "d".to_string(), sc(-3.0)).unwrap();
    db.zadd("k".to_string(), "ab".to_string(), sc(1.0)).unwrap();
    assert_eq!(
        pairs(&db, "k", f64::NEG_INFINITY, f64::INFINITY),
        vec![
            (-3.0, "d".to_string()),
            (0.5, "c".to_string()),
            (1.0, "a".to_string()),
            (1.0, "ab".to_string()),
            (1.0, "b".to_string()),
        ]
    );
    assert_eq!(
        pairs(&db, "k", 0.5, 1.0),
        vec![(0.5, "c".to_string()), (1.0, "a".to_string()), (1.0, "ab".to_string()), (1.0, "b".to_string())]
    );
}

#[test]
fn range_bounds_inclusive_and_reversed() {
    let mut db = Db::new();
    for (m, s) in [("a", 1.0), ("b", 2.0), ("c", 3.0)] {
        db.zadd("k".to_string(), m.to_string(), sc(s)).unwrap();
    }
    assert_eq!(pairs(&db, "k", 1.0, 2.0), vec![(1.0, "a".to_string()), (2.0, "b".to_string())]);
    assert!(pairs(&db, "k", 3.0, 1.0).is_empty());
    assert!(pairs(&db, "k", f64::NAN, 3.0).is_empty());
    assert!(pairs(&db, "k", 1.0, f64::NAN).is_empty());
    assert!(pairs(&db, "k", 3.5, 9.0).is_empty());
}

#[test]
fn negative_and_infinite_scores() {
    let mut db = Db::new();
    db.zadd("k".to_string(), "ninf".to_string(), sc(f64::NEG_INFINITY)).unwrap();
    db.zadd("k".to_string(), "big".to_string(), sc(-1e300)).unwrap();
    db.zadd("k".to_string(), "small".to_string(), sc(-1e-300)).unwrap();
    db.zadd("k".to_string(), "pinf".to_string(), sc(f64::INFINITY)).unwrap();
    db.zadd("k".to_string(), "zero".to_string(), sc(0.0)).unwrap();
    let names: Vec<String> = pairs(&db, "k", f64::NEG_INFINITY, f64::INFINITY).into_iter().map(|p| p.1).collect();
    assert_eq!(names, vec!["ninf", "big", "small", "zero", "pinf"]);
    let mid: Vec<String> = pairs(&db, "k", -1.0, -0.0).into_iter().map(|p| p.1).collect();
    assert_eq!(mid, vec!["small", "zero"]);
}

#[test]
fn zremove_takes_member_out() {
    let mut db = Db::new();
    db.zadd("k".to_string(), "a".to_string(), sc(1.0)).unwrap();
    db.zadd("k".to_string(), "b".to_string(), sc(2.0)).unwrap();
    db.zremove("k", &"a".to_string());
    assert_eq!(pairs(&db, "k", f64::NEG_INFINITY, f64::INFINITY), vec![(2.0, "b".to_string())]);
    db.zremove("k", &"missing".to_string());
    db.zremove("absent", &"a".to_string());
    assert_eq!(pairs(&db, "k", f64::NEG_INFINITY, f64::INFINITY), vec![(2.0, "b".to_string())]);
}

#[test]
fn emptied_set_still_blocks_text_reads() {
    let mut db = Db::new();
    db.zadd("k".to_string(), "a".to_string(), sc(1.0)).unwrap();
    db.zremove("k", &"a".to_string());
    assert!(pairs(&db, "k", f64::NEG_INFINITY, f64::INFINITY).is_empty());
    assert_eq!(db.query("k"), None);
}

#[test]
fn text_and_set_overwrite_each_other() {
    let mut db = Db::new();
    db.add("k".to_string(), "t".to_string());
    assert!(pairs(&db, "k", f64::NEG_INFINITY, f64::INFINITY).is_empty());
    db.zremove("k", &"t".to_string());
    assert_eq!(db.query("k"), Some("t".to_string()));
    db.zadd("k".to_string(), "m".to_string(), sc(1.0)).unwrap();
    assert_eq!(db.query("k"), None);
    assert_eq!(pairs(&db, "k", 0.0, 2.0), vec![(1.0, "m".to_string())]);
    db.add("k".to_string(), "u".to_string());
    assert_eq!(db.query("k"), Some("u".to_string()));
    assert!(pairs(&db, "k", f64::NEG_INFINITY, f64::INFINITY).is_empty());
}

#[test]
fn many_distinct_members_all_listed() {
    let mut db = Db::new();
    for i in 0..200u32 {
        db.zadd("k".to_string(), format!("m{}", i), sc(i as f64 * 0.5)).unwrap();
    }
    assert_eq!(pairs(&db, "k", f64::NEG_INFINITY, f64::INFINITY).len(), 200);
}

#[test]
fn hash_is_stable_and_in_range() {
    for k in ["", "a", "key", "another key"] {
        let h = Db::hash(k);
        assert!(h < 8);
        assert_eq!(h, Db::hash(k));
    }
    let spread: std::collections::HashSet<usize> = (0..64).map(|i| Db::hash(&format!("k{}", i))).collect();
    assert!(spread.len() > 1);
}

#[test]
fn many_keys_across_shards() {
    let mut db = Db::new();
    for i in 0..100u32 {
        db.add(format!("k{}", i), format!("v{}", i));
    }
    for i in 0..100u32 {
        assert_eq!(db.query(&format!("k{}", i)), Some(format!("v{}", i)));
    }
}

#[test]
fn zset_direct_use() {
    let mut z = Zset::new();
    assert!(z.range(sc(f64::NEG_INFINITY), sc(f64::INFINITY)).is_empty());
    z.add("b".to_string(), sc(2.0)).unwrap();
    z.add("a".to_string(), sc(3.0)).unwrap();
    z.add("b".to_string(), sc(4.0)).unwrap();
    assert_eq!(z.add("c".to_string(), sc(f64::NAN)), Err(StoreError::InvalidScore));
    let r: Vec<(f64, String)> = z
        .range(sc(0.0), sc(10.0))
        .into_iter()
        .map(|e| (f64::from_bits(e.score.to_bits()), e.value))
        .collect();
    assert_eq!(r, vec![(3.0, "a".to_string()), (4.0, "b".to_string())]);
    z.remove(&"a".to_string());
    z.remove(&"a".to_string());
    assert_eq!(z.range(sc(0.0), sc(10.0)).len(), 1);
}

#[test]
fn score_helpers() {
    assert!(sc(f64::NAN).is_nan());
    assert!(!sc(f64::INFINITY).is_nan());
    assert!(!sc(1.5).is_nan());
    assert_eq!(sc(0.0).rank_of(), sc(-0.0).rank_of());
    assert!(sc(-2.0).rank_of() < sc(-1.0).rank_of());
    assert!(sc(1.0).rank_of() < sc(2.0).rank_of());
    assert_eq!(sc(1.0).to_bits(), 1.0f64.to_bits());
}

#[test]
fn score_rank_and_nan_exact_values() {
    assert_eq!(sc(0.0).rank_of(), 0);
    assert_eq!(sc(-0.0).rank_of(), 0);
    assert_eq!(sc(1.0).rank_of(), 0x3FF0_0000_0000_0000);
    assert_eq!(sc(-1.0).rank_of(), -0x3FF0_0000_0000_0000);
    assert_eq!(sc(f64::INFINITY).rank_of(), 0x7FF0_0000_0000_0000);
    assert!(Score::from_bits(0x7FF0_0000_0000_0001).is_nan());
    assert!(Score::from_bits(0xFFF8_0000_0000_0000).is_nan());
    assert!(!Score::from_bits(0x7FF0_0000_0000_0000).is_nan());
    assert!(!Score::from_bits(0xFFF0_0000_0000_0000).is_nan());
}

#[test]
fn zero_scores_of_either_sign_share_a_place() {
    let mut db = Db::new();
    db.zadd("k".to_string(), "b".to_string(), sc(-0.0)).unwrap();
    db.zadd("k".to_string(), "a".to_string(), sc(0.0)).unwrap();
    let names: Vec<String> = pairs(&db, "k", 0.0, 0.0).into_iter().map(|p| p.1).collect();
    assert_eq!(names, vec!["a", "b"]);
}
