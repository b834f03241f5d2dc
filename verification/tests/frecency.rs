use pazi::frecency::Frecency;

fn keys(f: &Frecency) -> Vec<String> {
    f.items().normalized().into_iter().map(|(k, _)| k).collect()
}

#[test]
fn basic_frecency_test() {
    let mut f = Frecency::new(100);
    f.visit_with_time("foo".to_string(), 10);
    f.visit_with_time("bar".to_string(), 20);
    f.visit_with_time("foo".to_string(), 50);
    f.insert_with_time("quux".to_string(), 70);
    assert_eq!(keys(&f), vec!["foo", "quux", "bar"]);
    let f_clone = f.clone();
    f.insert_with_time("quux".to_string(), 77);
    assert_eq!(f_clone.items().raw(), f.items().raw());
}

#[test]
fn trims_min() {
    let mut f = Frecency::new(2);
    f.visit_with_time("foo".to_string(), 10);
    assert_eq!(f.items().normalized().len(), 1);
    f.visit_with_time("bar".to_string(), 10);
    f.visit_with_time("bar".to_string(), 10);
    f.visit_with_time("bar".to_string(), 20);
    assert_eq!(keys(&f), vec!["bar", "foo"]);
    f.visit_with_time("baz".to_string(), 30);
    assert_eq!(keys(&f), vec!["bar", "baz"]);
}

#[test]
fn frecency_decay_works() {
    let mut f = Frecency::new(5);
    // a 30-day half-life means two visits over 30 days ago should have
    // decayed to less than one visit now
    let now: u64 = 1_700_000_000;
    let before = now - 31 * 24 * 60 * 60;
    f.visit_with_time("foo".to_string(), before);
    f.visit_with_time("foo".to_string(), before);
    f.visit_with_time("bar".to_string(), now);
    assert_eq!(keys(&f), vec!["bar", "foo"]);
}

#[test]
fn normalized_single_entry_is_zero() {
    let mut f = Frecency::new(10);
    f.visit_with_time("only".to_string(), 42);
    let n = f.items().normalized();
    assert_eq!(n.len(), 1);
    assert_eq!(n[0].0, "only");
    assert_eq!(n[0].1, 0);
}

#[test]
fn normalized_values_in_range() {
    let mut f = Frecency::new(10);
    f.visit_with_time("a".to_string(), 10);
    f.visit_with_time("b".to_string(), 1000);
    f.visit_with_time("c".to_string(), 100000);
    f.visit_with_time("b".to_string(), 200000);
    for (_, v) in f.items().normalized() {
        assert!(v <= 1_000_000);
    }
    // the maximum maps to full scale, the minimum to zero
    let n = f.items().normalized();
    assert_eq!(n[0].1, 1_000_000);
    assert_eq!(n[n.len() - 1].1, 0);
}

#[test]
fn recency_orders_later_visit_first() {
    let mut f = Frecency::new(100);
    f.visit_with_time("a".to_string(), 10);
    f.visit_with_time("b".to_string(), 20);
    assert_eq!(keys(&f), vec!["b", "a"]);
}

#[test]
fn frequency_overcomes_recency() {
    let mut f = Frecency::new(1000);
    f.visit_with_time("a".to_string(), 10);
    f.visit_with_time("b".to_string(), 20);
    assert_eq!(keys(&f)[0], "b");
    // ten further visits to "a", each followed by a throwaway visit
    for i in 0..10u64 {
        f.visit_with_time("a".to_string(), 21 + 2 * i);
        f.visit_with_time(format!("throwaway{}", i), 22 + 2 * i);
    }
    let ks = keys(&f);
    let pa = ks.iter().position(|k| k == "a").unwrap();
    let pb = ks.iter().position(|k| k == "b").unwrap();
    assert!(pa < pb);
}

#[test]
fn eviction_drops_lowest_scored() {
    let mut f = Frecency::new(2);
    f.visit_with_time("a".to_string(), 10);
    f.visit_with_time("b".to_string(), 20);
    f.visit_with_time("c".to_string(), 30);
    let ks = keys(&f);
    assert_eq!(ks.len(), 2);
    // "a" was lowest-scoring when "c" arrived
    assert!(!ks.contains(&"a".to_string()));
    assert!(ks.contains(&"b".to_string()));
    assert!(ks.contains(&"c".to_string()));
}
