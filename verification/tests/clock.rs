use cairn::clock::{merge_vector_clocks, ClockEntry, ClockValue, VectorClock};

fn clock(entries: &[(&str, i64)]) -> VectorClock {
    VectorClock::Entries(
        entries
            .iter()
            .map(|(d, n)| ClockEntry { device: d.to_string(), value: ClockValue::Count(*n) })
            .collect(),
    )
}

fn counts(c: &VectorClock) -> Vec<(String, i64)> {
    match c {
        VectorClock::Entries(es) => es
            .iter()
            .map(|e| {
                let n = match e.value {
                    ClockValue::Count(n) => n,
                    ClockValue::Raw(_) => -999,
                };
                (e.device.clone(), n)
            })
            .collect(),
        _ => vec![],
    }
}

#[test]
fn merge_takes_larger_counts() {
    let a = clock(&[("laptop", 3), ("phone", 1)]);
    let b = clock(&[("phone", 4), ("tablet", 2), ("laptop", 1)]);
    let m = merge_vector_clocks(&a, &b);
    assert_eq!(
        counts(&m),
        vec![("laptop".to_string(), 3), ("phone".to_string(), 4), ("tablet".to_string(), 2)]
    );
}

#[test]
fn merge_reads_unreadable_as_empty_and_keeps_non_objects() {
    let a = VectorClock::Unreadable("not json".to_string());
    let b = clock(&[("x", 2)]);
    assert_eq!(counts(&merge_vector_clocks(&a, &b)), vec![("x".to_string(), 2)]);
    let n = VectorClock::NotObject("[1,2]".to_string());
    match merge_vector_clocks(&n, &b) {
        VectorClock::NotObject(t) => assert_eq!(t, "[1,2]"),
        _ => panic!("a non-object stays as it is"),
    }
    assert_eq!(counts(&merge_vector_clocks(&b, &n)), vec![("x".to_string(), 2)]);
}

#[test]
fn merge_replaces_non_integer_values() {
    let a = VectorClock::Entries(vec![ClockEntry { device: "x".to_string(), value: ClockValue::Raw("\"abc\"".to_string()) }]);
    let b = clock(&[("x", -1)]);
    // a non-integer counts as 0, which is larger than -1
    assert_eq!(counts(&merge_vector_clocks(&a, &b)), vec![("x".to_string(), 0)]);
}

#[test]
fn first_and_bump() {
    let c = VectorClock::first(&"dev".to_string());
    assert_eq!(counts(&c), vec![("dev".to_string(), 1)]);
    let c = c.bump(&"dev".to_string()).bump(&"other".to_string());
    assert_eq!(counts(&c), vec![("dev".to_string(), 2), ("other".to_string(), 1)]);
    let top = clock(&[("dev", i64::MAX)]).bump(&"dev".to_string());
    assert_eq!(counts(&top), vec![("dev".to_string(), i64::MAX)]);
}

fn sorted(c: &VectorClock) -> Vec<(String, i64)> {
    let mut v = counts(c);
    v.sort();
    v
}

#[test]
fn merge_is_a_join() {
    let a = clock(&[("laptop", 3), ("phone", 1)]);
    let b = clock(&[("phone", 4), ("tablet", 2)]);
    let c = clock(&[("tablet", 5), ("watch", 1)]);
    let empty = clock(&[]);
    assert_eq!(sorted(&merge_vector_clocks(&a, &b)), sorted(&merge_vector_clocks(&b, &a)));
    assert_eq!(sorted(&merge_vector_clocks(&a, &a)), sorted(&a));
    assert_eq!(sorted(&merge_vector_clocks(&a, &empty)), sorted(&a));
    assert_eq!(
        sorted(&merge_vector_clocks(&merge_vector_clocks(&a, &b), &c)),
        sorted(&merge_vector_clocks(&a, &merge_vector_clocks(&b, &c)))
    );
}
