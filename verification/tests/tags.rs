use ccl::ast::FieldKey;
use ccl::tag_map::TagMap;

fn name(s: &str) -> FieldKey {
    FieldKey::Name(s.to_string())
}

fn keys<T>(m: &TagMap<T>) -> Vec<FieldKey> {
    m.keys().into_iter().cloned().collect()
}

#[test]
fn tag_map_is_canonically_ordered() {
    let a = TagMap::from_arms(vec![(name("some"), 1), (name("none"), 2)]);
    let b = TagMap::from_arms(vec![(name("none"), 2), (name("some"), 1)]);
    assert_eq!(a.arms, b.arms, "insertion order must not be observable");
    assert_eq!(
        keys(&a),
        vec![name("none"), name("some")],
        "keys iterate in canonical order"
    );
}

#[test]
fn tag_map_absent_tag_is_none_not_an_error() {
    let m = TagMap::from_arms(vec![(name("some"), 7)]);
    assert_eq!(m.get(&name("some")), Some(&7));
    assert_eq!(m.get(&name("none")), None);
    assert_eq!(m.position(&name("none")), None);
}

#[test]
fn tag_map_position_is_relative_to_its_own_key_set() {
    let narrow = TagMap::from_arms(vec![(name("b"), ())]);
    let wide = TagMap::from_arms(vec![(name("a"), ()), (name("b"), ())]);
    assert_eq!(narrow.position(&name("b")), Some(0));
    assert_eq!(wide.position(&name("b")), Some(1));
}

#[test]
fn tag_map_indexed_keys_sort_numerically() {
    let m = TagMap::from_arms((0..12).rev().map(|i| (FieldKey::Index(i), i)).collect());
    assert_eq!(
        keys(&m),
        (0..12).map(FieldKey::Index).collect::<Vec<_>>()
    );
    assert_eq!(m.position(&FieldKey::Index(10)), Some(10));
}

#[test]
fn positions_come_before_names() {
    let m = TagMap::from_arms(vec![(name("a"), 1), (FieldKey::Index(7), 2)]);
    assert_eq!(keys(&m), vec![FieldKey::Index(7), name("a")]);
}

#[test]
fn tag_map_zip_matching_pairs_by_tag() {
    let l = TagMap::from_arms(vec![(name("a"), 1), (name("b"), 2)]);
    let r = TagMap::from_arms(vec![(name("b"), 20), (name("c"), 30)]);
    let paired: Vec<_> = l
        .zip_matching(&r)
        .into_iter()
        .map(|(k, a, b)| (k.clone(), *a, *b))
        .collect();
    assert_eq!(paired, vec![(name("b"), 2, 20)], "only shared tags pair");
    assert!(!l.same_tags(&r));
    assert!(l.same_tags(&TagMap::from_arms(vec![(name("b"), ()), (name("a"), ())])));
}

#[test]
fn tag_map_zip_same_tags_is_pointwise_by_tag() {
    let l = TagMap::from_arms(vec![(name("a"), 1), (name("b"), 2)]);
    let r = TagMap::from_arms(vec![(name("b"), 20), (name("a"), 10)]);
    let combined = l.zip_same_tags(&r, "test", |x, y| x + y);
    assert_eq!(
        combined.arms,
        TagMap::from_arms(vec![(name("a"), 11), (name("b"), 22)]).arms
    );
}

#[test]
fn a_positional_sum_is_tagged_by_position() {
    let m = TagMap::from_positional(vec!['x', 'y', 'z']);
    assert_eq!(m.len(), 3);
    assert_eq!(m.get(&FieldKey::Index(1)), Some(&'y'));
    assert_eq!(m.into_values(), vec!['x', 'y', 'z']);
}

#[test]
fn an_arm_can_be_changed_in_place() {
    let mut m = TagMap::from_arms(vec![(name("a"), 1), (name("b"), 2)]);
    if let Some(v) = m.get_mut(&name("b")) {
        *v = 20;
    }
    assert!(m.get_mut(&name("c")).is_none());
    assert_eq!(m.get(&name("b")), Some(&20));
    *m.get_or_insert_with(name("aa"), || 5) += 1;
    assert_eq!(keys(&m), vec![name("a"), name("aa"), name("b")]);
    assert_eq!(m.get(&name("aa")), Some(&6));
    *m.get_or_insert_with(name("a"), || 99) += 1;
    assert_eq!(m.get(&name("a")), Some(&2));
    m.iter_mut(|_, v| v * 10);
    assert_eq!(m.values(), vec![&20, &60, &200]);
    let doubled = m.map(|_, v| v * 2);
    assert_eq!(
        doubled.into_iter(),
        vec![(name("a"), 40), (name("aa"), 120), (name("b"), 400)]
    );
}

#[test]
fn the_empty_sum_has_no_arms() {
    let m: TagMap<u8> = TagMap::default();
    assert!(m.is_empty());
    assert!(m.iter().is_empty());
    assert_eq!(TagMap::<u8>::new().len(), 0);
}
