use lamp_lang::map::CanonicalMap;

#[test]
fn test_map_eq() {
    let mut map = CanonicalMap::new();
    map.insert('a', 42);
    map.insert('c', 56);

    let mut eq = CanonicalMap::new();
    eq.insert('c', 56);
    eq.insert('a', 42);

    let mut diff = CanonicalMap::new();
    diff.insert('c', 56);
    diff.insert('a', 42);
    diff.insert('j', 79);

    assert_eq!(map, eq);
    assert_ne!(map, diff);
}

#[test]
fn test_constructor_macro() {
    let mut map = CanonicalMap::new();
    map.insert('a', 42);
    map.insert('c', 56);
    let mut built = CanonicalMap::new();
    built.insert('a', 42);
    built.insert('c', 56);
    assert_eq!(map, built);
}

fn map_of(pairs: &[(char, i32)]) -> CanonicalMap<char, i32> {
    let mut m = CanonicalMap::new();
    for (k, v) in pairs {
        m.insert(*k, *v);
    }
    m
}

#[test]
fn test_nested() {
    let one = map_of(&[('a', 42), ('c', 56)]);
    let two = map_of(&[('d', 78), ('h', 99)]);
    let mut nested = CanonicalMap::new();
    nested.insert('a', one.clone());
    nested.insert('y', two.clone());

    assert_eq!(nested.get(&'a'), Some(&one));
    assert_eq!(nested.get(&'y'), Some(&two));

    let mut nested = CanonicalMap::new();
    nested.insert(one.clone(), 'a');
    nested.insert(two.clone(), 'y');

    assert_eq!(nested.get(&one), Some(&'a'));
    assert_eq!(nested.get(&two), Some(&'y'));
}
