use symengine::{
    Binding, Comparison, Expression, ExpressionMap, ExpressionMapKey, Literal, Request,
};

#[derive(Clone, PartialEq, Eq, Hash, Debug)]
enum Key<'a> {
    Variable(&'a str),
    Placeholder(&'a str),
}

impl<'a> ExpressionMapKey for Key<'a> {
    fn to_string(&self) -> String {
        match self {
            Self::Variable(var) => format!("var_{}", var),
            Self::Placeholder(ph) => format!("ph_{}", ph),
        }
    }
}

/// A key type whose two keys stand for one symbol.
#[derive(Clone, PartialEq, Eq, Hash, Debug)]
enum Alias {
    First,
    Second,
}

impl ExpressionMapKey for Alias {
    fn to_string(&self) -> String {
        String::from("x")
    }
}

fn parsed(expr: &Expression) -> String {
    match expr.request() {
        Request::Parse(text) => text.clone(),
        other => panic!("unexpected request {:?}", other),
    }
}

fn signed(expr: &Expression) -> i64 {
    match expr.request() {
        Request::Literal(Literal::Signed(value)) => *value,
        other => panic!("unexpected request {:?}", other),
    }
}

fn substitution(expr: &Expression) -> (&Expression, &Vec<Binding>) {
    match expr.request() {
        Request::Substitute(target, bindings) => (target, bindings),
        other => panic!("unexpected request {:?}", other),
    }
}

fn compares_with_signed(asked: &Comparison, value: i64) -> bool {
    match asked.rhs.request() {
        Request::Expand(inner) => {
            matches!(inner.request(), Request::Literal(Literal::Signed(held)) if *held == value)
        }
        _ => false,
    }
}

fn expanded(expr: &Expression) -> &Expression {
    match expr.request() {
        Request::Expand(inner) => inner,
        other => panic!("unexpected request {:?}", other),
    }
}

fn signed_bindings(bindings: &[Binding]) -> Vec<(String, i64)> {
    let mut pairs: Vec<(String, i64)> =
        bindings.iter().map(|binding| (binding.name.clone(), signed(&binding.value))).collect();
    pairs.sort();
    pairs
}

#[test]
fn a_new_table_is_empty() {
    let map: ExpressionMap<&str> = ExpressionMap::new();
    assert!(map.is_empty());
    assert_eq!(map.len(), 0);
    assert!(!map.contains_key(&"a"));
    assert!(map.get(&"a").is_none());
    assert!(map.eval_key(&"a").is_none());
    assert!(map.entries().is_empty());
}

#[test]
fn the_default_table_is_empty() {
    let map: ExpressionMap<String> = ExpressionMap::default();
    assert!(map.is_empty());
    assert_eq!(map.len(), 0);
}

#[test]
fn simple_subs() {
    let expr = Expression::new("a * b + 10");

    let mut map = ExpressionMap::new();
    map.insert("a", 3i64);
    map.insert("b", -4i64);

    let asked = map.eval_once(&expr).comparison_with(-2i64);
    assert!(compares_with_signed(&asked, -2));
    let out = expanded(&asked.lhs);
    let (target, bindings) = substitution(out);
    assert_eq!(parsed(target), "a * b + 10");
    assert_eq!(
        signed_bindings(bindings),
        vec![("a".to_string(), 3), ("b".to_string(), -4)]
    );
    assert_eq!(parsed(&expr), "a * b + 10");
    assert_eq!(map.len(), 2);
}

#[test]
fn subs_is_eval_once_from_the_expression() {
    let expr = Expression::new("a * b + 10");

    let mut map = ExpressionMap::new();
    map.insert("a", 3i64);
    map.insert("b", -4i64);

    let out = expr.subs(&map);
    let (target, bindings) = substitution(&out);
    assert_eq!(parsed(target), "a * b + 10");
    assert_eq!(
        signed_bindings(bindings),
        vec![("a".to_string(), 3), ("b".to_string(), -4)]
    );
}

#[test]
fn clone_map() {
    let expr = Expression::new("a * b + 10");

    let mut map = ExpressionMap::new();
    map.insert("a", 3i64);
    map.insert("b", -4i64);

    let copy = map.clone();
    let asked = copy.eval_once(&expr).comparison_with(-2i64);
    assert!(compares_with_signed(&asked, -2));
    let from_copy = copy.eval_once(&expr);
    let from_map = map.eval_once(&expr);
    let (copy_target, copy_bindings) = substitution(&from_copy);
    let (map_target, map_bindings) = substitution(&from_map);
    assert_eq!(parsed(copy_target), parsed(map_target));
    assert_eq!(signed_bindings(copy_bindings), signed_bindings(map_bindings));
    assert_eq!(
        signed_bindings(copy_bindings),
        vec![("a".to_string(), 3), ("b".to_string(), -4)]
    );
}

#[test]
fn a_clone_is_a_table_of_its_own() {
    let mut map = ExpressionMap::new();
    map.insert("a", 3i64);

    let mut copy = map.clone();
    copy.insert("b", -4i64);
    copy.insert("a", 5i64);

    assert_eq!(map.len(), 1);
    assert!(!map.contains_key(&"b"));
    assert_eq!(signed(&map.get(&"a").unwrap()), 3);
    assert_eq!(copy.len(), 2);
    assert_eq!(signed(&copy.get(&"a").unwrap()), 5);
}

#[test]
fn custom_key() {
    let mut by_key = ExpressionMap::new();
    by_key.insert(Key::Variable("a"), 3i64);
    by_key.insert(Key::Placeholder("a"), -4i64);

    let asked = by_key.eval_once(&Expression::new("var_a * ph_a + 10")).comparison_with(-2i64);
    assert!(compares_with_signed(&asked, -2));

    let mut by_name = ExpressionMap::new();
    by_name.insert("var_a", 3i64);
    by_name.insert("ph_a", -4i64);

    let expr = Expression::new("var_a * ph_a + 10");
    let from_key = by_key.eval_once(&expr);
    let from_name = by_name.eval_once(&expr);
    let (key_target, key_bindings) = substitution(&from_key);
    let (name_target, name_bindings) = substitution(&from_name);
    assert_eq!(parsed(key_target), "var_a * ph_a + 10");
    assert_eq!(parsed(name_target), "var_a * ph_a + 10");
    assert_eq!(
        signed_bindings(key_bindings),
        vec![("ph_a".to_string(), -4), ("var_a".to_string(), 3)]
    );
    assert_eq!(signed_bindings(key_bindings), signed_bindings(name_bindings));
    assert_eq!(by_key.len(), by_name.len());
    assert_eq!(signed(&by_key.get(&Key::Variable("a")).unwrap()), 3);
    assert_eq!(signed(&by_name.get(&"var_a").unwrap()), 3);
}

#[test]
fn keys_of_one_name_and_two_kinds_are_two_keys() {
    let mut map = ExpressionMap::new();
    map.insert(Key::Variable("a"), 3i64);
    assert!(map.contains_key(&Key::Variable("a")));
    assert!(!map.contains_key(&Key::Placeholder("a")));
    assert!(!map.contains_key(&Key::Variable("b")));
    assert!(map.get(&Key::Placeholder("a")).is_none());
}

#[test]
fn eval_key_passes_the_whole_table_over_the_value() {
    let mut map = ExpressionMap::new();
    map.insert("a", 3i64);
    map.insert("c", Expression::new("a + b"));
    map.insert("b", -4i64);

    let out = map.eval_key(&"c").unwrap();
    let (target, bindings) = substitution(&out);
    assert_eq!(parsed(target), "a + b");
    assert_eq!(bindings.len(), 3);
    let mut names: Vec<&str> = bindings.iter().map(|binding| binding.name.as_str()).collect();
    names.sort();
    assert_eq!(names, vec!["a", "b", "c"]);
    for binding in bindings.iter() {
        match binding.name.as_str() {
            "a" => assert_eq!(signed(&binding.value), 3),
            "b" => assert_eq!(signed(&binding.value), -4),
            _ => assert_eq!(parsed(&binding.value), "a + b"),
        }
    }
    assert!(map.eval_key(&"d").is_none());
}

#[test]
fn eval_key_is_get_followed_by_eval_once() {
    let mut map = ExpressionMap::new();
    map.insert("a", 3i64);
    map.insert("c", Expression::new("a + b"));
    map.insert("b", -4i64);

    let direct = map.eval_key(&"c").unwrap();
    let composed = map.eval_once(&map.get(&"c").unwrap());
    assert_eq!(format!("{:?}", direct), format!("{:?}", composed));
}

#[test]
fn get_reads_the_bound_value_and_makes_no_entry() {
    let mut map = ExpressionMap::new();
    map.insert("a".to_string(), 3i64);
    assert_eq!(signed(&map.get(&"a".to_string()).unwrap()), 3);
    assert!(map.get(&"b".to_string()).is_none());
    assert!(!map.contains_key(&"b".to_string()));
    assert_eq!(map.len(), 1);
}

#[test]
fn inserting_a_held_key_replaces_its_value() {
    let mut map = ExpressionMap::new();
    map.insert("a", 3i64);
    map.insert("b", 7u64);
    map.insert("a", -4i64);
    assert_eq!(map.len(), 2);
    assert!(!map.is_empty());
    assert_eq!(signed(&map.get(&"a").unwrap()), -4);
    let keys: Vec<&str> = map.entries().into_iter().map(|(key, _)| key).collect();
    assert_eq!(keys, vec!["a", "b"]);
}

#[test]
fn two_keys_of_one_symbol_share_the_later_value() {
    let mut map = ExpressionMap::new();
    map.insert(Alias::First, 1i64);
    map.insert(Alias::Second, 2i64);
    assert!(map.contains_key(&Alias::First));
    assert!(map.contains_key(&Alias::Second));
    assert_eq!(map.len(), 1);
    assert_eq!(signed(&map.get(&Alias::First).unwrap()), 2);
    assert_eq!(signed(&map.get(&Alias::Second).unwrap()), 2);
    assert_eq!(map.entries().len(), 2);
}

#[test]
fn tables_are_equal_when_their_keys_are() {
    let mut left = ExpressionMap::new();
    left.insert("a", 3i64);
    left.insert("b", -4i64);

    let mut right = ExpressionMap::new();
    right.insert("b", Expression::new("x"));
    right.insert("a", 0u64);

    assert!(left == right);
    assert!(right == left);

    right.insert("c", 1i64);
    assert!(left != right);
    assert!(right != left);

    let empty: ExpressionMap<&str> = ExpressionMap::new();
    assert!(empty != left);
    assert!(empty == ExpressionMap::new());
}

#[test]
fn entries_list_each_key_with_its_value() {
    let mut map = ExpressionMap::new();
    map.insert("a", 3i64);
    map.insert("c", Expression::new("a + b"));
    map.insert("b", -4i64);

    let entries = map.entries();
    assert_eq!(entries.len(), 3);
    assert_eq!(entries[0].0, "a");
    assert_eq!(signed(&entries[0].1), 3);
    assert_eq!(entries[1].0, "c");
    assert_eq!(parsed(&entries[1].1), "a + b");
    assert_eq!(entries[2].0, "b");
    assert_eq!(signed(&entries[2].1), -4);
}

#[test]
fn a_table_rebuilt_from_its_entries_binds_the_same() {
    let mut map = ExpressionMap::new();
    map.insert("a".to_string(), 3i64);
    map.insert("c".to_string(), Expression::new("a + b"));
    map.insert("b".to_string(), -4i64);

    let rebuilt = ExpressionMap::from_entries(&map.entries());
    assert!(rebuilt == map);
    assert_eq!(rebuilt.len(), 3);
    for key in ["a", "b", "c"] {
        let key = key.to_string();
        assert_eq!(
            format!("{:?}", rebuilt.get(&key)),
            format!("{:?}", map.get(&key))
        );
    }
    let expr = Expression::new("c");
    assert_eq!(
        format!("{:?}", rebuilt.eval_once(&expr)),
        format!("{:?}", map.eval_once(&expr))
    );
}

#[test]
fn a_table_rebuilt_from_its_entries_in_another_order_binds_the_same() {
    let mut map = ExpressionMap::new();
    map.insert("a", 3i64);
    map.insert("c", Expression::new("a + b"));
    map.insert("b", -4i64);

    let mut entries = map.entries();
    entries.reverse();
    entries.push(("a", Expression::from(3i64)));
    let rebuilt = ExpressionMap::from_entries(&entries);
    assert!(rebuilt == map);
    assert_eq!(rebuilt.len(), map.len());
    for key in ["a", "b", "c", "d"] {
        assert_eq!(format!("{:?}", rebuilt.get(&key)), format!("{:?}", map.get(&key)));
        assert_eq!(rebuilt.contains_key(&key), map.contains_key(&key));
    }
}

#[test]
fn names_are_counted_as_texts() {
    let mut map = ExpressionMap::new();
    map.insert("a", 1i64);
    map.insert(" a", 2i64);
    assert_eq!(map.len(), 2);
    assert!(!map.is_empty());
}

#[test]
fn from_entries_lets_the_later_entry_win() {
    let entries = vec![
        ("a", Expression::from(1i64)),
        ("b", Expression::from(2i64)),
        ("a", Expression::from(3i64)),
    ];
    let map = ExpressionMap::from_entries(&entries);
    assert_eq!(map.len(), 2);
    assert_eq!(signed(&map.get(&"a").unwrap()), 3);
    assert_eq!(signed(&map.get(&"b").unwrap()), 2);
}

#[test]
fn string_keys_stand_for_the_symbol_they_spell() {
    assert_eq!(ExpressionMapKey::to_string(&"abc"), "abc");
    assert_eq!(ExpressionMapKey::to_string(&String::from("x_1")), "x_1");
    assert_eq!("abc".symbol(), "abc");
    assert_eq!(String::from("x_1").symbol(), "x_1");
    assert!("a".is_same_key(&"a"));
    assert!(!"a".is_same_key(&"b"));
    assert!(!"a".is_same_key(&"ab"));
    assert!(String::from("a").is_same_key(&String::from("a")));
    assert!(!String::from("a").is_same_key(&String::from("A")));
}

#[test]
fn custom_keys_stand_for_the_symbol_they_project_to() {
    assert_eq!(Key::Variable("a").to_string(), "var_a");
    assert_eq!(Key::Placeholder("a").to_string(), "ph_a");
    assert_eq!(Key::Variable("a").symbol(), "var_a");
    assert_eq!(Key::Placeholder("a").symbol(), "ph_a");
    assert!(!Key::Variable("a").is_same_key(&Key::Placeholder("a")));
    assert!(Key::Variable("a").is_same_key(&Key::Variable("a")));
}
