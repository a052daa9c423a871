use squid::assoc::StringMap;
use squid::tinylang::{
    render_result, render_target, reverse, reverse_order, reversed_order, sort_by_key,
    sort_order, sortable, stable_order, Builtin, State, Value,
};

fn text(s: &str) -> Value {
    Value::Text(s.to_string())
}

fn object(fields: &[(&str, Value)]) -> Value {
    let mut state = State::new();
    for (name, value) in fields {
        state.insert(name.to_string(), value.clone());
    }
    Value::Object(state)
}

fn field(value: &Value, name: &str) -> String {
    match value {
        Value::Object(fields) => fields.get(name).unwrap().to_text(),
        other => panic!("expected an object, found {:?}", other),
    }
}

fn items_of(value: Value) -> Vec<Value> {
    match value {
        Value::List(items) => items,
        other => panic!("expected a list, found {:?}", other),
    }
}

#[test]
fn state_insert_replaces() {
    let mut state = State::new();
    assert_eq!(0, state.len());
    state.insert("a".to_string(), text("1"));
    state.insert("b".to_string(), text("2"));
    state.insert("a".to_string(), text("3"));
    assert_eq!(2, state.len());
    assert_eq!("3", state.get("a").unwrap().to_text());
    assert_eq!("2", state.get("b").unwrap().to_text());
    assert!(state.get("c").is_none());
    assert!(state.contains_key("a"));
    assert!(!state.contains_key("A"));
    assert_eq!(2, state.entries().len());
}

#[test]
fn state_clone_is_independent() {
    let mut base = State::new();
    base.insert("shared".to_string(), text("base"));
    let mut copy = base.clone();
    copy.insert("content".to_string(), text("mine"));
    copy.insert("shared".to_string(), text("changed"));
    assert_eq!(1, base.len());
    assert_eq!("base", base.get("shared").unwrap().to_text());
    assert!(base.get("content").is_none());
    assert_eq!(2, copy.len());
}

#[test]
fn state_extend_prefers_the_other() {
    let mut state = State::new();
    state.insert("a".to_string(), text("old"));
    state.insert("b".to_string(), text("kept"));
    let mut other = State::new();
    other.insert("a".to_string(), text("new"));
    other.insert("c".to_string(), text("added"));
    state.extend(&other);
    assert_eq!(3, state.len());
    assert_eq!("new", state.get("a").unwrap().to_text());
    assert_eq!("kept", state.get("b").unwrap().to_text());
    assert_eq!("added", state.get("c").unwrap().to_text());
}

#[test]
fn state_insert_texts_adds_each_pair() {
    let mut texts = StringMap::new();
    texts.insert("k".to_string(), "v".to_string());
    texts.insert("a".to_string(), "new".to_string());
    let mut state = State::new();
    state.insert("a".to_string(), text("old"));
    state.insert_texts(&texts);
    assert_eq!(2, state.len());
    assert_eq!("new", state.get("a").unwrap().to_text());
    assert_eq!("v", state.get("k").unwrap().to_text());
}

#[test]
fn values_are_shown_as_text() {
    assert_eq!("hello", text("hello").to_text());
    assert_eq!("0", Value::Numeric(0).to_text());
    assert_eq!("7", Value::Numeric(7).to_text());
    assert_eq!("10", Value::Numeric(10).to_text());
    assert_eq!("1234567890", Value::Numeric(1234567890).to_text());
    assert_eq!("18446744073709551615", Value::Numeric(u64::MAX).to_text());
    assert_eq!("Nil", Value::Nil.to_text());
    assert_eq!("Function", Value::Callable(Builtin::Render).to_text());
    assert_eq!("Object", object(&[]).to_text());
    assert_eq!("Vector with 0 elements", Value::List(vec![]).to_text());
    assert_eq!(
        "Vector with 2 elements",
        Value::List(vec![Value::Nil, Value::Nil]).to_text()
    );
}

#[test]
fn value_clone_is_deep() {
    let first = Value::List(vec![object(&[("k", text("v"))]), Value::Numeric(3)]);
    let copy = first.clone();
    let items = items_of(copy);
    assert_eq!(2, items.len());
    assert_eq!("v", field(&items[0], "k"));
    assert!(matches!(items[1], Value::Numeric(3)));
}

#[test]
fn sort_by_key_orders_by_the_field() {
    let list = Value::List(vec![
        object(&[("title", text("pear")), ("n", text("1"))]),
        object(&[("title", text("apple")), ("n", text("2"))]),
        object(&[("title", text("fig")), ("n", text("3"))]),
    ]);
    let arguments = vec![list, text("title")];
    assert!(sortable(&arguments));
    let sorted = items_of(sort_by_key(arguments, &State::new()));
    let titles: Vec<String> = sorted.iter().map(|v| field(v, "title")).collect();
    assert_eq!(vec!["apple", "fig", "pear"], titles);
    let numbers: Vec<String> = sorted.iter().map(|v| field(v, "n")).collect();
    assert_eq!(vec!["2", "3", "1"], numbers);
}

#[test]
fn sort_by_key_is_stable() {
    let list = Value::List(vec![
        object(&[("k", text("b")), ("id", text("1"))]),
        object(&[("k", text("a")), ("id", text("2"))]),
        object(&[("k", text("b")), ("id", text("3"))]),
        object(&[("k", text("a")), ("id", text("4"))]),
        object(&[("k", text("b")), ("id", text("5"))]),
    ]);
    let sorted = items_of(sort_by_key(vec![list, text("k")], &State::new()));
    let ids: Vec<String> = sorted.iter().map(|v| field(v, "id")).collect();
    assert_eq!(vec!["2", "4", "1", "3", "5"], ids);
}

#[test]
fn sort_by_key_compares_texts_not_numbers() {
    let list = Value::List(vec![
        object(&[("n", Value::Numeric(10))]),
        object(&[("n", Value::Numeric(9))]),
        object(&[("n", Value::Numeric(100))]),
        object(&[("n", text(""))]),
        object(&[("n", text("1"))]),
    ]);
    let sorted = items_of(sort_by_key(vec![list, text("n")], &State::new()));
    let shown: Vec<String> = sorted.iter().map(|v| field(v, "n")).collect();
    assert_eq!(vec!["", "1", "10", "100", "9"], shown);
}

#[test]
fn sort_by_key_orders_as_strings_do() {
    let words = ["b", "a", "ab", "", "B", "é", "z", "aa", "a"];
    let list = Value::List(words.iter().map(|w| object(&[("w", text(w))])).collect());
    let sorted = items_of(sort_by_key(vec![list, text("w")], &State::new()));
    let shown: Vec<String> = sorted.iter().map(|v| field(v, "w")).collect();
    let mut expected: Vec<String> = words.iter().map(|w| w.to_string()).collect();
    expected.sort();
    assert_eq!(expected, shown);
}

#[test]
fn sort_by_key_gives_nil_without_list_and_field() {
    let state = State::new();
    assert!(matches!(sort_by_key(vec![], &state), Value::Nil));
    assert!(matches!(
        sort_by_key(vec![Value::List(vec![])], &state),
        Value::Nil
    ));
    assert!(matches!(
        sort_by_key(vec![text("x"), text("k")], &state),
        Value::Nil
    ));
    assert!(matches!(
        sort_by_key(vec![Value::List(vec![]), Value::Numeric(1)], &state),
        Value::Nil
    ));
    assert!(sortable(&vec![]));
    assert!(sortable(&vec![text("x"), text("k")]));
}

#[test]
fn sort_by_key_of_an_empty_list_is_empty() {
    let sorted = sort_by_key(vec![Value::List(vec![]), text("k")], &State::new());
    assert!(items_of(sorted).is_empty());
}

#[test]
fn sortable_wants_objects_with_the_field() {
    let missing = vec![
        Value::List(vec![object(&[("k", text("a"))]), object(&[("other", text("b"))])]),
        text("k"),
    ];
    assert!(!sortable(&missing));
    let not_objects = vec![Value::List(vec![text("a")]), text("k")];
    assert!(!sortable(&not_objects));
    let fine = vec![Value::List(vec![object(&[("k", text("a"))])]), text("k")];
    assert!(sortable(&fine));
}

#[test]
fn reverse_turns_a_list_around() {
    let list = Value::List(vec![text("1"), text("2"), text("3")]);
    let reversed = items_of(reverse(vec![list], &State::new()));
    let shown: Vec<String> = reversed.iter().map(|v| v.to_text()).collect();
    assert_eq!(vec!["3", "2", "1"], shown);
    assert!(matches!(reverse(vec![], &State::new()), Value::Nil));
    assert!(matches!(reverse(vec![text("x")], &State::new()), Value::Nil));
    assert!(items_of(reverse(vec![Value::List(vec![])], &State::new())).is_empty());
}

#[test]
fn render_takes_a_path_as_first_argument() {
    assert_eq!(None, render_target(&vec![]));
    assert_eq!(None, render_target(&vec![Value::Numeric(1)]));
    assert_eq!(
        Some("partials/head.template".to_string()),
        render_target(&vec![text("partials/head.template"), text("ignored")])
    );
}

#[test]
fn render_gives_output_or_message_as_text() {
    assert_eq!("<p>x</p>", render_result(Ok("<p>x</p>".to_string())).to_text());
    assert_eq!("no such file", render_result(Err("no such file".to_string())).to_text());
}

#[test]
fn string_map_behaves_as_a_map() {
    let mut map = StringMap::new();
    assert!(map.is_empty());
    map.insert("a".to_string(), "1".to_string());
    map.insert("b".to_string(), "2".to_string());
    map.insert("a".to_string(), "3".to_string());
    assert!(!map.is_empty());
    assert_eq!(2, map.len());
    assert_eq!("3", map.get("a").unwrap());
    assert_eq!("2", map.get("b").unwrap());
    assert!(map.get("c").is_none());
    assert!(map.contains_key("b"));
    let copy = map.clone();
    assert_eq!(2, copy.len());
    assert_eq!("3", copy.get("a").unwrap());
    let pairs = StringMap::from_pairs(vec![
        ("x".to_string(), "1".to_string()),
        ("x".to_string(), "2".to_string()),
    ]);
    assert_eq!(1, pairs.len());
    assert_eq!("2", pairs.get("x").unwrap());
}

#[test]
fn builtins_go_by_their_names() {
    assert_eq!("render", Builtin::Render.name());
    assert_eq!("sort_by_key", Builtin::SortByKey.name());
    assert_eq!("reverse", Builtin::Reverse.name());
}

fn strings(words: &[&str]) -> Vec<String> {
    words.iter().map(|w| w.to_string()).collect()
}

#[test]
fn stable_order_lists_indices_by_key() {
    assert_eq!(
        vec![1, 2, 0],
        stable_order(&strings(&["pear", "apple", "fig"]))
    );
    assert_eq!(
        vec![1, 3, 0, 2, 4],
        stable_order(&strings(&["b", "a", "b", "a", "b"]))
    );
    assert_eq!(
        vec![3, 4, 0, 2, 1],
        stable_order(&strings(&["10", "9", "100", "", "1"]))
    );
    assert!(stable_order(&strings(&[])).is_empty());
    assert_eq!(vec![0], stable_order(&strings(&["x"])));
    assert_eq!(vec![0, 1, 2], stable_order(&strings(&["a", "a", "a"])));
}

#[test]
fn stable_order_agrees_with_a_stable_sort_of_strings() {
    let words = strings(&["b", "a", "ab", "", "B", "é", "z", "aa", "a", "B", ""]);
    let mut expected: Vec<usize> = (0..words.len()).collect();
    expected.sort_by_key(|i| words[*i].clone());
    assert_eq!(expected, stable_order(&words));
}

#[test]
fn reverse_order_counts_down() {
    assert_eq!(vec![3, 2, 1, 0], reverse_order(4));
    assert_eq!(vec![0], reverse_order(1));
    assert!(reverse_order(0).is_empty());
}

#[test]
fn sort_order_is_the_order_of_sort_by_key() {
    let items = vec![
        object(&[("k", text("b")), ("id", text("0"))]),
        object(&[("k", text("a")), ("id", text("1"))]),
        object(&[("k", Value::Numeric(10)), ("id", text("2"))]),
        object(&[("k", text("a")), ("id", text("3"))]),
    ];
    let arguments = vec![Value::List(items.clone()), text("k")];
    let order = sort_order(&arguments).unwrap();
    assert_eq!(vec![2, 1, 3, 0], order);
    let sorted = items_of(sort_by_key(arguments, &State::new()));
    let by_order: Vec<String> = order.iter().map(|i| field(&items[*i], "id")).collect();
    let by_sort: Vec<String> = sorted.iter().map(|v| field(v, "id")).collect();
    assert_eq!(by_sort, by_order);
}

#[test]
fn sort_order_gives_none_where_sort_by_key_gives_nil() {
    assert_eq!(None, sort_order(&vec![]));
    assert_eq!(None, sort_order(&vec![Value::List(vec![])]));
    assert_eq!(None, sort_order(&vec![text("x"), text("k")]));
    assert_eq!(None, sort_order(&vec![Value::List(vec![]), Value::Nil]));
    assert_eq!(
        Some(vec![]),
        sort_order(&vec![Value::List(vec![]), text("k")])
    );
}

#[test]
fn reversed_order_is_the_order_of_reverse() {
    let list = Value::List(vec![text("1"), text("2"), text("3")]);
    assert_eq!(Some(vec![2, 1, 0]), reversed_order(&vec![list, text("more")]));
    assert_eq!(None, reversed_order(&vec![]));
    assert_eq!(None, reversed_order(&vec![text("x")]));
    assert_eq!(Some(vec![]), reversed_order(&vec![Value::List(vec![])]));
}
