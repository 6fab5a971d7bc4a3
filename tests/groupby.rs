use groupby::{group_key, parse_int, render_int, Aggregate, AggregateError, Field, GroupBy};

fn text(s: &str) -> Field {
    Field::Text(s.to_string())
}

fn key(parts: &[&str]) -> Vec<String> {
    parts.iter().map(|p| p.to_string()).collect()
}

fn pairs() -> Vec<Vec<Field>> {
    vec![
        vec![text("a"), Field::Int(1)],
        vec![text("b"), Field::Int(2)],
        vec![text("a"), Field::Int(3)],
    ]
}

fn keys_of(t: &Aggregate<i64>) -> Vec<Vec<String>> {
    (0..t.len()).map(|i| t.key_at(i).unwrap().clone()).collect()
}

#[test]
fn it_works() {}

#[test]
fn sum_of_two_groups() {
    let t = GroupBy::new(pairs(), vec![0], 1).sum().unwrap();
    assert_eq!(t.len(), 2);
    assert_eq!(keys_of(&t), vec![key(&["a"]), key(&["b"])]);
    assert_eq!(t.value_at(0), Some(&4));
    assert_eq!(t.value_at(1), Some(&2));
    assert_eq!(t.value_at(2), None);
    assert_eq!(t.get(&key(&["a"])), Some(&4));
    assert_eq!(t.get(&key(&["b"])), Some(&2));
    assert_eq!(t.get(&key(&["c"])), None);
    assert_eq!(t.index_of(&key(&["b"])), Some(1));
}

#[test]
fn collect_of_two_groups() {
    let t = GroupBy::new(pairs(), vec![0], 1).group_array().unwrap();
    assert_eq!(t.len(), 2);
    assert_eq!(t.key_at(0), Some(&key(&["a"])));
    assert_eq!(t.key_at(1), Some(&key(&["b"])));
    assert_eq!(t.value_at(0), Some(&vec![1, 3]));
    assert_eq!(t.get(&key(&["a"])), Some(&vec![1, 3]));
    assert_eq!(t.get(&key(&["b"])), Some(&vec![2]));
}

#[test]
fn empty_input_gives_empty_table() {
    let t = GroupBy::new(vec![], vec![0], 1).sum().unwrap();
    assert_eq!(t.len(), 0);
    assert!(t.is_empty());
    assert_eq!(t.key_at(0), None);
    let c = GroupBy::new(vec![], vec![0], 1).group_array().unwrap();
    assert!(c.is_empty());
}

#[test]
fn non_numeric_value_fails_sum() {
    let rows = vec![vec![text("a"), Field::Int(1)], vec![text("b"), text("x")]];
    match GroupBy::new(rows, vec![0], 1).sum() {
        Err(AggregateError::NotANumber { record, field, text }) => {
            assert_eq!(record, 1);
            assert_eq!(field, 1);
            assert_eq!(text, "x");
        }
        other => panic!("unexpected {:?}", other.map(|t| t.len())),
    }
}

#[test]
fn non_numeric_value_fails_collect() {
    let rows = vec![vec![text("a"), text("1.5")]];
    let r = GroupBy::new(rows, vec![0], 1).group_array();
    assert!(matches!(r, Err(AggregateError::NotANumber { record: 0, field: 1, .. })));
}

#[test]
fn key_position_out_of_range() {
    let rows = vec![vec![text("a"), Field::Int(1)], vec![text("b")]];
    let r = GroupBy::new(rows, vec![0], 1).sum();
    assert!(matches!(r, Err(AggregateError::FieldOutOfRange { record: 1, field: 1 })));
    let rows = vec![vec![text("a"), Field::Int(1)]];
    let r = GroupBy::new(rows, vec![0, 5], 1).group_array();
    assert!(matches!(r, Err(AggregateError::FieldOutOfRange { record: 0, field: 5 })));
}

#[test]
fn first_bad_record_is_reported() {
    let rows = vec![
        vec![text("a"), Field::Int(1)],
        vec![text("a"), text("oops")],
        vec![text("a")],
    ];
    let r = GroupBy::new(rows, vec![0], 1).sum();
    assert!(matches!(r, Err(AggregateError::NotANumber { record: 1, .. })));
}

#[test]
fn overflowing_total_fails() {
    let rows = vec![vec![text("a"), Field::Int(i64::MAX)], vec![text("a"), Field::Int(1)]];
    let r = GroupBy::new(rows, vec![0], 1).sum();
    assert!(matches!(r, Err(AggregateError::Overflow { record: 1 })));
    let rows = vec![vec![text("a"), Field::Int(i64::MAX)], vec![text("b"), Field::Int(1)]];
    let t = GroupBy::new(rows, vec![0], 1).sum().unwrap();
    assert_eq!(t.get(&key(&["a"])), Some(&i64::MAX));
}

#[test]
fn text_and_integer_fields_group_alike() {
    let rows = vec![
        vec![Field::Int(7), text("10")],
        vec![text("7"), Field::Int(-3)],
        vec![text("+7"), text("+2")],
    ];
    let t = GroupBy::new(rows, vec![0], 1).sum().unwrap();
    assert_eq!(keys_of(&t), vec![key(&["7"]), key(&["+7"])]);
    assert_eq!(t.value_at(0), Some(&7));
    assert_eq!(t.value_at(1), Some(&2));
}

#[test]
fn groups_keep_first_seen_order() {
    let rows = vec![
        vec![text("c"), Field::Int(1)],
        vec![text("a"), Field::Int(1)],
        vec![text("c"), Field::Int(1)],
        vec![text("b"), Field::Int(1)],
        vec![text("a"), Field::Int(1)],
    ];
    let t = GroupBy::new(rows, vec![0], 1).sum().unwrap();
    assert_eq!(keys_of(&t), vec![key(&["c"]), key(&["a"]), key(&["b"])]);
    assert_eq!(t.len(), 3);
}

#[test]
fn sum_ignores_order_within_group() {
    let forward = vec![
        vec![text("a"), Field::Int(5)],
        vec![text("a"), Field::Int(-2)],
        vec![text("a"), Field::Int(9)],
    ];
    let backward: Vec<Vec<Field>> = forward.iter().rev().cloned().collect();
    let x = GroupBy::new(forward, vec![0], 1).sum().unwrap();
    let y = GroupBy::new(backward, vec![0], 1).sum().unwrap();
    assert_eq!(x.get(&key(&["a"])), Some(&12));
    assert_eq!(y.get(&key(&["a"])), Some(&12));
}

#[test]
fn collect_keeps_arrival_order() {
    let rows = vec![
        vec![text("a"), Field::Int(3)],
        vec![text("b"), Field::Int(1)],
        vec![text("a"), Field::Int(-1)],
        vec![text("a"), Field::Int(2)],
    ];
    let t = GroupBy::new(rows, vec![0], 1).group_array().unwrap();
    assert_eq!(t.get(&key(&["a"])), Some(&vec![3, -1, 2]));
    assert_eq!(t.get(&key(&["b"])), Some(&vec![1]));
}

#[test]
fn composite_key_in_declared_order() {
    let rows = vec![
        vec![text("x"), text("y"), Field::Int(1)],
        vec![text("x"), text("z"), Field::Int(2)],
        vec![text("x"), text("y"), Field::Int(3)],
    ];
    let t = GroupBy::new(rows, vec![1, 0], 2).sum().unwrap();
    assert_eq!(keys_of(&t), vec![key(&["y", "x"]), key(&["z", "x"])]);
    assert_eq!(t.value_at(0), Some(&4));
    assert_eq!(t.value_at(1), Some(&2));
}

#[test]
fn single_position_matches_plain_grouping() {
    let row = vec![text("k"), Field::Int(-42)];
    assert_eq!(group_key(&row, &vec![0]), key(&["k"]));
    assert_eq!(group_key(&row, &vec![1]), key(&["-42"]));
}

#[test]
fn all_positions_give_one_group_per_distinct_record() {
    let rows = vec![
        vec![text("a"), Field::Int(1)],
        vec![text("a"), Field::Int(2)],
        vec![text("a"), text("1")],
        vec![text("b"), Field::Int(1)],
    ];
    let t = GroupBy::new(rows, vec![0, 1], 1).sum().unwrap();
    assert_eq!(t.len(), 3);
    assert_eq!(t.get(&key(&["a", "1"])), Some(&2));
}

#[test]
fn render_then_parse_round_trips() {
    for n in [0i64, 7, -7, 10, 1234567890, i64::MAX, i64::MIN, -1] {
        let s = render_int(n);
        assert_eq!(s, n.to_string());
        assert_eq!(parse_int(&s), Some(n));
    }
}

#[test]
fn parse_rejects_what_is_not_an_integer() {
    assert_eq!(parse_int(""), None);
    assert_eq!(parse_int("-"), None);
    assert_eq!(parse_int("+"), None);
    assert_eq!(parse_int("12a"), None);
    assert_eq!(parse_int(" 1"), None);
    assert_eq!(parse_int("9223372036854775808"), None);
    assert_eq!(parse_int("-9223372036854775809"), None);
    assert_eq!(parse_int("99999999999999999999999"), None);
    assert_eq!(parse_int("+15"), Some(15));
    assert_eq!(parse_int("007"), Some(7));
    assert_eq!(parse_int("-0"), Some(0));
    assert_eq!(parse_int("-9223372036854775808"), Some(i64::MIN));
}

#[test]
fn field_renders_its_display_form() {
    assert_eq!(Field::Int(-15).render(), "-15");
    assert_eq!(text("hello").render(), "hello");
}
