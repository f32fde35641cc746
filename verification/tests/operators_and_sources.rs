use declarative_dataflow::collection::{
    concat_tuples, distinct_tuples, join_tuples, negate_tuples, project_tuples,
};
use declarative_dataflow::operators::CardinalityOne;
use declarative_dataflow::sources::{parse_eid, parse_number, CsvFile, DecodeError};
use declarative_dataflow::value::Value;

fn a() -> Value {
    Value::String("A".to_string())
}

fn b() -> Value {
    Value::String("B".to_string())
}

#[test]
fn cardinality_one_overwrites() {
    // insertions in time order: (e=1, v=A, +1), then (e=1, v=B, +1)
    let input = vec![
        ((Value::Eid(1), a()), 0u64, 1isize),
        ((Value::Eid(1), b()), 1u64, 1isize),
    ];
    let output = input.cardinality_one();
    assert_eq!(
        output,
        vec![
            ((Value::Eid(1), a()), 0, 1),
            ((Value::Eid(1), a()), 1, -1),
            ((Value::Eid(1), b()), 1, 1),
        ]
    );
}

#[test]
fn cardinality_one_retraction_clears() {
    let input = vec![
        ((Value::Eid(1), a()), 0u64, 1isize),
        ((Value::Eid(1), b()), 1u64, 1isize),
        ((Value::Eid(1), b()), 2u64, -1isize),
    ];
    let output = input.cardinality_one();
    assert_eq!(
        output,
        vec![
            ((Value::Eid(1), a()), 0, 1),
            ((Value::Eid(1), a()), 1, -1),
            ((Value::Eid(1), b()), 1, 1),
            ((Value::Eid(1), b()), 2, -1),
        ]
    );
    // the consolidated output holds no value for the entity
    let mut total = 0isize;
    for ((_, _), _, diff) in &output {
        total += diff;
    }
    assert_eq!(total, 0);
}

#[test]
fn cardinality_one_sorts_within_a_batch() {
    // out-of-order arrival: the later update comes first in the batch
    let input = vec![
        ((Value::Eid(1), b()), 5u64, 1isize),
        ((Value::Eid(1), a()), 2u64, 1isize),
    ];
    let output = input.cardinality_one();
    assert_eq!(
        output,
        vec![
            ((Value::Eid(1), a()), 2, 1),
            ((Value::Eid(1), a()), 5, -1),
            ((Value::Eid(1), b()), 5, 1),
        ]
    );
}

#[test]
fn insert_twice_accumulates_and_retracts_to_zero() {
    // inserting a tuple twice yields accumulated diff 2
    let row = vec![Value::Eid(1), a()];
    let twice_in = vec![(row.clone(), 0u64, 1isize), (row.clone(), 0u64, 1isize)];
    let consolidated: isize = twice_in.iter().map(|(_, _, d)| d).sum();
    assert_eq!(consolidated, 2);
    // retracting twice returns the accumulated diff to zero
    let and_out = concat_tuples(
        twice_in,
        vec![(row.clone(), 1u64, -1isize), (row.clone(), 1u64, -1isize)],
    );
    let net: isize = and_out.iter().map(|(_, _, d)| d).sum();
    assert_eq!(net, 0);
    // and the set-semantic reading sees the row appear and vanish
    let distinct = distinct_tuples(&and_out);
    assert_eq!(
        distinct,
        vec![(row.clone(), 0, 1), (row.clone(), 1, -1)]
    );
}

#[test]
fn projection_commutes_with_union_on_values() {
    // a permutation of the two columns of each branch
    let left = vec![(vec![Value::Eid(1), a()], 0u64, 1isize)];
    let right = vec![
        (vec![Value::Eid(1), a()], 0u64, 1isize),
        (vec![Value::Eid(2), b()], 0u64, 1isize),
    ];
    let swap = vec![1usize, 0usize];
    // project(union(l, r))
    let union_first = distinct_tuples(&project_tuples(
        &concat_tuples(left.clone(), right.clone()),
        &swap,
    ));
    // union(project(l), project(r))
    let project_first = distinct_tuples(&concat_tuples(
        project_tuples(&left, &swap),
        project_tuples(&right, &swap),
    ));
    assert_eq!(union_first, project_first);
    assert_eq!(
        union_first,
        vec![
            (vec![a(), Value::Eid(1)], 0, 1),
            (vec![b(), Value::Eid(2)], 0, 1),
        ]
    );
}

#[test]
fn join_is_commutative_up_to_column_reordering() {
    let l = vec![
        (vec![Value::Eid(1), a()], 0u64, 1isize),
        (vec![Value::Eid(2), b()], 3u64, 2isize),
    ];
    let r = vec![
        (vec![Value::Eid(1), Value::Number(7)], 1u64, 1isize),
        (vec![Value::Eid(2), Value::Number(8)], 0u64, 1isize),
    ];
    let key = vec![0usize];
    let rest = vec![1usize];
    let lr = join_tuples(&l, &r, &key, &rest, &key, &rest);
    let rl = join_tuples(&r, &l, &key, &rest, &key, &rest);
    // swap the remainder columns of the opposite join
    let swapped: Vec<(Vec<Value>, u64, isize)> = rl
        .into_iter()
        .map(|(row, t, d)| (vec![row[0].clone(), row[2].clone(), row[1].clone()], t, d))
        .collect();
    let mut lhs = lr;
    let mut rhs = swapped;
    lhs.sort();
    rhs.sort();
    assert_eq!(lhs, rhs);
    assert_eq!(
        lhs[0],
        (vec![Value::Eid(1), a(), Value::Number(7)], 1, 1)
    );
}

#[test]
fn negate_flips_every_diff() {
    let c = vec![
        (vec![Value::Eid(1)], 0u64, 1isize),
        (vec![Value::Eid(2)], 0u64, -3isize),
    ];
    assert_eq!(
        negate_tuples(&c),
        vec![
            (vec![Value::Eid(1)], 0, -1),
            (vec![Value::Eid(2)], 0, 3),
        ]
    );
}

#[test]
fn parse_eid_accepts_decimals_only() {
    assert_eq!(parse_eid("0"), Some(0));
    assert_eq!(parse_eid("123"), Some(123));
    assert_eq!(parse_eid("18446744073709551615"), Some(u64::MAX));
    assert_eq!(parse_eid("18446744073709551616"), None);
    assert_eq!(parse_eid(""), None);
    assert_eq!(parse_eid("12a"), None);
    assert_eq!(parse_eid("-1"), None);
}

#[test]
fn parse_number_handles_signs() {
    assert_eq!(parse_number("42"), Some(42));
    assert_eq!(parse_number("-42"), Some(-42));
    assert_eq!(parse_number("9223372036854775807"), Some(i64::MAX));
    assert_eq!(parse_number("9223372036854775808"), None);
    assert_eq!(parse_number("-9223372036854775808"), Some(i64::MIN));
    assert_eq!(parse_number("-9223372036854775809"), None);
    assert_eq!(parse_number("-"), None);
    assert_eq!(parse_number(""), None);
}

fn csv_source(schema: Vec<(usize, Value)>) -> CsvFile {
    CsvFile {
        path: "facts.csv".to_string(),
        has_headers: false,
        delimiter: b',',
        comment: None,
        flexible: false,
        schema,
    }
}

#[test]
fn decode_record_emits_one_update_per_schema_column() {
    let source = csv_source(vec![
        (1, Value::String(String::new())),
        (2, Value::Number(0)),
    ]);
    let record = vec!["7".to_string(), "alice".to_string(), "33".to_string()];
    let updates = source.decode_record(&record, 0).unwrap();
    assert_eq!(
        updates,
        vec![
            (
                0,
                (
                    (Value::Eid(7), Value::String("alice".to_string())),
                    0,
                    1
                )
            ),
            (1, ((Value::Eid(7), Value::Number(33)), 0, 1)),
        ]
    );
}

#[test]
fn decode_record_rejects_bad_input() {
    let source = csv_source(vec![(1, Value::Number(0))]);
    let bad_eid = vec!["x".to_string(), "1".to_string()];
    assert!(matches!(
        source.decode_record(&bad_eid, 0),
        Err(DecodeError::BadEid)
    ));
    let bad_number = vec!["7".to_string(), "abc".to_string()];
    assert!(matches!(
        source.decode_record(&bad_number, 0),
        Err(DecodeError::BadNumber(0))
    ));
    let short = vec!["7".to_string()];
    assert!(matches!(
        source.decode_record(&short, 0),
        Err(DecodeError::ShortRecord(0))
    ));
    let unsupported = csv_source(vec![(1, Value::Bool(true))]);
    let record = vec!["7".to_string(), "1".to_string()];
    assert!(matches!(
        unsupported.decode_record(&record, 0),
        Err(DecodeError::UnsupportedType(0))
    ));
}

#[test]
fn worker_partitioning_is_round_robin() {
    assert!(CsvFile::worker_owns(4, 2, 0));
    assert!(!CsvFile::worker_owns(5, 2, 0));
    assert!(CsvFile::worker_owns(5, 2, 1));
}

#[test]
fn uuid_strings_parse_or_are_refused() {
    let parsed = Value::uuid_str("936da01f-9abd-4d9d-80c7-02af85c822a8");
    match parsed {
        Some(Value::Uuid(_)) => {}
        _ => panic!("a well-formed UUID string must parse"),
    }
    assert!(Value::uuid_str("not-a-uuid").is_none());
    assert!(Value::aid("name") == Value::Aid("name".to_string()));
    assert!(Value::from_str("s") == Value::String("s".to_string()));
    assert_eq!(Value::Eid(9).as_eid(), Some(9));
    assert_eq!(Value::Bool(true).as_eid(), None);
}
