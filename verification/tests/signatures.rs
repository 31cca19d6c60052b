use ion_signatures::collect::Value;
use ion_signatures::collect::collect_all;
use ion_signatures::collect::collect_signatures;
use ion_signatures::registry::SignatureRegistry;
use ion_signatures::sig::TypeSignature;

fn field(name: &str, v: Value) -> (String, Value) {
    (name.to_string(), v)
}

fn registered_id(t: &TypeSignature) -> usize {
    match t {
        TypeSignature::Container(id) => *id,
        _ => panic!("shape was not registered"),
    }
}

#[test]
fn hash_consing_same_id_for_equal_shapes() {
    let mut reg = SignatureRegistry::new();
    let a = Value::Struct(vec![field("x", Value::Int), field("y", Value::Int)]);
    let b = Value::Struct(vec![field("x", Value::Int), field("y", Value::Int)]);
    let ta = collect_signatures(&a, &mut reg, 2, true);
    let tb = collect_signatures(&b, &mut reg, 2, true);
    assert_eq!(registered_id(&ta), registered_id(&tb));
    assert_eq!(reg.entries.len(), 1);
    assert_eq!(reg.entries[0].count, 2);
}

#[test]
fn field_order_is_not_significant() {
    let mut reg = SignatureRegistry::new();
    let a = Value::Struct(vec![field("b", Value::Int), field("a", Value::Text)]);
    let b = Value::Struct(vec![field("a", Value::Text), field("b", Value::Int)]);
    let ta = collect_signatures(&a, &mut reg, 2, true);
    let tb = collect_signatures(&b, &mut reg, 2, true);
    assert_eq!(registered_id(&ta), registered_id(&tb));
    assert_eq!(reg.entries.len(), 1);
    assert_eq!(
        reg.entries[0].signature.display(),
        "{ a: string, b: int }"
    );
}

#[test]
fn element_order_is_significant() {
    let mut reg = SignatureRegistry::new();
    let a = Value::List(vec![Value::Int, Value::Text]);
    let b = Value::List(vec![Value::Text, Value::Int]);
    let ta = collect_signatures(&a, &mut reg, 2, true);
    let tb = collect_signatures(&b, &mut reg, 2, true);
    assert_ne!(registered_id(&ta), registered_id(&tb));
    assert_eq!(reg.entries.len(), 2);
}

#[test]
fn threshold_boundary_one_field_stays_inline() {
    let mut reg = SignatureRegistry::new();
    let small = Value::Struct(vec![field("a", Value::Int)]);
    let t = collect_signatures(&small, &mut reg, 2, true);
    match t {
        TypeSignature::Verbatim(sig) => {
            assert_eq!(sig.display(), "{ a: int }");
        }
        _ => panic!("a one-field record must stay inline"),
    }
    assert_eq!(reg.entries.len(), 0);
}

#[test]
fn threshold_boundary_two_fields_register() {
    let mut reg = SignatureRegistry::new();
    let big = Value::Struct(vec![field("a", Value::Int), field("b", Value::Int)]);
    let t = collect_signatures(&big, &mut reg, 2, true);
    assert_eq!(registered_id(&t), 0);
    assert_eq!(reg.entries.len(), 1);
    assert_eq!(reg.entries[0].count, 1);
    assert!(reg.entries[0].appears_top_level);
}

#[test]
fn count_accuracy_over_identical_records() {
    let mut reg = SignatureRegistry::new();
    let values: Vec<Value> = (0..5)
        .map(|_| Value::Struct(vec![field("x", Value::Int), field("y", Value::Bool)]))
        .collect();
    collect_all(&values, &mut reg, 2);
    assert_eq!(reg.entries.len(), 1);
    assert!(reg.entries[0].live);
    assert_eq!(reg.entries[0].count, 5);
}

#[test]
fn inlining_folds_single_parent_shape() {
    let mut reg = SignatureRegistry::new();
    let inner = Value::Struct(vec![field("a", Value::Int), field("b", Value::Int)]);
    let outer = Value::Struct(vec![field("x", inner), field("y", Value::Int)]);
    collect_signatures(&outer, &mut reg, 2, true);
    assert_eq!(reg.entries.len(), 2);
    assert_eq!(reg.entries[0].parent_count, 1);
    assert!(!reg.entries[0].appears_top_level);
    assert_eq!(
        reg.entries[1].signature.display(),
        "{ x: (#0), y: int }"
    );
    reg.inline_single_parent_signatures();
    assert!(!reg.entries[0].live);
    assert!(reg.entries[1].live);
    assert_eq!(
        reg.entries[1].signature.display(),
        "{ x: { a: int, b: int }, y: int }"
    );
}

#[test]
fn inlining_keeps_shared_shapes() {
    let mut reg = SignatureRegistry::new();
    let values = vec![
        Value::Struct(vec![field(
            "x",
            Value::Struct(vec![field("a", Value::Int), field("b", Value::Int)]),
        )]),
        Value::Struct(vec![field(
            "y",
            Value::Struct(vec![field("a", Value::Int), field("b", Value::Int)]),
        )]),
    ];
    collect_all(&values, &mut reg, 2);
    // the inner shape is referenced by two distinct parents
    assert_eq!(reg.entries[0].parent_count, 2);
    reg.inline_single_parent_signatures();
    assert!(reg.entries[0].live);
    assert_eq!(reg.entries[0].count, 2);
}

#[test]
fn inlining_keeps_top_level_shapes() {
    let mut reg = SignatureRegistry::new();
    let values = vec![
        Value::Struct(vec![field("a", Value::Int), field("b", Value::Int)]),
        Value::Struct(vec![field(
            "x",
            Value::Struct(vec![field("a", Value::Int), field("b", Value::Int)]),
        ), field("y", Value::Int)]),
    ];
    collect_all(&values, &mut reg, 2);
    assert_eq!(reg.entries[0].parent_count, 1);
    assert!(reg.entries[0].appears_top_level);
    reg.inline_single_parent_signatures();
    assert!(reg.entries[0].live);
    assert!(reg.entries[1].live);
}

#[test]
fn end_to_end_three_records() {
    let mut reg = SignatureRegistry::new();
    let values = vec![
        Value::Struct(vec![field("x", Value::Int), field("y", Value::Int)]),
        Value::Struct(vec![field("x", Value::Int), field("y", Value::Int)]),
        Value::Struct(vec![field("x", Value::Int), field("y", Value::Text)]),
    ];
    collect_all(&values, &mut reg, 2);
    reg.inline_single_parent_signatures();
    let rows = reg.report();
    assert_eq!(rows.len(), 2);
    assert_eq!(rows[0].2, 2);
    assert_eq!(rows[0].1, "{ x: int, y: int }");
    assert_eq!(rows[1].2, 1);
    assert_eq!(rows[1].1, "{ x: int, y: string }");
}

#[test]
fn rendering_of_scalars_lists_and_sequences() {
    let mut reg = SignatureRegistry::new();
    let v = Value::SExp(vec![
        Value::Null,
        Value::Bool,
        Value::Float,
        Value::Decimal,
        Value::Timestamp,
        Value::Symbol,
        Value::Blob,
        Value::Clob,
    ]);
    let t = collect_signatures(&v, &mut reg, 2, true);
    let id = registered_id(&t);
    assert_eq!(
        reg.entries[id].signature.display(),
        "( null bool float decimal timestamp symbol blob clob )"
    );
    let l = Value::List(vec![Value::Int, Value::Text]);
    let tl = collect_signatures(&l, &mut reg, 2, false);
    let lid = registered_id(&tl);
    assert_eq!(reg.entries[lid].signature.display(), "[ int, string ]");
}

#[test]
fn references_render_with_their_identifier() {
    let mut reg = SignatureRegistry::new();
    let inner = Value::List(vec![Value::Int, Value::Int]);
    let values = vec![
        Value::List(vec![Value::Int, Value::Int]),
        Value::Struct(vec![field("v", inner), field("w", Value::Int)]),
    ];
    collect_all(&values, &mut reg, 2);
    assert_eq!(
        reg.entries[1].signature.display(),
        "{ v: (#0), w: int }"
    );
}

#[test]
fn small_shapes_never_register_under_large_threshold() {
    let mut reg = SignatureRegistry::new();
    let v = Value::List(vec![Value::Int, Value::Int, Value::Int]);
    let t = collect_signatures(&v, &mut reg, 4, true);
    match t {
        TypeSignature::Verbatim(sig) => assert_eq!(sig.display(), "[ int, int, int ]"),
        _ => panic!("a size-three list must stay inline under threshold four"),
    }
    assert_eq!(reg.entries.len(), 0);
}

#[test]
fn nested_shapes_weigh_more_than_their_arity() {
    let mut reg = SignatureRegistry::new();
    // the inner list has size 2, below the threshold, so it stays inline;
    // the outer one-field record weighs 1 + 2 = 3 and registers
    let v = Value::Struct(vec![field("l", Value::List(vec![Value::Int, Value::Int]))]);
    let t = collect_signatures(&v, &mut reg, 3, true);
    assert_eq!(registered_id(&t), 0);
    assert_eq!(reg.entries.len(), 1);
    assert_eq!(
        reg.entries[0].signature.display(),
        "{ l: [ int, int ] }"
    );
}

#[test]
fn empty_containers_render_inline() {
    let mut reg = SignatureRegistry::new();
    let t = collect_signatures(&Value::Struct(vec![]), &mut reg, 2, true);
    match t {
        TypeSignature::Verbatim(sig) => assert_eq!(sig.display(), "{  }"),
        _ => panic!("an empty record must stay inline"),
    }
    let t = collect_signatures(&Value::List(vec![]), &mut reg, 2, true);
    match t {
        TypeSignature::Verbatim(sig) => assert_eq!(sig.display(), "[  ]"),
        _ => panic!("an empty list must stay inline"),
    }
    assert_eq!(reg.entries.len(), 0);
}

#[test]
fn field_names_sort_lexicographically() {
    let mut reg = SignatureRegistry::new();
    let v = Value::Struct(vec![
        field("ab", Value::Int),
        field("aa", Value::Bool),
        field("a", Value::Text),
    ]);
    let t = collect_signatures(&v, &mut reg, 2, true);
    let id = registered_id(&t);
    assert_eq!(
        reg.entries[id].signature.display(),
        "{ a: string, aa: bool, ab: int }"
    );
}

#[test]
fn mixed_nesting_of_lists_and_sequences() {
    let mut reg = SignatureRegistry::new();
    let v = Value::List(vec![
        Value::SExp(vec![Value::Int, Value::Int]),
        Value::Symbol,
    ]);
    let t = collect_signatures(&v, &mut reg, 2, true);
    let id = registered_id(&t);
    assert_eq!(reg.entries[id].signature.display(), "[ (#0), symbol ]");
    assert_eq!(reg.entries[0].signature.display(), "( int int )");
    reg.inline_single_parent_signatures();
    assert_eq!(
        reg.entries[id].signature.display(),
        "[ ( int int ), symbol ]"
    );
}

#[test]
fn report_orders_rows_by_descending_count() {
    let mut reg = SignatureRegistry::new();
    let mut values = Vec::new();
    values.push(Value::List(vec![Value::Int, Value::Int]));
    for _ in 0..3 {
        values.push(Value::Struct(vec![
            field("x", Value::Int),
            field("y", Value::Int),
        ]));
    }
    collect_all(&values, &mut reg, 2);
    let rows = reg.report();
    assert_eq!(rows.len(), 2);
    assert_eq!(rows[0].0, 1);
    assert_eq!(rows[0].2, 3);
    assert_eq!(rows[1].0, 0);
    assert_eq!(rows[1].2, 1);
}
