use rune_runtime::ctx::Context;
use rune_runtime::interp::execute_steps;
use rune_runtime::parse::parse_rune;
use rune_runtime::util::{extract_schemas, initialize_memory_from_doc};
use rune_runtime::interp::get_memory;
use rune_runtime::doc::RuneDocument;
use rune_runtime::interp::{execute_steps_inner, AppState, MemoryStore};
use rune_runtime::num::Number;
use rune_runtime::value::{obj_get, value_eq, Value};

fn bv(s: &str) -> Vec<u8> {
    s.as_bytes().to_vec()
}

fn num(i: i64) -> Value {
    Value::Num(Number::from_int(i))
}

fn empty_state() -> AppState {
    AppState {
        doc: RuneDocument { sections: Vec::new() },
        schemas: Vec::new(),
        data_sources: Vec::new(),
    }
}

#[test]
fn bound_target_shadows_the_left_operand() {
    // The left side of an arithmetic step goes through builtin dispatch with
    // the target as destination before plain lookup, so an already-bound
    // target shadows the named left operand.
    let state = empty_state();
    let mut store: MemoryStore = Vec::new();
    let mut ctx: Context = vec![(bv("v"), num(10)), (bv("a"), num(1)), (bv("b"), num(2))];
    let steps = vec![Value::Str(bv("v = a + b"))];
    let out = execute_steps_inner(&state, &steps, &mut ctx, &mut store);
    assert!(out.is_none());
    assert!(value_eq(obj_get(&ctx, b"v").unwrap(), &num(12)));
}

#[test]
fn method_call_feeds_arithmetic() {
    let state = empty_state();
    let mut store: MemoryStore = Vec::new();
    let arr = Value::List(vec![
        Value::Obj(vec![(bv("id"), num(1))]),
        Value::Obj(vec![(bv("id"), num(7))]),
        Value::Obj(vec![(bv("id"), num(4))]),
    ]);
    let mut ctx: Context = vec![(bv("arr"), arr)];
    let steps = vec![Value::Str(bv("next = arr.max it.id + 1"))];
    let out = execute_steps_inner(&state, &steps, &mut ctx, &mut store);
    assert!(out.is_none());
    assert!(value_eq(obj_get(&ctx, b"next").unwrap(), &num(8)));
}

#[test]
fn object_literal_assignment_narrows_numeric_strings() {
    let state = empty_state();
    let mut store: MemoryStore = Vec::new();
    let mut ctx: Context = vec![
        (bv("count"), Value::Str(bv("3"))),
        (
            bv("body"),
            Value::Obj(vec![(bv("name"), Value::Str(bv("Ada")))]),
        ),
    ];
    let steps = vec![Value::Str(bv("new_user = { id: count, name: body.name }"))];
    let out = execute_steps_inner(&state, &steps, &mut ctx, &mut store);
    assert!(out.is_none());
    let expected = Value::Obj(vec![
        (bv("id"), num(3)),
        (bv("name"), Value::Str(bv("Ada"))),
    ]);
    assert!(value_eq(obj_get(&ctx, b"new_user").unwrap(), &expected));
}

#[test]
fn element_assignment_replaces_in_place() {
    let state = empty_state();
    let mut store: MemoryStore = Vec::new();
    let mut ctx: Context = vec![
        (bv("arr"), Value::List(vec![num(1), num(2), num(3)])),
        (bv("i"), num(1)),
        (bv("x"), num(9)),
    ];
    let steps = vec![Value::Str(bv("arr[i] = x"))];
    let out = execute_steps_inner(&state, &steps, &mut ctx, &mut store);
    assert!(out.is_none());
    let expected = Value::List(vec![num(1), num(9), num(3)]);
    assert!(value_eq(obj_get(&ctx, b"arr").unwrap(), &expected));
}

#[test]
fn return_yields_json_text() {
    let state = empty_state();
    let mut store: MemoryStore = Vec::new();
    let mut ctx: Context = vec![(
        bv("data"),
        Value::List(vec![num(1), Value::Str(bv("a"))]),
    )];
    let steps = vec![Value::Str(bv("return data"))];
    let out = execute_steps_inner(&state, &steps, &mut ctx, &mut store);
    let (code, body) = out.expect("return should respond");
    assert_eq!(code, 200);
    assert_eq!(body, bv("[1,\"a\"]"));
}

#[test]
fn respond_serializes_context_objects() {
    let state = empty_state();
    let mut store: MemoryStore = Vec::new();
    let mut ctx: Context = vec![(
        bv("data"),
        Value::Obj(vec![(bv("ok"), Value::Bool(true))]),
    )];
    let steps = vec![Value::Str(bv("respond 200 data"))];
    let out = execute_steps_inner(&state, &steps, &mut ctx, &mut store);
    let (code, body) = out.expect("respond should respond");
    assert_eq!(code, 200);
    assert_eq!(body, bv("{\"ok\":true}"));
}

#[test]
fn valid_body_passes_validation() {
    let doc = parse_rune(b"@Schema/User\nname = string\n", &Vec::new()).unwrap();
    let schemas = extract_schemas(&doc);
    let state = AppState { doc, schemas, data_sources: Vec::new() };
    let mut store: MemoryStore = Vec::new();
    let steps = vec![
        Value::Str(bv("parse-json")),
        Value::Str(bv("validate body #User")),
        Value::Str(bv("respond 201 \"created\"")),
    ];
    let (code, body) = execute_steps(
        &state,
        &steps,
        Some(bv("{\"name\": \"Ada\"}")),
        None,
        &mut store,
    );
    assert_eq!(code, 201);
    assert_eq!(body, bv("created"));
}

#[test]
fn malformed_body_fails_parse_json() {
    let state = empty_state();
    let mut store: MemoryStore = Vec::new();
    let steps = vec![Value::Str(bv("parse-json"))];
    let (code, body) = execute_steps(&state, &steps, Some(bv("{oops")), None, &mut store);
    assert_eq!(code, 500);
    assert_eq!(body, bv("parse-json error"));
}

#[test]
fn parse_json_reads_nested_structures() {
    let state = empty_state();
    let mut store: MemoryStore = Vec::new();
    let mut ctx: Context = vec![(
        bv("raw"),
        Value::Str(bv(" [1, {\"k\": [true, null]}, \"s\\n\", -2.5] ")),
    )];
    let steps = vec![Value::Str(bv("data = parse-json raw"))];
    let out = execute_steps_inner(&state, &steps, &mut ctx, &mut store);
    assert!(out.is_none());
    let expected = Value::List(vec![
        num(1),
        Value::Obj(vec![(
            bv("k"),
            Value::List(vec![Value::Bool(true), Value::Null]),
        )]),
        Value::Str(bv("s\n")),
        Value::Num(Number::new(-25, 10).unwrap()),
    ]);
    assert!(value_eq(obj_get(&ctx, b"data").unwrap(), &expected));
}

#[test]
fn memory_sections_seed_the_store() {
    let doc = parse_rune(
        b"@Memory/users\n+ name = Alice\n@Memory/limits\nmax = 3\n",
        &Vec::new(),
    )
    .unwrap();
    let mut store: MemoryStore = Vec::new();
    initialize_memory_from_doc(&doc, &mut store);
    let users = get_memory(&store, b"users").unwrap();
    let expected_users = Value::List(vec![Value::Obj(vec![(
        bv("name"),
        Value::Str(bv("Alice")),
    )])]);
    assert!(value_eq(users, &expected_users));
    let limits = get_memory(&store, b"limits").unwrap();
    let expected_limits = Value::Obj(vec![(bv("max"), num(3))]);
    assert!(value_eq(limits, &expected_limits));
}

#[test]
fn parsed_route_runs_end_to_end() {
    let doc = parse_rune(
        b"@Route/GET/hello\nrun:\n  greeting = { msg: \"hi\" }\n  respond 200 greeting\n",
        &Vec::new(),
    )
    .unwrap();
    let idx = *doc.get_sections(b"hello").first().expect("route should be found");
    assert_eq!(doc.sections[idx].series[0].0, bv("run"));
    let schemas = extract_schemas(&doc);
    let state = AppState { doc, schemas, data_sources: Vec::new() };
    let run = &state.doc.sections[idx].series[0].1;
    let mut store: MemoryStore = Vec::new();
    let (code, body) = execute_steps(&state, run, None, None, &mut store);
    assert_eq!(code, 200);
    // a context object responds as its JSON text
    assert_eq!(body, bv("{\"msg\":\"hi\"}"));
}
