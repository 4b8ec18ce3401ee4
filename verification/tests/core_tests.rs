use rune_runtime::ctx::{eval_condition, loose_eq, resolve_path, Context};
use rune_runtime::doc::RuneDocument;
use rune_runtime::interp::{
    builtin_respond, builtin_set_memory, execute_steps, execute_steps_inner, get_memory,
    AppState, BuiltinResult, MemoryStore,
};
use rune_runtime::num::Number;
use rune_runtime::parse::{parse_rune, ParseError};
use rune_runtime::util::{
    create_table_columns_string, extract_schemas, format_sql_value, get_app_type,
    get_id_from_ctx, log_level_to_usize, LogLevel,
};
use rune_runtime::value::{obj_get, value_eq, Value};

fn bv(s: &str) -> Vec<u8> {
    s.as_bytes().to_vec()
}

fn no_env() -> Vec<(Vec<u8>, Vec<u8>)> {
    Vec::new()
}

fn parse_ok(text: &str) -> RuneDocument {
    parse_rune(text.as_bytes(), &no_env()).expect("document should parse")
}

fn empty_state() -> AppState {
    AppState {
        doc: RuneDocument { sections: Vec::new() },
        schemas: Vec::new(),
        data_sources: Vec::new(),
    }
}

fn kv_of<'a>(doc: &'a RuneDocument, sec: usize, key: &str) -> &'a Value {
    obj_get(&doc.sections[sec].kv, key.as_bytes()).expect("key should be present")
}

fn num(i: i64) -> Value {
    Value::Num(Number::from_int(i))
}

fn ratio(n: i64, d: i64) -> Value {
    Value::Num(Number::new(n, d).expect("well-formed ratio"))
}

#[test]
fn two_sections_with_coerced_values() {
    let doc = parse_ok("@A\nfoo = 1\n\n@B\nbar = \"x\"\n");
    assert_eq!(doc.sections.len(), 2);
    assert_eq!(doc.sections[0].path, vec![bv("A")]);
    assert_eq!(doc.sections[1].path, vec![bv("B")]);
    assert!(value_eq(kv_of(&doc, 0, "foo"), &num(1)));
    assert!(value_eq(kv_of(&doc, 1, "bar"), &Value::Str(bv("x"))));
}

#[test]
fn nested_series_builds_inner_list() {
    let doc = parse_ok("@S\nitems:\n  tags:\n    a\n    b\n");
    let sec = &doc.sections[0];
    assert_eq!(sec.series.len(), 1);
    assert_eq!(sec.series[0].0, bv("items"));
    let items = &sec.series[0].1;
    assert_eq!(items.len(), 1);
    let expected = Value::Obj(vec![(
        bv("tags"),
        Value::List(vec![Value::Str(bv("a")), Value::Str(bv("b"))]),
    )]);
    assert!(value_eq(&items[0], &expected));
}

#[test]
fn arithmetic_stores_exact_results() {
    let state = empty_state();
    let mut store: MemoryStore = Vec::new();
    let mut ctx: Context = vec![(bv("a"), num(2)), (bv("b"), num(3))];
    let steps = vec![
        Value::Str(bv("v = a + b")),
        Value::Str(bv("w = a - b")),
        Value::Str(bv("x = a * b")),
        Value::Str(bv("y = b / a")),
    ];
    let out = execute_steps_inner(&state, &steps, &mut ctx, &mut store);
    assert!(out.is_none());
    assert!(value_eq(obj_get(&ctx, b"v").unwrap(), &num(5)));
    assert!(value_eq(obj_get(&ctx, b"w").unwrap(), &num(-1)));
    assert!(value_eq(obj_get(&ctx, b"x").unwrap(), &num(6)));
    assert!(value_eq(obj_get(&ctx, b"y").unwrap(), &ratio(3, 2)));
    // the quotient is not an integer, while the sum is
    match obj_get(&ctx, b"y").unwrap() {
        Value::Num(n) => assert!(!n.is_int()),
        _ => panic!("quotient should be a number"),
    }
    match obj_get(&ctx, b"v").unwrap() {
        Value::Num(n) => assert!(n.is_int()),
        _ => panic!("sum should be a number"),
    }
}

fn people() -> Value {
    Value::List(vec![
        Value::Obj(vec![(bv("id"), num(1)), (bv("tag"), Value::Str(bv("a")))]),
        Value::Obj(vec![(bv("id"), num(2)), (bv("tag"), Value::Str(bv("b")))]),
        Value::Obj(vec![(bv("id"), num(2)), (bv("tag"), Value::Str(bv("c")))]),
    ])
}

#[test]
fn find_returns_first_match() {
    let state = empty_state();
    let mut store: MemoryStore = Vec::new();
    let mut ctx: Context = vec![(bv("arr"), people())];
    let steps = vec![Value::Str(bv("found = arr.find \"it.id == 2\""))];
    let out = execute_steps_inner(&state, &steps, &mut ctx, &mut store);
    assert!(out.is_none());
    let found = obj_get(&ctx, b"found").unwrap();
    let expected = Value::Obj(vec![(bv("id"), num(2)), (bv("tag"), Value::Str(bv("b")))]);
    assert!(value_eq(found, &expected));
}

#[test]
fn find_index_unmatched_is_minus_one() {
    let state = empty_state();
    let mut store: MemoryStore = Vec::new();
    let mut ctx: Context = vec![(bv("arr"), people())];
    let steps = vec![Value::Str(bv("idx = arr.find-index \"it.id == 9\""))];
    let out = execute_steps_inner(&state, &steps, &mut ctx, &mut store);
    assert!(out.is_none());
    assert!(value_eq(obj_get(&ctx, b"idx").unwrap(), &num(-1)));
}

#[test]
fn remove_keeps_the_second_element() {
    let state = empty_state();
    let mut store: MemoryStore = Vec::new();
    let first = Value::Str(bv("one"));
    let second = Value::Str(bv("two"));
    let mut ctx: Context =
        vec![(bv("arr"), Value::List(vec![first, Value::Str(bv("two"))]))];
    let steps = vec![Value::Str(bv("arr.remove 0"))];
    let out = execute_steps_inner(&state, &steps, &mut ctx, &mut store);
    assert!(out.is_none());
    match obj_get(&ctx, b"arr").unwrap() {
        Value::List(items) => {
            assert_eq!(items.len(), 1);
            assert!(value_eq(&items[0], &second));
        }
        _ => panic!("arr should stay a list"),
    }
}

#[test]
fn loose_equality_cross_type_rules() {
    assert!(loose_eq(&num(1), &Value::Str(bv("1"))));
    assert!(loose_eq(&Value::Bool(true), &Value::Str(bv("TRUE"))));
    assert!(loose_eq(&Value::Str(bv("01")), &Value::Str(bv("1"))));
    assert!(loose_eq(&num(1), &Value::Bool(true)));
    assert!(!loose_eq(&Value::Str(bv("abc")), &num(1)));
    assert!(loose_eq(&Value::Str(bv("1.50")), &Value::Str(bv("1.5"))));
    assert!(!loose_eq(&num(0), &Value::Bool(true)));
}

#[test]
fn conditional_short_circuits_when_true() {
    let state = empty_state();
    let mut store: MemoryStore = Vec::new();
    let mut ctx: Context = vec![(bv("flag"), num(1))];
    let steps = vec![
        Value::Obj(vec![(
            bv("if flag == 1"),
            Value::List(vec![Value::Str(bv("respond 404 \"x\""))]),
        )]),
        Value::Str(bv("respond 200 later")),
    ];
    let out = execute_steps_inner(&state, &steps, &mut ctx, &mut store);
    let (code, body) = out.expect("the nested respond should terminate the list");
    assert_eq!(code, 404);
    assert_eq!(body, bv("x"));
}

#[test]
fn conditional_skips_when_false() {
    let state = empty_state();
    let mut store: MemoryStore = Vec::new();
    let mut ctx: Context = vec![(bv("flag"), num(2))];
    let steps = vec![
        Value::Obj(vec![(
            bv("if flag == 1"),
            Value::List(vec![Value::Str(bv("respond 404 \"x\""))]),
        )]),
        Value::Str(bv("respond 200 later")),
    ];
    let out = execute_steps_inner(&state, &steps, &mut ctx, &mut store);
    let (code, body) = out.expect("the later respond should run");
    assert_eq!(code, 200);
    assert_eq!(body, bv("later"));
}

#[test]
fn respond_end_to_end() {
    let state = empty_state();
    let mut store: MemoryStore = Vec::new();
    let steps = vec![Value::Str(bv("respond 200 \"OK\""))];
    let (code, body) = execute_steps(&state, &steps, None, None, &mut store);
    assert_eq!(code, 200);
    assert_eq!(body, bv("OK"));
}

#[test]
fn validation_failure_short_circuits_creation() {
    let doc = parse_ok("@Schema/User\nname = string\n");
    let schemas = extract_schemas(&doc);
    let state = AppState { doc, schemas, data_sources: Vec::new() };
    let mut store: MemoryStore = Vec::new();
    let steps = vec![
        Value::Str(bv("parse-json")),
        Value::Str(bv("validate body #User")),
        Value::Str(bv("respond 201 \"created\"")),
    ];
    let (code, body) =
        execute_steps(&state, &steps, Some(bv("{\"nope\": 1}")), None, &mut store);
    assert_eq!(code, 400);
    assert_eq!(body, bv("Missing field `name`"));
}

#[test]
fn validate_type_mismatch() {
    let doc = parse_ok("@Schema/User\nage = number\n");
    let schemas = extract_schemas(&doc);
    let state = AppState { doc, schemas, data_sources: Vec::new() };
    let mut store: MemoryStore = Vec::new();
    let mut ctx: Context = vec![(
        bv("body"),
        Value::Obj(vec![(bv("age"), Value::Str(bv("old")))]),
    )];
    let steps = vec![Value::Str(bv("validate body #User"))];
    let out = execute_steps_inner(&state, &steps, &mut ctx, &mut store);
    let (code, body) = out.expect("the mismatch should respond");
    assert_eq!(code, 400);
    assert_eq!(body, bv("Field `age` type mismatch"));
}

#[test]
fn memory_round_trip() {
    let state = empty_state();
    let mut store: MemoryStore = Vec::new();
    let mut ctx: Context = vec![(bv("greeting"), Value::Str(bv("hello")))];
    let steps = vec![
        Value::Str(bv("set-memory greeting")),
        Value::Str(bv("copy = get-memory greeting")),
    ];
    let out = execute_steps_inner(&state, &steps, &mut ctx, &mut store);
    assert!(out.is_none());
    assert!(value_eq(
        get_memory(&store, b"greeting").unwrap(),
        &Value::Str(bv("hello"))
    ));
    assert!(value_eq(
        obj_get(&ctx, b"copy").unwrap(),
        &Value::Str(bv("hello"))
    ));
}

#[test]
fn builtin_respond_joins_plain_tokens() {
    let ctx: Context = Vec::new();
    match builtin_respond(&vec![bv("404"), bv("not"), bv("here")], &ctx) {
        BuiltinResult::Respond(code, msg) => {
            assert_eq!(code, 404);
            assert_eq!(msg, bv("not here"));
        }
        _ => panic!("respond should respond"),
    }
}

#[test]
fn builtin_set_memory_stores_bare_token() {
    let ctx: Context = Vec::new();
    let mut store: MemoryStore = Vec::new();
    match builtin_set_memory(&vec![bv("k"), bv("v")], &ctx, &mut store) {
        BuiltinResult::Okay => {}
        _ => panic!("set-memory should pass"),
    }
    assert!(value_eq(get_memory(&store, b"k").unwrap(), &Value::Str(bv("v"))));
}

#[test]
fn resolve_path_walks_nested_objects() {
    let ctx: Context = vec![(
        bv("user"),
        Value::Obj(vec![(
            bv("name"),
            Value::Obj(vec![(bv("first"), Value::Str(bv("Ada")))]),
        )]),
    )];
    let got = resolve_path(&ctx, b"user.name.first", None).unwrap();
    assert!(value_eq(&got, &Value::Str(bv("Ada"))));
    assert!(resolve_path(&ctx, b"user.name.last", None).is_none());
    assert!(value_eq(&resolve_path(&ctx, b"null", None).unwrap(), &Value::Null));
    assert!(value_eq(
        &resolve_path(&ctx, b"\"lit\"", None).unwrap(),
        &Value::Str(bv("lit"))
    ));
}

#[test]
fn eval_condition_inequality() {
    let ctx: Context = vec![(bv("id"), Value::Str(bv("5")))];
    assert!(eval_condition(&ctx, b"id == 5", None));
    assert!(!eval_condition(&ctx, b"id != 5", None));
    assert!(eval_condition(&ctx, b"id != 6", None));
    assert!(!eval_condition(&ctx, b"no operator here", None));
}

#[test]
fn parse_errors_cover_both_kinds() {
    match parse_rune(b"stray = 1\n", &no_env()) {
        Err(ParseError::NoSection(line)) => assert_eq!(line, bv("stray = 1")),
        _ => panic!("content before any header should fail"),
    }
    match parse_rune(b"@A\n!!!\n", &no_env()) {
        Err(ParseError::General(line)) => assert_eq!(line, bv("!!!")),
        _ => panic!("an unrecognized line should fail"),
    }
}

#[test]
fn parser_multiline_and_map_blocks() {
    let doc = parse_ok("@A\nnote>\n  first\n  second\n\nconf {\nhost = \"h\"\n}\n");
    let note = kv_of(&doc, 0, "note");
    assert!(value_eq(note, &Value::Str(bv("first\nsecond"))));
    let conf = kv_of(&doc, 0, "conf");
    let expected = Value::Obj(vec![(bv("host"), Value::Str(bv("h")))]);
    assert!(value_eq(conf, &expected));
}

#[test]
fn parser_records_and_lists() {
    let doc = parse_ok("@Skateboarder\nstances = (regular goofy)\n+ name = Tony\n  age = 53\n+ name = Leticia\n  age = 26\n");
    let sec = &doc.sections[0];
    assert_eq!(sec.records.len(), 2);
    assert!(value_eq(
        obj_get(&sec.records[0].kv, b"name").unwrap(),
        &Value::Str(bv("Tony"))
    ));
    assert!(value_eq(obj_get(&sec.records[1].kv, b"age").unwrap(), &num(26)));
    let stances = kv_of(&doc, 0, "stances");
    let expected = Value::List(vec![Value::Str(bv("regular")), Value::Str(bv("goofy"))]);
    assert!(value_eq(stances, &expected));
}

#[test]
fn parser_environment_substitution() {
    let env = vec![(bv("HOST"), bv("example"))];
    let doc = parse_rune(b"@A\nhost = $HOST$\nmissing = $NOPE$\n", &env).unwrap();
    assert!(value_eq(kv_of(&doc, 0, "host"), &Value::Str(bv("example"))));
    assert!(value_eq(kv_of(&doc, 0, "missing"), &Value::Str(bv(""))));
}

#[test]
fn document_lookup_is_loose() {
    let doc = parse_ok("@Route/GET/users\nfoo = 1\n@Route/POST/users\nbar = 2\n");
    assert!(doc.get_section(b"GET").is_some());
    assert!(doc.get_section(b"DELETE").is_none());
    let both = doc.get_sections(b"Route");
    assert_eq!(both, vec![0, 1]);
    assert_eq!(doc.get_sections(b"POST"), vec![1]);
}

#[test]
fn app_type_and_schema_tables() {
    let doc = parse_ok("@App\ntype = Rest\n@Schema/User\nname = string\n");
    assert_eq!(get_app_type(&doc).unwrap(), bv("Rest"));
    let schemas = extract_schemas(&doc);
    assert_eq!(schemas.len(), 1);
    assert_eq!(schemas[0].0, bv("User"));
}

#[test]
fn number_text_is_exact() {
    let half = Number::new(7, 2).unwrap();
    assert_eq!(half.to_text(), bv("3.5"));
    let whole = Number::from_int(-42);
    assert_eq!(whole.to_text(), bv("-42"));
    let tenth = Number::new(1, 8).unwrap();
    assert_eq!(tenth.to_text(), bv("0.125"));
}

#[test]
fn sql_and_table_helpers() {
    assert_eq!(format_sql_value(&Value::Str(bv("it's"))), bv("'it''s'"));
    assert_eq!(format_sql_value(&num(3)), bv("3"));
    assert_eq!(format_sql_value(&Value::Null), bv("NULL"));
    let cols = vec![(bv("id"), bv("INT")), (bv("name"), bv("TEXT"))];
    assert_eq!(create_table_columns_string(&cols), bv("id INT, name TEXT"));
}

#[test]
fn id_lookup_prefers_path_params() {
    let ctx: Context = vec![
        (
            bv("path.params"),
            Value::Obj(vec![(bv("id"), Value::Str(bv("7")))]),
        ),
        (
            bv("body"),
            Value::Obj(vec![(bv("id"), Value::Str(bv("9")))]),
        ),
    ];
    assert_eq!(get_id_from_ctx(&ctx), bv("7"));
}

#[test]
fn unknown_builtins_pass_quietly() {
    let state = empty_state();
    let mut store: MemoryStore = Vec::new();
    let steps = vec![
        Value::Str(bv("log this is fine")),
        Value::Str(bv("no-such-builtin at all")),
        Value::Str(bv("respond 200 done")),
    ];
    let (code, body) = execute_steps(&state, &steps, None, None, &mut store);
    assert_eq!(code, 200);
    assert_eq!(body, bv("done"));
}

#[test]
fn path_params_flow_into_conditions() {
    let state = empty_state();
    let mut store: MemoryStore = Vec::new();
    let steps = vec![
        Value::Obj(vec![(
            bv("if id == 5"),
            Value::List(vec![Value::Str(bv("respond 200 five"))]),
        )]),
        Value::Str(bv("respond 404 other")),
    ];
    let params = vec![(bv("id"), bv("5"))];
    let (code, body) = execute_steps(&state, &steps, None, Some(params), &mut store);
    assert_eq!(code, 200);
    assert_eq!(body, bv("five"));
}

#[test]
fn log_levels_rank_in_order() {
    assert_eq!(log_level_to_usize(&LogLevel::Debug), 0);
    assert_eq!(log_level_to_usize(&LogLevel::Info), 1);
    assert_eq!(log_level_to_usize(&LogLevel::Warn), 2);
    assert_eq!(log_level_to_usize(&LogLevel::Error), 3);
}

#[test]
fn value_accessors_view_each_variant() {
    let s = Value::Str(bv("txt"));
    assert_eq!(s.as_str().unwrap(), &bv("txt"));
    assert!(s.as_bool().is_none());
    let b = Value::Bool(true);
    assert_eq!(b.as_bool(), Some(true));
    let l = Value::List(vec![num(4), num(5)]);
    assert_eq!(l.as_list().unwrap().len(), 2);
    assert_eq!(ratio(7, 2).as_i64(), Some(3));
    assert_eq!(ratio(-7, 2).as_i64(), Some(-3));
    assert_eq!(ratio(-7, 2).as_u64(), Some(0));
    assert_eq!(num(9).as_u64(), Some(9));
    // a list viewed as a map is keyed by position
    let m = l.as_map().unwrap();
    assert_eq!(m[0].0, bv("0"));
    assert!(value_eq(&m[1].1, &num(5)));
    assert!(Value::Null.as_map().is_none());
}
