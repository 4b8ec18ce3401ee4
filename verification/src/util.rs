use vstd::prelude::*;
use vstd::string::StringSliceAdditionalSpecFns;
use crate::num::num_text;
use crate::value::{Value, Val, obj_lookup, compare_bytes};
use crate::doc::{Section, SectionModel, RuneDocument, clone_bytes, clone_section};
use crate::ctx::{Context, ctx_model, pp_lit};

verus! {

broadcast use {
    vstd::std_specs::vec::axiom_vec_index_decreases,
    vstd::seq::axiom_seq_index_decreases,
};

/// How loud a running service reports: debugging detail up to errors only.
pub enum LogLevel {
    Debug,
    Info,
    Warn,
    Error,
}

/// The rank of a level: more severe levels rank higher.
pub fn log_level_to_usize(level: &LogLevel) -> (r: usize)
    ensures
        r == (match level {
            LogLevel::Debug => 0int,
            LogLevel::Info => 1int,
            LogLevel::Warn => 2int,
            LogLevel::Error => 3int,
        }),
{
    match level {
        LogLevel::Debug => 0,
        LogLevel::Info => 1,
        LogLevel::Warn => 2,
        LogLevel::Error => 3,
    }
}

/// The `name type` column clauses of a table definition, comma-joined.
pub open spec fn columns_text(cols: Seq<(Seq<u8>, Seq<u8>)>) -> Seq<u8>
    decreases cols.len(),
{
    if cols.len() == 0 {
        Seq::empty()
    } else if cols.len() == 1 {
        cols[0].0 + seq![32u8] + cols[0].1
    } else {
        columns_text(cols.drop_last()) + seq![44u8, 32u8] + (cols.last().0 + seq![32u8]
            + cols.last().1)
    }
}

/// Joins column names and types into one `name type, ...` clause list.
pub fn create_table_columns_string(columns: &Vec<(Vec<u8>, Vec<u8>)>) -> (r: Vec<u8>)
    ensures
        r@ == columns_text(crate::parse::env_models_of(columns@)),
{
    let ghost m = crate::parse::env_models_of(columns@);
    let mut out: Vec<u8> = Vec::new();
    let mut i: usize = 0;
    proof {
        assert(out@ =~= columns_text(m.take(0)));
    }
    #[verifier::loop_isolation(false)]
    while i < columns.len()
        invariant
            0 <= i <= columns@.len(),
            m.len() == columns@.len(),
            out@ == columns_text(m.take(i as int)),
        decreases columns@.len() - i,
    {
        let ghost pre = out@;
        if i > 0 {
            out.push(44);
            out.push(32);
        }
        let mut j: usize = 0;
        let ghost mid = out@;
        let name = &columns[i].0;
        #[verifier::loop_isolation(false)]
        while j < name.len()
            invariant
                0 <= j <= name@.len(),
                out@ == mid + name@.take(j as int),
            decreases name@.len() - j,
        {
            out.push(name[j]);
            proof {
                assert(name@.take(j + 1) =~= name@.take(j as int) + seq![name@[j as int]]);
            }
            j = j + 1;
        }
        out.push(32);
        let typ = &columns[i].1;
        let mut k: usize = 0;
        let ghost mid2 = out@;
        #[verifier::loop_isolation(false)]
        while k < typ.len()
            invariant
                0 <= k <= typ@.len(),
                out@ == mid2 + typ@.take(k as int),
            decreases typ@.len() - k,
        {
            out.push(typ[k]);
            proof {
                assert(typ@.take(k + 1) =~= typ@.take(k as int) + seq![typ@[k as int]]);
            }
            k = k + 1;
        }
        proof {
            assert(name@.take(name@.len() as int) =~= name@);
            assert(typ@.take(typ@.len() as int) =~= typ@);
            assert(m[i as int] == (columns@[i as int].0@, columns@[i as int].1@));
            assert(m.take(i + 1).drop_last() =~= m.take(i as int));
            assert(m.take(i + 1).last() == m[i as int]);
            if i == 0 {
                assert(out@ =~= columns_text(m.take(1)));
            } else {
                assert(out@ =~= pre + seq![44u8, 32u8] + (m[i as int].0 + seq![32u8]
                    + m[i as int].1));
            }
        }
        i = i + 1;
    }
    proof {
        assert(m.take(i as int) =~= m);
    }
    out
}

/// The text with every single quote doubled.
pub open spec fn sql_escape(s: Seq<u8>) -> Seq<u8>
    decreases s.len(),
{
    if s.len() == 0 {
        Seq::empty()
    } else if s[0] == 39 {
        seq![39u8, 39u8] + sql_escape(s.drop_first())
    } else {
        seq![s[0]] + sql_escape(s.drop_first())
    }
}

proof fn lemma_sql_escape_push(s: Seq<u8>, b: u8)
    ensures
        sql_escape(s.push(b)) == sql_escape(s) + (if b == 39 {
            seq![39u8, 39u8]
        } else {
            seq![b]
        }),
    decreases s.len(),
{
    let tail: Seq<u8> = if b == 39 {
        seq![39u8, 39u8]
    } else {
        seq![b]
    };
    if s.len() == 0 {
        assert(s.push(b)[0] == b);
        assert(s.push(b).drop_first() =~= Seq::<u8>::empty());
        assert(sql_escape(s) == Seq::<u8>::empty());
        assert(sql_escape(s.push(b).drop_first()) == Seq::<u8>::empty());
        assert(tail + Seq::<u8>::empty() =~= Seq::<u8>::empty() + tail);
    } else {
        lemma_sql_escape_push(s.drop_first(), b);
        assert(s.push(b).drop_first() =~= s.drop_first().push(b));
        if s[0] == 39 {
            assert(seq![39u8, 39u8] + (sql_escape(s.drop_first()) + tail) =~= (seq![39u8, 39u8]
                + sql_escape(s.drop_first())) + tail);
        } else {
            assert(seq![s[0]] + (sql_escape(s.drop_first()) + tail) =~= (seq![s[0]] + sql_escape(
                s.drop_first(),
            )) + tail);
        }
    }
}

/// A value rendered as an SQL literal: strings quoted with their quotes
/// doubled, numbers as exact decimals, booleans as words, anything else as
/// NULL.
pub open spec fn sql_value_text(v: Val) -> Seq<u8> {
    match v {
        Val::Str(s) => seq![39u8] + sql_escape(s) + seq![39u8],
        Val::Num { n, d } => if d >= 1 {
            num_text(n, d)
        } else {
            seq![48u8]
        },
        Val::Bool(b) => if b {
            crate::parse::true_lit()
        } else {
            crate::parse::false_lit()
        },
        _ => seq![78u8, 85u8, 76u8, 76u8],
    }
}

/// Renders a value as an SQL literal.
pub fn format_sql_value(v: &Value) -> (r: Vec<u8>)
    ensures
        r@ == sql_value_text(v.model()),
{
    match v {
        Value::Str(s) => {
            let mut out: Vec<u8> = Vec::new();
            out.push(39);
            let ghost base = out@;
            let mut i: usize = 0;
            proof {
                assert(sql_escape(s@.take(0)) =~= Seq::<u8>::empty());
                assert(out@ =~= base + sql_escape(s@.take(0)));
            }
            #[verifier::loop_isolation(false)]
            while i < s.len()
                invariant
                    0 <= i <= s@.len(),
                    out@ == base + sql_escape(s@.take(i as int)),
                decreases s@.len() - i,
            {
                let ghost pre = out@;
                let b = s[i];
                if b == 39 {
                    out.push(39);
                    out.push(39);
                } else {
                    out.push(b);
                }
                proof {
                    lemma_sql_escape_push(s@.take(i as int), s@[i as int]);
                    assert(s@.take(i + 1) =~= s@.take(i as int).push(s@[i as int]));
                    if s@[i as int] == 39 {
                        assert(out@ =~= pre + seq![39u8, 39u8]);
                        assert(pre + seq![39u8, 39u8] =~= base + sql_escape(s@.take(i + 1)));
                    } else {
                        assert(out@ =~= pre + seq![s@[i as int]]);
                        assert(pre + seq![s@[i as int]] =~= base + sql_escape(s@.take(i + 1)));
                    }
                }
                i = i + 1;
            }
            out.push(39);
            proof {
                assert(s@.take(i as int) =~= s@);
                assert(out@ =~= sql_value_text(v.model()));
            }
            out
        },
        Value::Num(x) => x.to_text_total(),
        Value::Bool(b) => {
            let mut out: Vec<u8> = Vec::new();
            if *b {
                out.push(116);
                out.push(114);
                out.push(117);
                out.push(101);
                proof {
                    assert(out@ =~= crate::parse::true_lit());
                }
            } else {
                out.push(102);
                out.push(97);
                out.push(108);
                out.push(115);
                out.push(101);
                proof {
                    assert(out@ =~= crate::parse::false_lit());
                }
            }
            out
        },
        _ => {
            let mut out: Vec<u8> = Vec::new();
            out.push(78);
            out.push(85);
            out.push(76);
            out.push(76);
            proof {
                assert(out@ =~= seq![78u8, 85u8, 76u8, 76u8]);
            }
            out
        },
    }
}

/// The request's record identifier: the `id` path parameter, else the `id`
/// field of the parsed body, else empty.
pub open spec fn id_of_ctx(ctxm: Seq<(Seq<u8>, Val)>) -> Seq<u8> {
    let via_pp: Option<Seq<u8>> = match obj_lookup(ctxm, pp_lit()) {
        Some(Val::Obj(m)) => match obj_lookup(m, id_lit()) {
            Some(Val::Str(s)) => Some(s),
            _ => None,
        },
        _ => None,
    };
    match via_pp {
        Some(s) => s,
        None => match obj_lookup(ctxm, "body".spec_bytes()) {
            Some(Val::Obj(m)) => match obj_lookup(m, id_lit()) {
                Some(Val::Str(s)) => s,
                _ => Seq::empty(),
            },
            _ => Seq::empty(),
        },
    }
}

/// The bytes of the key `id`.
pub open spec fn id_lit() -> Seq<u8> {
    seq![105u8, 100u8]
}

fn id_word() -> (r: Vec<u8>)
    ensures
        r@ == id_lit(),
{
    let mut v: Vec<u8> = Vec::new();
    v.push(105);
    v.push(100);
    proof {
        assert(v@ =~= id_lit());
    }
    v
}

/// Reads the request's record identifier out of the context.
pub fn get_id_from_ctx(ctx: &Context) -> (r: Vec<u8>)
    ensures
        r@ == id_of_ctx(ctx_model(ctx@)),
{
    let pk = crate::ctx::pp_word();
    let idk = id_word();
    match crate::value::obj_get(ctx, pk.as_slice()) {
        Some(Value::Obj(m)) => {
            match crate::value::obj_get(m, idk.as_slice()) {
                Some(Value::Str(s)) => {
                    return clone_bytes(s);
                },
                _ => {},
            }
        },
        _ => {},
    }
    let bk = crate::interp::lit("body");
    match crate::value::obj_get(ctx, bk.as_slice()) {
        Some(Value::Obj(m)) => {
            match crate::value::obj_get(m, idk.as_slice()) {
                Some(Value::Str(s)) => clone_bytes(s),
                _ => Vec::new(),
            }
        },
        _ => Vec::new(),
    }
}

/// The service kind named by the first `App` section's `type` key.
pub open spec fn app_type_of(doc: Seq<SectionModel>) -> Option<Seq<u8>>
    decreases doc.len(),
{
    if doc.len() == 0 {
        None
    } else if doc[0].path.len() > 0 && doc[0].path[0] == "App".spec_bytes() && (obj_lookup(
        doc[0].kv,
        "type".spec_bytes(),
    ) matches Some(w) && w is Str) {
        Some(obj_lookup(doc[0].kv, "type".spec_bytes())->Some_0->Str_0)
    } else {
        app_type_of(doc.drop_first())
    }
}

/// Reads the service kind out of the document.
pub fn get_app_type(doc: &RuneDocument) -> (r: Option<Vec<u8>>)
    ensures
        match r {
            Some(t) => app_type_of(doc.model()) == Some(t@),
            None => app_type_of(doc.model()) is None,
        },
{
    let ghost dm = doc.model();
    let tk = crate::interp::lit("type");
    let ak = crate::interp::lit("App");
    let mut i: usize = 0;
    proof {
        assert(dm.skip(0) =~= dm);
    }
    #[verifier::loop_isolation(false)]
    while i < doc.sections.len()
        invariant
            0 <= i <= doc.sections@.len(),
            dm.len() == doc.sections@.len(),
            app_type_of(dm) == app_type_of(dm.skip(i as int)),
        decreases doc.sections@.len() - i,
    {
        proof {
            assert(dm[i as int] == doc.sections@[i as int].model());
            assert(dm.skip(i as int)[0] == dm[i as int]);
            assert(dm.skip(i as int).drop_first() =~= dm.skip(i as int + 1));
        }
        let sec = &doc.sections[i];
        if sec.path.len() > 0 && compare_bytes(sec.path[0].as_slice(), ak.as_slice()) {
            proof {
                assert(sec.model().path[0] == sec.path@[0]@);
            }
            match crate::value::obj_get(&sec.kv, tk.as_slice()) {
                Some(Value::Str(t)) => {
                    return Some(clone_bytes(t));
                },
                Some(_) => {},
                None => {},
            }
        } else {
            proof {
                if sec.model().path.len() > 0 {
                    assert(sec.model().path[0] == sec.path@[0]@);
                }
            }
        }
        i = i + 1;
    }
    None
}

/// The sections filed under a one-word heading, each keyed by the second
/// path segment: the named tables of schemas, data sources and the like.
pub open spec fn named_under(doc: Seq<SectionModel>, head: Seq<u8>) -> Seq<(Seq<u8>, SectionModel)>
    decreases doc.len(),
{
    if doc.len() == 0 {
        Seq::empty()
    } else {
        let rest = named_under(doc.drop_first(), head);
        if doc[0].path.len() >= 2 && doc[0].path[0] == head {
            seq![(doc[0].path[1], doc[0])] + rest
        } else {
            rest
        }
    }
}

/// Collects the sections under a heading into a name-keyed table.
pub fn extract_named(doc: &RuneDocument, head: &[u8]) -> (r: Vec<(Vec<u8>, Section)>)
    ensures
        crate::interp::named_secs_model(r@) == named_under(doc.model(), head@),
{
    let ghost dm = doc.model();
    let mut out: Vec<(Vec<u8>, Section)> = Vec::new();
    let mut i: usize = doc.sections.len();
    proof {
        assert(dm.skip(doc.sections@.len() as int).len() == 0);
        assert(crate::interp::named_secs_model(out@) =~= named_under(
            dm.skip(doc.sections@.len() as int),
            head@,
        ));
    }
    #[verifier::loop_isolation(false)]
    while i > 0
        invariant
            0 <= i <= doc.sections@.len(),
            dm.len() == doc.sections@.len(),
            crate::interp::named_secs_model(out@) == named_under(dm.skip(i as int), head@),
        decreases i,
    {
        i = i - 1;
        proof {
            assert(dm[i as int] == doc.sections@[i as int].model());
            assert(dm.skip(i as int)[0] == dm[i as int]);
            assert(dm.skip(i as int).drop_first() =~= dm.skip(i as int + 1));
        }
        let sec = &doc.sections[i];
        if sec.path.len() >= 2 && compare_bytes(sec.path[0].as_slice(), head) {
            proof {
                assert(sec.model().path[0] == sec.path@[0]@);
                assert(sec.model().path[1] == sec.path@[1]@);
            }
            let ghost preout = crate::interp::named_secs_model(out@);
            let name = clone_bytes(&sec.path[1]);
            let c = clone_section(sec);
            out.insert(0, (name, c));
            proof {
                assert(crate::interp::named_secs_model(out@) =~~= seq![
                    (dm[i as int].path[1], dm[i as int]),
                ] + preout);
            }
        } else {
            proof {
                if sec.model().path.len() >= 2 {
                    assert(sec.model().path[0] == sec.path@[0]@);
                }
            }
        }
    }
    proof {
        assert(dm.skip(0) =~= dm);
    }
    out
}

/// The schema sections, keyed by name.
pub fn extract_schemas(doc: &RuneDocument) -> (r: Vec<(Vec<u8>, Section)>)
    ensures
        crate::interp::named_secs_model(r@) == named_under(doc.model(), "Schema".spec_bytes()),
{
    let h = crate::interp::lit("Schema");
    extract_named(doc, h.as_slice())
}

/// The data-source sections, keyed by name.
pub fn extract_data_sources(doc: &RuneDocument) -> (r: Vec<(Vec<u8>, Section)>)
    ensures
        crate::interp::named_secs_model(r@) == named_under(doc.model(), "DataSource".spec_bytes()),
{
    let h = crate::interp::lit("DataSource");
    extract_named(doc, h.as_slice())
}

/// The authentication sections, keyed by name.
pub fn extract_auth_configs(doc: &RuneDocument) -> (r: Vec<(Vec<u8>, Section)>)
    ensures
        crate::interp::named_secs_model(r@) == named_under(
            doc.model(),
            "Authentication".spec_bytes(),
        ),
{
    let h = crate::interp::lit("Authentication");
    extract_named(doc, h.as_slice())
}


/// What a `Memory` section seeds the store with: its records as a list of
/// objects, else its keys as one object, else its first series as a list,
/// else null.
pub open spec fn memory_seed(sec: SectionModel) -> Val {
    if sec.records.len() > 0 {
        Val::List(Seq::new(sec.records.len(), |i: int| Val::Obj(sec.records[i])))
    } else if sec.kv.len() > 0 {
        Val::Obj(sec.kv)
    } else if sec.series.len() > 0 {
        Val::List(sec.series[0].1)
    } else {
        Val::Null
    }
}

/// The store after seeding it from the document's `Memory` sections, in
/// document order, each keyed by its second path segment.
pub open spec fn seeded_store(
    doc: Seq<SectionModel>,
    i: int,
    store: Seq<(Seq<u8>, Val)>,
) -> Seq<(Seq<u8>, Val)>
    decreases doc.len() - i,
{
    if i < 0 || i >= doc.len() {
        store
    } else if doc[i].path.len() >= 2 && doc[i].path[0] == "Memory".spec_bytes() {
        seeded_store(
            doc,
            i + 1,
            crate::value::kv_insert_spec(store, doc[i].path[1], memory_seed(doc[i])),
        )
    } else {
        seeded_store(doc, i + 1, store)
    }
}

/// Seeds the memory store from the document's `Memory` sections.
pub fn initialize_memory_from_doc(doc: &RuneDocument, store: &mut crate::interp::MemoryStore)
    ensures
        crate::value::entry_models_of(final(store)@) == seeded_store(
            doc.model(),
            0,
            crate::value::entry_models_of(old(store)@),
        ),
{
    let ghost dm = doc.model();
    let mk = crate::interp::lit("Memory");
    let mut i: usize = 0;
    #[verifier::loop_isolation(false)]
    while i < doc.sections.len()
        invariant
            0 <= i <= doc.sections@.len(),
            dm.len() == doc.sections@.len(),
            seeded_store(dm, 0, crate::value::entry_models_of(old(store)@)) == seeded_store(
                dm,
                i as int,
                crate::value::entry_models_of(store@),
            ),
        decreases doc.sections@.len() - i,
    {
        proof {
            assert(dm[i as int] == doc.sections@[i as int].model());
        }
        let sec = &doc.sections[i];
        if sec.path.len() >= 2 && compare_bytes(sec.path[0].as_slice(), mk.as_slice()) {
            proof {
                assert(sec.model().path[0] == sec.path@[0]@);
                assert(sec.model().path[1] == sec.path@[1]@);
            }
            let value: Value = if sec.records.len() > 0 {
                let mut items: Vec<Value> = Vec::new();
                let mut j: usize = 0;
                #[verifier::loop_isolation(false)]
                while j < sec.records.len()
                    invariant
                        0 <= j <= sec.records@.len(),
                        items@.len() == j,
                        forall|k: int|
                            0 <= k < j ==> #[trigger] items@[k].model() == Val::Obj(
                                sec.records@[k].model(),
                            ),
                    decreases sec.records@.len() - j,
                {
                    let kv = crate::doc::clone_entries(&sec.records[j].kv);
                    items.push(Value::Obj(kv));
                    j = j + 1;
                }
                proof {
                    crate::value::lemma_models_of(items@);
                    assert(crate::value::models_of(items@) =~~= Seq::new(
                        sec.model().records.len(),
                        |k: int| Val::Obj(sec.model().records[k]),
                    ));
                }
                Value::List(items)
            } else if sec.kv.len() > 0 {
                Value::Obj(crate::doc::clone_entries(&sec.kv))
            } else if sec.series.len() > 0 {
                let mut items: Vec<Value> = Vec::new();
                let src = &sec.series[0].1;
                let mut j: usize = 0;
                #[verifier::loop_isolation(false)]
                while j < src.len()
                    invariant
                        0 <= j <= src@.len(),
                        items@.len() == j,
                        forall|k: int|
                            0 <= k < j ==> #[trigger] items@[k].model() == src@[k].model(),
                    decreases src@.len() - j,
                {
                    let c = crate::doc::clone_value(&src[j]);
                    items.push(c);
                    j = j + 1;
                }
                proof {
                    crate::value::lemma_models_of(items@);
                    crate::value::lemma_models_of(src@);
                    assert(crate::value::models_of(items@) =~= crate::value::models_of(src@));
                }
                Value::List(items)
            } else {
                Value::Null
            };
            let key = clone_bytes(&sec.path[1]);
            crate::value::kv_insert(store, key, value);
        } else {
            proof {
                if sec.model().path.len() >= 2 {
                    assert(sec.model().path[0] == sec.path@[0]@);
                }
            }
        }
        i = i + 1;
    }
}

} // verus!
