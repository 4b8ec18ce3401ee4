use vstd::prelude::*;
use crate::bytes::{is_ws, ws_byte, trim_spec, trim_start_spec, trim_end_spec, ws_tokens, trim, trim_start,
    trim_end, split_ws, split_lines, lines_spec, find_byte, leading_ws, copy_range};
use crate::num::{num_literal, parse_number};
use crate::value::{Value, Val, models_of, entry_models_of, lemma_models_of, lemma_entry_models_of,
    obj_lookup, kv_insert_spec, kv_insert, compare_bytes};
use crate::doc::{Record, Section, RuneDocument, SectionModel, record_models_of, series_models_of,
    section_models_of, clone_bytes};

verus! {

broadcast use {
    vstd::std_specs::vec::axiom_vec_index_decreases,
    vstd::std_specs::vec::axiom_vec_decreases_to_view,
    vstd::seq::axiom_seq_index_decreases,
};

/// A parse failure: content before any section header, or a line that
/// matches no recognized shape.  Both abort parsing of the whole document.
#[derive(Debug)]
pub enum ParseError {
    NoSection(Vec<u8>),
    General(Vec<u8>),
}

/// Index of the first occurrence of `c` in `s`, or the length of `s`.
pub open spec fn idx_of(s: Seq<u8>, c: u8) -> int
    decreases s.len(),
{
    if s.len() == 0 || s[0] == c {
        0
    } else {
        1 + idx_of(s.drop_first(), c)
    }
}

pub proof fn lemma_idx_of(s: Seq<u8>, c: u8)
    ensures
        0 <= idx_of(s, c) <= s.len(),
        forall|j: int| 0 <= j < idx_of(s, c) ==> s[j] != c,
        idx_of(s, c) < s.len() ==> s[idx_of(s, c)] == c,
    decreases s.len(),
{
    if s.len() > 0 && s[0] != c {
        lemma_idx_of(s.drop_first(), c);
        assert forall|j: int| 0 <= j < idx_of(s, c) implies s[j] != c by {
            if j > 0 {
                assert(s.drop_first()[j - 1] != c);
            }
        }
    }
}

pub proof fn lemma_idx_of_is(s: Seq<u8>, c: u8, i: int)
    requires
        0 <= i <= s.len(),
        forall|j: int| 0 <= j < i ==> s[j] != c,
        i == s.len() || s[i] == c,
    ensures
        idx_of(s, c) == i,
    decreases i,
{
    if i > 0 {
        lemma_idx_of_is(s.drop_first(), c, i - 1);
    }
}

/// `find_byte` as an index: the position of the first `c`, or the length.
pub fn idx_of_exec(s: &[u8], c: u8) -> (r: usize)
    ensures
        r == idx_of(s@, c),
{
    match find_byte(s, c) {
        Some(i) => {
            proof {
                lemma_idx_of_is(s@, c, i as int);
            }
            i
        },
        None => {
            proof {
                lemma_idx_of_is(s@, c, s@.len() as int);
            }
            s.len()
        },
    }
}

/// Whether `s` contains the byte `c`.
pub open spec fn has_byte(s: Seq<u8>, c: u8) -> bool {
    idx_of(s, c) < s.len()
}

/// The value of the first `name` entry of the environment, if any.
pub open spec fn env_lookup(env: Seq<(Seq<u8>, Seq<u8>)>, name: Seq<u8>) -> Option<Seq<u8>>
    decreases env.len(),
{
    if env.len() == 0 {
        None
    } else if env[0].0 == name {
        Some(env[0].1)
    } else {
        env_lookup(env.drop_first(), name)
    }
}

/// The models of the environment entries.
pub open spec fn env_models_of(env: Seq<(Vec<u8>, Vec<u8>)>) -> Seq<(Seq<u8>, Seq<u8>)> {
    Seq::new(env.len(), |i: int| (env[i].0@, env[i].1@))
}

proof fn lemma_env_models_of(env: Seq<(Vec<u8>, Vec<u8>)>)
    ensures
        env_models_of(env).len() == env.len(),
        forall|i: int|
            0 <= i < env.len() ==> #[trigger] env_models_of(env)[i] == (env[i].0@, env[i].1@),
{
}

/// Looks `name` up in the process environment handed to the parser.
pub fn env_get(env: &Vec<(Vec<u8>, Vec<u8>)>, name: &[u8]) -> (r: Option<Vec<u8>>)
    ensures
        match r {
            Some(v) => env_lookup(env_models_of(env@), name@) == Some(v@),
            None => env_lookup(env_models_of(env@), name@) is None,
        },
{
    let ghost m = env_models_of(env@);
    let mut i: usize = 0;
    proof {
        assert(m.skip(0) =~= m);
    }
    #[verifier::loop_isolation(false)]
    while i < env.len()
        invariant
            0 <= i <= env@.len(),
            m.len() == env@.len(),
            env_lookup(m, name@) == env_lookup(m.skip(i as int), name@),
        decreases env@.len() - i,
    {
        proof {
            lemma_env_models_of(env@);
            assert(m.skip(i as int)[0] == m[i as int]);
            assert(m.skip(i as int).drop_first() =~= m.skip(i as int + 1));
        }
        if compare_bytes(env[i].0.as_slice(), name) {
            return Some(clone_bytes(&env[i].1));
        }
        i = i + 1;
    }
    proof {
        assert(m.skip(i as int).len() == 0);
    }
    None
}

/// Whether the token is an environment reference `$NAME$`.
pub open spec fn is_env_ref(s: Seq<u8>) -> bool {
    s.len() > 2 && s[0] == 36 && s.last() == 36
}

/// The text an environment reference substitutes to: the variable's value,
/// or empty when it is unset.
pub open spec fn env_subst(env: Seq<(Seq<u8>, Seq<u8>)>, s: Seq<u8>) -> Seq<u8> {
    match env_lookup(env, s.subrange(1, s.len() - 1)) {
        Some(v) => v,
        None => Seq::empty(),
    }
}

fn env_ref(s: &[u8]) -> (r: bool)
    ensures
        r == is_env_ref(s@),
{
    s.len() > 2 && s[0] == 36 && s[s.len() - 1] == 36
}

/// Substitutes an environment reference token.
fn env_subst_exec(env: &Vec<(Vec<u8>, Vec<u8>)>, s: &[u8]) -> (r: Vec<u8>)
    requires
        is_env_ref(s@),
    ensures
        r@ == env_subst(env_models_of(env@), s@),
{
    let name = copy_range(s, 1, s.len() - 1);
    match env_get(env, name.as_slice()) {
        Some(v) => v,
        None => Vec::new(),
    }
}

/// The text with every leading and trailing double-quote byte removed.
pub open spec fn strip_quotes(s: Seq<u8>) -> Seq<u8>
    decreases s.len(),
{
    if s.len() > 0 && s[0] == 34 {
        strip_quotes(s.drop_first())
    } else if s.len() > 0 && s.last() == 34 {
        strip_quotes(s.drop_last())
    } else {
        s
    }
}

pub fn strip_quotes_exec(s: &[u8]) -> (r: Vec<u8>)
    ensures
        r@ == strip_quotes(s@),
{
    let mut a: usize = 0;
    let mut b: usize = s.len();
    proof {
        assert(s@.subrange(0, s@.len() as int) =~= s@);
    }
    #[verifier::loop_isolation(false)]
    while a < b && (s[a] == 34 || s[b - 1] == 34)
        invariant
            0 <= a <= b <= s@.len(),
            strip_quotes(s@) == strip_quotes(s@.subrange(a as int, b as int)),
        decreases b - a,
    {
        let ghost cur = s@.subrange(a as int, b as int);
        if s[a] == 34 {
            proof {
                assert(cur.drop_first() =~= s@.subrange(a + 1, b as int));
            }
            a = a + 1;
        } else {
            proof {
                assert(cur.drop_last() =~= s@.subrange(a as int, b - 1));
            }
            b = b - 1;
        }
    }
    let r = copy_range(s, a, b);
    proof {
        assert(strip_quotes(s@.subrange(a as int, b as int)) == s@.subrange(a as int, b as int));
    }
    r
}

/// The value a `key = value` literal denotes, after environment substitution:
/// a parenthesised whitespace-split list of strings, a boolean, an exact
/// number, an environment reference, or a quote-stripped string.
pub open spec fn literal_value(env: Seq<(Seq<u8>, Seq<u8>)>, s: Seq<u8>) -> Val {
    if s.len() >= 2 && s[0] == 40 && s.last() == 41 {
        let inner = s.subrange(1, s.len() - 1);
        Val::List(Seq::new(ws_tokens(inner).len(), |i: int| token_value(env, ws_tokens(inner)[i])))
    } else if s == true_lit() {
        Val::Bool(true)
    } else if s == false_lit() {
        Val::Bool(false)
    } else {
        match num_literal(s) {
            Some(nd) => Val::Num { n: nd.0, d: nd.1 },
            None => if is_env_ref(s) {
                Val::Str(env_subst(env, s))
            } else {
                Val::Str(strip_quotes(s))
            },
        }
    }
}

/// The bytes of the word `true`.
pub open spec fn true_lit() -> Seq<u8> {
    seq![116u8, 114u8, 117u8, 101u8]
}

/// The bytes of the word `false`.
pub open spec fn false_lit() -> Seq<u8> {
    seq![102u8, 97u8, 108u8, 115u8, 101u8]
}

/// A token of a parenthesised list: an environment reference or the bare text.
pub open spec fn token_value(env: Seq<(Seq<u8>, Seq<u8>)>, t: Seq<u8>) -> Val {
    if is_env_ref(t) {
        Val::Str(env_subst(env, t))
    } else {
        Val::Str(t)
    }
}

pub fn is_true_word(s: &[u8]) -> (r: bool)
    ensures
        r == (s@ == true_lit()),
{
    let r = s.len() == 4 && s[0] == 116 && s[1] == 114 && s[2] == 117 && s[3] == 101;
    proof {
        if r {
            assert(s@ =~= true_lit());
        }
    }
    r
}

pub fn is_false_word(s: &[u8]) -> (r: bool)
    ensures
        r == (s@ == false_lit()),
{
    let r = s.len() == 5 && s[0] == 102 && s[1] == 97 && s[2] == 108 && s[3] == 115 && s[4] == 101;
    proof {
        if r {
            assert(s@ =~= false_lit());
        }
    }
    r
}

/// Reads a `key = value` literal.
pub fn literal_value_exec(env: &Vec<(Vec<u8>, Vec<u8>)>, s: &[u8]) -> (r: Value)
    ensures
        r.model() == literal_value(env_models_of(env@), s@),
{
    let ghost envm = env_models_of(env@);
    if s.len() >= 2 && s[0] == 40 && s[s.len() - 1] == 41 {
        let inner = copy_range(s, 1, s.len() - 1);
        let toks = split_ws(inner.as_slice());
        let ghost tm = ws_tokens(s@.subrange(1, s@.len() - 1));
        let mut items: Vec<Value> = Vec::new();
        let mut i: usize = 0;
        #[verifier::loop_isolation(false)]
        while i < toks.len()
            invariant
                0 <= i <= toks@.len(),
                toks@.len() == tm.len(),
                items@.len() == i,
                forall|j: int|
                    0 <= j < i ==> #[trigger] items@[j].model() == token_value(envm, tm[j]),
            decreases toks@.len() - i,
        {
            let t = &toks[i];
            proof {
                assert(toks.deep_view()[i as int] == toks@[i as int].deep_view());
                assert(toks@[i as int].deep_view() =~= t@);
                assert(t@ == tm[i as int]);
            }
            if env_ref(t.as_slice()) {
                let v = env_subst_exec(env, t.as_slice());
                items.push(Value::Str(v));
            } else {
                items.push(Value::Str(clone_bytes(t)));
            }
            i = i + 1;
        }
        proof {
            lemma_models_of(items@);
            assert(models_of(items@) =~= Seq::new(tm.len(), |i: int| token_value(envm, tm[i])));
        }
        return Value::List(items);
    }
    if is_true_word(s) {
        return Value::Bool(true);
    }
    if is_false_word(s) {
        return Value::Bool(false);
    }
    match parse_number(s) {
        Some(n) => {
            return Value::Num(n);
        },
        None => {},
    }
    if env_ref(s) {
        let v = env_subst_exec(env, s);
        return Value::Str(v);
    }
    Value::Str(strip_quotes_exec(s))
}


/// The models of a section path.
pub open spec fn path_models(s: Seq<Vec<u8>>) -> Seq<Seq<u8>> {
    s.map_values(|p: Vec<u8>| p@)
}

/// Index of the first entry with key `k`, scanning keyed entries.
fn obj_entry_idx(es: &Vec<(Vec<u8>, Value)>, key: &[u8]) -> (r: Option<usize>)
    ensures
        match r {
            Some(i) => 0 <= i < es@.len() && es@[i as int].0@ == key@ && forall|j: int|
                0 <= j < i ==> es@[j].0@ != key@,
            None => forall|j: int| 0 <= j < es@.len() ==> es@[j].0@ != key@,
        },
{
    let mut i: usize = 0;
    #[verifier::loop_isolation(false)]
    while i < es.len()
        invariant
            0 <= i <= es@.len(),
            forall|j: int| 0 <= j < i ==> es@[j].0@ != key@,
        decreases es@.len() - i,
    {
        if compare_bytes(es[i].0.as_slice(), key) {
            return Some(i);
        }
        i = i + 1;
    }
    None
}

/// `obj_lookup` finds the first entry: locating it by index and looking it up
/// agree.
proof fn lemma_obj_lookup_at(m: Seq<(Seq<u8>, Val)>, k: Seq<u8>, i: int)
    requires
        0 <= i < m.len(),
        m[i].0 == k,
        forall|j: int| 0 <= j < i ==> m[j].0 != k,
    ensures
        obj_lookup(m, k) == Some(m[i].1),
    decreases i,
{
    if i > 0 {
        lemma_obj_lookup_at(m.drop_first(), k, i - 1);
    }
}

proof fn lemma_obj_lookup_none(m: Seq<(Seq<u8>, Val)>, k: Seq<u8>)
    requires
        forall|j: int| 0 <= j < m.len() ==> m[j].0 != k,
    ensures
        obj_lookup(m, k) is None,
    decreases m.len(),
{
    if m.len() > 0 {
        lemma_obj_lookup_none(m.drop_first(), k);
    }
}

/// Replacing the first entry keyed `k` in place is the same as `kv_insert_spec`.
proof fn lemma_kv_insert_at(m: Seq<(Seq<u8>, Val)>, k: Seq<u8>, v: Val, i: int)
    requires
        0 <= i < m.len(),
        m[i].0 == k,
        forall|j: int| 0 <= j < i ==> m[j].0 != k,
    ensures
        kv_insert_spec(m, k, v) == m.update(i, (k, v)),
    decreases i,
{
    if i == 0 {
        assert(kv_insert_spec(m, k, v) =~= m.update(0, (k, v)));
    } else {
        lemma_kv_insert_at(m.drop_first(), k, v, i - 1);
        assert(kv_insert_spec(m, k, v) =~= m.update(i, (k, v)));
    }
}

/// Appends `v` to the list addressed by `keys` below `list`: each key steps
/// from a list into the named inner list of its last element, a step that
/// fails quietly (the key is simply dropped) when the last element is not an
/// object carrying that key as a list.
pub open spec fn walk_app(list: Seq<Val>, keys: Seq<Seq<u8>>, v: Val) -> Seq<Val>
    decreases keys.len(),
{
    if keys.len() == 0 {
        list.push(v)
    } else if list.len() > 0 && list.last() is Obj && obj_lookup(list.last()->Obj_0, keys[0])
        is Some && obj_lookup(list.last()->Obj_0, keys[0])->Some_0 is List {
        let es = list.last()->Obj_0;
        let inner = obj_lookup(es, keys[0])->Some_0->List_0;
        list.update(
            list.len() - 1,
            Val::Obj(kv_insert_spec(es, keys[0], Val::List(walk_app(inner, keys.drop_first(), v)))),
        )
    } else {
        walk_app(list, keys.drop_first(), v)
    }
}

/// Opens a new named series below `list`: walks `keys` as `walk_app` does but
/// synthesizes any missing structure, then appends an object holding the new
/// key over an empty list.
pub open spec fn walk_open(list: Seq<Val>, keys: Seq<Seq<u8>>, newkey: Seq<u8>) -> Seq<Val>
    decreases keys.len(),
{
    if keys.len() == 0 {
        list.push(Val::Obj(seq![(newkey, Val::List(Seq::empty()))]))
    } else if list.len() > 0 && list.last() is Obj && obj_lookup(list.last()->Obj_0, keys[0])
        is Some && obj_lookup(list.last()->Obj_0, keys[0])->Some_0 is List {
        let es = list.last()->Obj_0;
        let inner = obj_lookup(es, keys[0])->Some_0->List_0;
        list.update(
            list.len() - 1,
            Val::Obj(
                kv_insert_spec(es, keys[0], Val::List(walk_open(inner, keys.drop_first(), newkey))),
            ),
        )
    } else {
        list.push(
            Val::Obj(seq![(keys[0], Val::List(walk_open(Seq::empty(), keys.drop_first(), newkey)))]),
        )
    }
}

/// Appends `v` at the location `keys` addresses.
pub fn walk_app_exec(list: &mut Vec<Value>, keys: &Vec<Vec<u8>>, ki: usize, v: Value)
    requires
        ki <= keys@.len(),
    ensures
        models_of(final(list)@) == walk_app(
            models_of(old(list)@),
            path_models(keys@).skip(ki as int),
            v.model(),
        ),
    decreases keys@.len() - ki,
{
    let ghost m = models_of(list@);
    let ghost ks = path_models(keys@).skip(ki as int);
    proof {
        lemma_models_of(list@);
    }
    if ki == keys.len() {
        let ghost pre = list@;
        list.push(v);
        proof {
            lemma_models_of(list@);
            assert(models_of(list@) =~= m.push(v.model()));
        }
        return ;
    }
    proof {
        assert(ks[0] == keys@[ki as int]@);
        assert(ks.drop_first() =~= path_models(keys@).skip(ki as int + 1));
    }
    let n = list.len();
    if n == 0 {
        walk_app_exec(list, keys, ki + 1, v);
        return ;
    }
    let last = match list.pop() {
        Some(x) => x,
        None => {
            proof {
                assert(false);
            }
            Value::Null
        },
    };
    proof {
        assert(list@ =~= old(list)@.take(n - 1));
        lemma_models_of(old(list)@);
        lemma_models_of(list@);
        assert(models_of(list@) =~= m.take(n - 1));
        assert(last.model() == m.last());
    }
    match last {
        Value::Obj(mut es) => {
            let found = obj_entry_idx(&es, keys[ki].as_slice());
            match found {
                Some(i) => {
                    proof {
                        lemma_entry_models_of(es@);
                        lemma_obj_lookup_at(entry_models_of(es@), ks[0], i as int);
                    }
                    let is_list = match &es[i].1 {
                        Value::List(_) => true,
                        _ => false,
                    };
                    if is_list {
                        let ghost esm = entry_models_of(es@);
                        let (k0, v0) = es.remove(i);
                        match v0 {
                            Value::List(mut inner) => {
                                let ghost innerm = models_of(inner@);
                                walk_app_exec(&mut inner, keys, ki + 1, v);
                                es.insert(i, (k0, Value::List(inner)));
                                list.push(Value::Obj(es));
                                proof {
                                    lemma_entry_models_of(es@);
                                    lemma_kv_insert_at(
                                        esm,
                                        ks[0],
                                        Val::List(walk_app(innerm, ks.drop_first(), v.model())),
                                        i as int,
                                    );
                                    assert(entry_models_of(es@) =~~= kv_insert_spec(
                                        esm,
                                        ks[0],
                                        Val::List(walk_app(innerm, ks.drop_first(), v.model())),
                                    ));
                                    lemma_models_of(list@);
                                    assert(models_of(list@) =~~= walk_app(m, ks, v.model()));
                                }
                            },
                            other => {
                                proof {
                                    assert(false);
                                }
                            },
                        }
                    } else {
                        list.push(Value::Obj(es));
                        proof {
                            lemma_models_of(list@);
                            assert(models_of(list@) =~~= m);
                        }
                        walk_app_exec(list, keys, ki + 1, v);
                    }
                },
                None => {
                    proof {
                        lemma_entry_models_of(es@);
                        lemma_obj_lookup_none(entry_models_of(es@), ks[0]);
                    }
                    list.push(Value::Obj(es));
                    proof {
                        lemma_models_of(list@);
                        assert(models_of(list@) =~~= m);
                    }
                    walk_app_exec(list, keys, ki + 1, v);
                },
            }
        },
        other => {
            list.push(other);
            proof {
                lemma_models_of(list@);
                assert(models_of(list@) =~~= m);
            }
            walk_app_exec(list, keys, ki + 1, v);
        },
    }
}

/// Opens a new nested series at the location `keys` addresses, synthesizing
/// missing structure.
pub fn walk_open_exec(list: &mut Vec<Value>, keys: &Vec<Vec<u8>>, ki: usize, newkey: &Vec<u8>)
    requires
        ki <= keys@.len(),
    ensures
        models_of(final(list)@) == walk_open(
            models_of(old(list)@),
            path_models(keys@).skip(ki as int),
            newkey@,
        ),
    decreases keys@.len() - ki,
{
    let ghost m = models_of(list@);
    let ghost ks = path_models(keys@).skip(ki as int);
    proof {
        lemma_models_of(list@);
    }
    if ki == keys.len() {
        let mut es0: Vec<(Vec<u8>, Value)> = Vec::new();
        es0.push((clone_bytes(newkey), Value::List(Vec::new())));
        list.push(Value::Obj(es0));
        proof {
            lemma_models_of(list@);
            lemma_entry_models_of(es0@);
            assert(entry_models_of(es0@) =~~= seq![
                (newkey@, Val::List(Seq::<Val>::empty())),
            ]);
            assert(models_of(list@) =~~= m.push(
                Val::Obj(seq![(newkey@, Val::List(Seq::<Val>::empty()))]),
            ));
        }
        return ;
    }
    proof {
        assert(ks[0] == keys@[ki as int]@);
        assert(ks.drop_first() =~= path_models(keys@).skip(ki as int + 1));
    }
    let n = list.len();
    let mut descend = false;
    if n > 0 {
        let last = match list.pop() {
            Some(x) => x,
            None => {
                proof {
                    assert(false);
                }
                Value::Null
            },
        };
        proof {
            assert(list@ =~= old(list)@.take(n - 1));
            lemma_models_of(old(list)@);
            lemma_models_of(list@);
            assert(models_of(list@) =~= m.take(n - 1));
            assert(last.model() == m.last());
        }
        match last {
            Value::Obj(mut es) => {
                let found = obj_entry_idx(&es, keys[ki].as_slice());
                match found {
                    Some(i) => {
                        proof {
                            lemma_entry_models_of(es@);
                            lemma_obj_lookup_at(entry_models_of(es@), ks[0], i as int);
                        }
                        let is_list = match &es[i].1 {
                            Value::List(_) => true,
                            _ => false,
                        };
                        if is_list {
                            let ghost esm = entry_models_of(es@);
                            let (k0, v0) = es.remove(i);
                            match v0 {
                                Value::List(mut inner) => {
                                    let ghost innerm = models_of(inner@);
                                    walk_open_exec(&mut inner, keys, ki + 1, newkey);
                                    es.insert(i, (k0, Value::List(inner)));
                                    list.push(Value::Obj(es));
                                    proof {
                                        lemma_entry_models_of(es@);
                                        lemma_kv_insert_at(
                                            esm,
                                            ks[0],
                                            Val::List(walk_open(innerm, ks.drop_first(), newkey@)),
                                            i as int,
                                        );
                                        assert(entry_models_of(es@) =~~= kv_insert_spec(
                                            esm,
                                            ks[0],
                                            Val::List(walk_open(innerm, ks.drop_first(), newkey@)),
                                        ));
                                        lemma_models_of(list@);
                                        assert(models_of(list@) =~~= walk_open(m, ks, newkey@));
                                    }
                                    return ;
                                },
                                other => {
                                    proof {
                                        assert(false);
                                    }
                                },
                            }
                        } else {
                            list.push(Value::Obj(es));
                            proof {
                                lemma_models_of(list@);
                                assert(models_of(list@) =~~= m);
                            }
                        }
                    },
                    None => {
                        proof {
                            lemma_entry_models_of(es@);
                            lemma_obj_lookup_none(entry_models_of(es@), ks[0]);
                        }
                        list.push(Value::Obj(es));
                        proof {
                            lemma_models_of(list@);
                            assert(models_of(list@) =~~= m);
                        }
                    },
                }
            },
            other => {
                list.push(other);
                proof {
                    lemma_models_of(list@);
                    assert(models_of(list@) =~~= m);
                }
            },
        }
    }
    let mut inner: Vec<Value> = Vec::new();
    walk_open_exec(&mut inner, keys, ki + 1, newkey);
    let mut es0: Vec<(Vec<u8>, Value)> = Vec::new();
    es0.push((clone_bytes(&keys[ki]), Value::List(inner)));
    list.push(Value::Obj(es0));
    proof {
        lemma_models_of(list@);
        lemma_entry_models_of(es0@);
        assert(entry_models_of(es0@) =~~= seq![
            (ks[0], Val::List(walk_open(Seq::<Val>::empty(), ks.drop_first(), newkey@))),
        ]);
        assert(models_of(list@) =~~= walk_open(m, ks, newkey@));
    }
}


/// The parser's working state: finished sections, the open section (if any),
/// its pending records, the nested-series scope stack, and an open multi-line
/// block.
pub ghost struct PModel {
    pub sections: Seq<SectionModel>,
    pub cur: Option<SectionModel>,
    pub records: Seq<Seq<(Seq<u8>, Val)>>,
    pub stack: Seq<(int, Seq<Seq<u8>>)>,
    pub ml_key: Option<Seq<u8>>,
    pub ml_buf: Seq<Seq<u8>>,
}

/// The model of a parse failure.
pub ghost enum PErr {
    NoSection(Seq<u8>),
    General(Seq<u8>),
}

impl ParseError {
    pub open spec fn model(self) -> PErr {
        match self {
            ParseError::NoSection(l) => PErr::NoSection(l@),
            ParseError::General(l) => PErr::General(l@),
        }
    }
}

/// The initial parser state.
pub open spec fn init_pm() -> PModel {
    PModel {
        sections: Seq::empty(),
        cur: None,
        records: Seq::empty(),
        stack: Seq::empty(),
        ml_key: None,
        ml_buf: Seq::empty(),
    }
}

/// The buffered lines of a multi-line block, joined by newlines.
pub open spec fn join_nl(bufs: Seq<Seq<u8>>) -> Seq<u8>
    decreases bufs.len(),
{
    if bufs.len() == 0 {
        Seq::empty()
    } else if bufs.len() == 1 {
        bufs[0]
    } else {
        bufs[0] + seq![10u8] + join_nl(bufs.drop_first())
    }
}

/// The bytes of the key `statement`.
pub open spec fn stmt_lit() -> Seq<u8> {
    seq![115u8, 116u8, 97u8, 116u8, 101u8, 109u8, 101u8, 110u8, 116u8]
}

/// A section path: the header text split on `/`, each segment trimmed.
pub open spec fn split_slash_trim(s: Seq<u8>) -> Seq<Seq<u8>>
    decreases s.len(),
    via split_slash_trim_dec
{
    let i = idx_of(s, 47);
    if i >= s.len() {
        seq![trim_spec(s)]
    } else {
        seq![trim_spec(s.take(i))] + split_slash_trim(s.skip(i + 1))
    }
}

#[via_fn]
proof fn split_slash_trim_dec(s: Seq<u8>) {
    lemma_idx_of(s, 47);
}

/// Closes any open multi-line block: the buffered lines are committed under
/// the pending key into the open section.
pub open spec fn flush_ml(st: PModel) -> PModel {
    match st.ml_key {
        Some(k) => {
            let cur2 = match st.cur {
                Some(sec) => Some(
                    SectionModel {
                        kv: kv_insert_spec(sec.kv, k, Val::Str(join_nl(st.ml_buf))),
                        ..sec
                    },
                ),
                None => None,
            };
            PModel { cur: cur2, ml_key: None, ml_buf: Seq::empty(), ..st }
        },
        None => st,
    }
}

/// The open section with its pending records attached.
pub open spec fn attach_records(sec: SectionModel, records: Seq<Seq<(Seq<u8>, Val)>>) -> SectionModel {
    SectionModel { records: records, ..sec }
}

/// Closes the open section (if any) and opens a new one for the header line.
pub open spec fn open_section(st: PModel, line: Seq<u8>) -> PModel {
    let sections2 = match st.cur {
        Some(sec) => st.sections.push(attach_records(sec, st.records)),
        None => st.sections,
    };
    PModel {
        sections: sections2,
        cur: Some(
            SectionModel {
                path: split_slash_trim(line.skip(1)),
                kv: Seq::empty(),
                series: Seq::empty(),
                records: Seq::empty(),
            },
        ),
        records: Seq::empty(),
        stack: Seq::empty(),
        ml_key: None,
        ml_buf: Seq::empty(),
    }
}

/// The named series list, by first matching name.
pub open spec fn series_lookup(series: Seq<(Seq<u8>, Seq<Val>)>, k: Seq<u8>) -> Option<Seq<Val>>
    decreases series.len(),
{
    if series.len() == 0 {
        None
    } else if series[0].0 == k {
        Some(series[0].1)
    } else {
        series_lookup(series.drop_first(), k)
    }
}

/// Replaces the first series entry named `k`, or appends a new one.
pub open spec fn series_update(series: Seq<(Seq<u8>, Seq<Val>)>, k: Seq<u8>, lst: Seq<Val>) -> Seq<
    (Seq<u8>, Seq<Val>),
>
    decreases series.len(),
{
    if series.len() == 0 {
        seq![(k, lst)]
    } else if series[0].0 == k {
        seq![(k, lst)] + series.drop_first()
    } else {
        seq![series[0]] + series_update(series.drop_first(), k, lst)
    }
}

/// Pops scopes whose indent is at least `indent`.
pub open spec fn pop_ge(stack: Seq<(int, Seq<Seq<u8>>)>, indent: int) -> Seq<(int, Seq<Seq<u8>>)>
    decreases stack.len(),
{
    if stack.len() > 0 && stack.last().0 >= indent {
        pop_ge(stack.drop_last(), indent)
    } else {
        stack
    }
}

/// Appends `v` to the series list addressed by the scope path `pth`, when its
/// top-level series exists.
pub open spec fn series_app(
    series: Seq<(Seq<u8>, Seq<Val>)>,
    pth: Seq<Seq<u8>>,
    v: Val,
) -> Option<Seq<(Seq<u8>, Seq<Val>)>> {
    match series_lookup(series, pth[0]) {
        Some(lst) => Some(series_update(series, pth[0], walk_app(lst, pth.drop_first(), v))),
        None => None,
    }
}

/// The indentation of a raw line: its leading whitespace count.
pub open spec fn indent_of(raw: Seq<u8>) -> int {
    raw.len() - trim_start_spec(raw).len()
}


/// First line at or after `i` whose trimmed text is the single byte `}`:
/// where a map block ends.
pub open spec fn map_block_end(lines: Seq<Seq<u8>>, i: int) -> int
    decreases lines.len() - i,
{
    if i < 0 || i >= lines.len() {
        lines.len() as int
    } else if trim_spec(lines[i]) == seq![125u8] {
        i
    } else {
        map_block_end(lines, i + 1)
    }
}

pub proof fn lemma_map_block_end_bounds(lines: Seq<Seq<u8>>, i: int)
    requires
        0 <= i <= lines.len(),
    ensures
        i <= map_block_end(lines, i) <= lines.len(),
    decreases lines.len() - i,
{
    if i < lines.len() && trim_spec(lines[i]) != seq![125u8] {
        lemma_map_block_end_bounds(lines, i + 1);
    }
}

/// The map a block of `k = v` lines denotes, entered over `acc` in order.
pub open spec fn map_block_kv(
    lines: Seq<Seq<u8>>,
    i: int,
    end: int,
    env: Seq<(Seq<u8>, Seq<u8>)>,
    acc: Seq<(Seq<u8>, Val)>,
) -> Seq<(Seq<u8>, Val)>
    decreases end - i,
{
    if i < 0 || i >= end || i >= lines.len() {
        acc
    } else {
        let t = trim_spec(lines[i]);
        let e = idx_of(t, 61);
        if e < t.len() {
            let k = trim_spec(t.take(e));
            let vr = trim_spec(t.skip(e + 1));
            let v = if is_env_ref(vr) {
                Val::Str(env_subst(env, vr))
            } else {
                Val::Str(strip_quotes(vr))
            };
            map_block_kv(lines, i + 1, end, env, kv_insert_spec(acc, k, v))
        } else {
            map_block_kv(lines, i + 1, end, env, acc)
        }
    }
}

/// Scans an object-assignment statement: keeps accumulating trimmed-end
/// lines until the accumulated text ends with `}`; the line after the scan
/// and the accumulated text.
pub open spec fn obj_scan(lines: Seq<Seq<u8>>, i: int, acc: Seq<u8>) -> (int, Seq<u8>)
    decreases lines.len() - i,
{
    if acc.len() > 0 && acc.last() == 125 {
        (i, acc)
    } else if i < 0 || i >= lines.len() {
        (i, acc)
    } else {
        obj_scan(lines, i + 1, acc + trim_end_spec(lines[i]))
    }
}

pub proof fn lemma_obj_scan_bounds(lines: Seq<Seq<u8>>, i: int, acc: Seq<u8>)
    requires
        0 <= i <= lines.len(),
    ensures
        i <= obj_scan(lines, i, acc).0 <= lines.len(),
    decreases lines.len() - i,
{
    if !(acc.len() > 0 && acc.last() == 125) && i < lines.len() {
        lemma_obj_scan_bounds(lines, i + 1, acc + trim_end_spec(lines[i]));
    }
}

/// The finished document: the open section, with its pending records, joins
/// the finished ones.
pub open spec fn finish_pm(st: PModel) -> Seq<SectionModel> {
    match st.cur {
        Some(sec) => st.sections.push(attach_records(sec, st.records)),
        None => st.sections,
    }
}

/// One section-body step for a plain (record or assignment) line: a `+`
/// opens a record; a `key = value` line fills the open record, or the
/// section's own keys; anything else is a parse error.
pub open spec fn plain_line_step(
    st: PModel,
    line: Seq<u8>,
    stack2: Seq<(int, Seq<Seq<u8>>)>,
    env: Seq<(Seq<u8>, Seq<u8>)>,
) -> Result<PModel, PErr> {
    let sec = st.cur->Some_0;
    let recs1 = if line[0] == 43 {
        st.records.push(Seq::empty())
    } else {
        st.records
    };
    if has_byte(line, 61) {
        let pline = if line[0] == 43 {
            trim_start_spec(line.skip(1))
        } else {
            line
        };
        let e = idx_of(pline, 61);
        let k = trim_spec(pline.take(e));
        let vr = trim_spec(pline.skip(e + 1));
        let v = literal_value(env, vr);
        if recs1.len() > 0 {
            Ok(
                PModel {
                    records: recs1.update(recs1.len() - 1, kv_insert_spec(recs1.last(), k, v)),
                    stack: stack2,
                    ..st
                },
            )
        } else {
            Ok(
                PModel {
                    cur: Some(SectionModel { kv: kv_insert_spec(sec.kv, k, v), ..sec }),
                    records: recs1,
                    stack: stack2,
                    ..st
                },
            )
        }
    } else {
        Err(PErr::General(line))
    }
}

/// The parser, one line at a time from line `i` in state `st`: the document
/// model the remaining lines yield, or the first parse error.
pub open spec fn parse_from(
    lines: Seq<Seq<u8>>,
    i: int,
    st: PModel,
    env: Seq<(Seq<u8>, Seq<u8>)>,
) -> Result<Seq<SectionModel>, PErr>
    decreases lines.len() - i,
    via parse_from_dec
{
    if i < 0 || i >= lines.len() {
        Ok(finish_pm(st))
    } else {
        let raw = lines[i];
        let line = trim_end_spec(raw);
        if line.len() == 0 {
            parse_from(lines, i + 1, PModel { stack: Seq::empty(), ..flush_ml(st) }, env)
        } else if line[0] == 35 {
            parse_from(lines, i + 1, st, env)
        } else if line[0] == 64 {
            parse_from(lines, i + 1, open_section(st, line), env)
        } else if st.ml_key is Some {
            parse_from(lines, i + 1, PModel { ml_buf: st.ml_buf.push(trim_spec(line)), ..st }, env)
        } else if st.cur is None {
            Err(PErr::NoSection(line))
        } else {
            let sec = st.cur->Some_0;
            let bi = idx_of(line, 123);
            let ei = idx_of(line, 61);
            if bi < line.len() && ei > bi {
                let end = map_block_end(lines, i + 1);
                let mp = map_block_kv(lines, i + 1, end, env, Seq::empty());
                let key = trim_spec(line.take(bi));
                let st2 = PModel {
                    cur: Some(
                        SectionModel { kv: kv_insert_spec(sec.kv, key, Val::Obj(mp)), ..sec },
                    ),
                    ..st
                };
                parse_from(lines, if end < lines.len() { end + 1 } else { end }, st2, env)
            } else if bi < line.len() && ei < bi {
                let scan = obj_scan(lines, i + 1, line);
                let cleaned = trim_spec(scan.1);
                if st.stack.len() > 0 {
                    let pth = st.stack.last().1;
                    let st2 = match series_app(sec.series, pth, Val::Str(cleaned)) {
                        Some(series2) => PModel {
                            cur: Some(SectionModel { series: series2, ..sec }),
                            ..st
                        },
                        None => st,
                    };
                    parse_from(lines, scan.0, st2, env)
                } else {
                    let st2 = PModel {
                        cur: Some(
                            SectionModel {
                                kv: kv_insert_spec(sec.kv, stmt_lit(), Val::Str(cleaned)),
                                ..sec
                            },
                        ),
                        ..st
                    };
                    parse_from(lines, scan.0, st2, env)
                }
            } else if has_byte(line, 62) {
                let key = trim_spec(line.take(idx_of(line, 62)));
                parse_from(
                    lines,
                    i + 1,
                    PModel { ml_key: Some(key), ml_buf: Seq::empty(), ..st },
                    env,
                )
            } else if line.last() == 58 {
                let key = trim_spec(line.take(line.len() - 1));
                let indent = indent_of(raw);
                let stack1 = pop_ge(st.stack, indent);
                let st2 = if stack1.len() == 0 {
                    let series2 = if series_lookup(sec.series, key) is Some {
                        sec.series
                    } else {
                        sec.series.push((key, Seq::empty()))
                    };
                    PModel {
                        cur: Some(SectionModel { series: series2, ..sec }),
                        stack: stack1.push((indent, seq![key])),
                        ..st
                    }
                } else {
                    let pth = stack1.last().1;
                    match series_lookup(sec.series, pth[0]) {
                        Some(lst) => PModel {
                            cur: Some(
                                SectionModel {
                                    series: series_update(
                                        sec.series,
                                        pth[0],
                                        walk_open(lst, pth.drop_first(), key),
                                    ),
                                    ..sec
                                },
                            ),
                            stack: stack1.push((indent, pth.push(key))),
                            ..st
                        },
                        None => PModel {
                            cur: Some(
                                SectionModel { series: sec.series.push((key, Seq::empty())), ..sec },
                            ),
                            stack: stack1.push((indent, seq![key])),
                            ..st
                        },
                    }
                };
                parse_from(lines, i + 1, st2, env)
            } else if is_ws(line[0]) || line[0] == 45 {
                let indent = indent_of(raw);
                let stack1 = pop_ge(st.stack, indent);
                if stack1.len() > 0 {
                    let pth = stack1.last().1;
                    let item = if line[0] == 45 {
                        trim_spec(line.skip(1))
                    } else {
                        trim_spec(line)
                    };
                    match series_app(sec.series, pth, Val::Str(item)) {
                        Some(series2) => parse_from(
                            lines,
                            i + 1,
                            PModel {
                                cur: Some(SectionModel { series: series2, ..sec }),
                                stack: stack1,
                                ..st
                            },
                            env,
                        ),
                        None => {
                            match plain_line_step(st, line, stack1, env) {
                                Ok(st2) => parse_from(lines, i + 1, st2, env),
                                Err(e) => Err(e),
                            }
                        },
                    }
                } else {
                    match plain_line_step(st, line, stack1, env) {
                        Ok(st2) => parse_from(lines, i + 1, st2, env),
                        Err(e) => Err(e),
                    }
                }
            } else {
                match plain_line_step(st, line, Seq::empty(), env) {
                    Ok(st2) => parse_from(lines, i + 1, st2, env),
                    Err(e) => Err(e),
                }
            }
        }
    }
}

#[via_fn]
proof fn parse_from_dec(lines: Seq<Seq<u8>>, i: int, st: PModel, env: Seq<(Seq<u8>, Seq<u8>)>) {
    if 0 <= i < lines.len() {
        lemma_map_block_end_bounds(lines, i + 1);
        lemma_obj_scan_bounds(lines, i + 1, trim_end_spec(lines[i]));
    }
}

/// What parsing a whole text means: the line-at-a-time machine run from the
/// first line in the initial state.
pub open spec fn parse_spec(input: Seq<u8>, env: Seq<(Seq<u8>, Seq<u8>)>) -> Result<
    Seq<SectionModel>,
    PErr,
> {
    parse_from(lines_spec(input), 0, init_pm(), env)
}


/// The models of the scope stack.
pub open spec fn stack_models(s: Seq<(usize, Vec<Vec<u8>>)>) -> Seq<(int, Seq<Seq<u8>>)> {
    Seq::new(s.len(), |i: int| (s[i].0 as int, path_models(s[i].1@)))
}

proof fn lemma_join_nl_push(bufs: Seq<Seq<u8>>, x: Seq<u8>)
    ensures
        join_nl(bufs.push(x)) == if bufs.len() == 0 {
            x
        } else {
            join_nl(bufs) + seq![10u8] + x
        },
    decreases bufs.len(),
{
    if bufs.len() == 0 {
        assert(bufs.push(x)[0] == x);
        assert(join_nl(bufs.push(x)) == x);
    } else {
        lemma_join_nl_push(bufs.drop_first(), x);
        assert(bufs.push(x).drop_first() =~= bufs.drop_first().push(x));
        if bufs.len() == 1 {
            assert(join_nl(bufs.push(x)) == bufs[0] + seq![10u8] + join_nl(
                bufs.drop_first().push(x),
            ));
            assert(join_nl(bufs) == bufs[0]);
        } else {
            assert(join_nl(bufs) + seq![10u8] + x =~= bufs[0] + seq![10u8] + (join_nl(
                bufs.drop_first(),
            ) + seq![10u8] + x));
        }
    }
}

/// Joins the buffered lines of a multi-line block with newlines.
fn join_nl_exec(bufs: &Vec<Vec<u8>>) -> (r: Vec<u8>)
    ensures
        r@ == join_nl(bufs.deep_view()),
{
    let mut out: Vec<u8> = Vec::new();
    let mut i: usize = 0;
    #[verifier::loop_isolation(false)]
    while i < bufs.len()
        invariant
            0 <= i <= bufs@.len(),
            out@ == join_nl(bufs.deep_view().take(i as int)),
        decreases bufs@.len() - i,
    {
        let ghost pre = bufs.deep_view().take(i as int);
        if i > 0 {
            out.push(10);
        }
        let mut j: usize = 0;
        let ghost mid = out@;
        #[verifier::loop_isolation(false)]
        while j < bufs[i].len()
            invariant
                0 <= j <= bufs@[i as int]@.len(),
                out@ == mid + bufs@[i as int]@.take(j as int),
            decreases bufs@[i as int]@.len() - j,
        {
            out.push(bufs[i][j]);
            proof {
                assert(bufs@[i as int]@.take(j + 1) =~= bufs@[i as int]@.take(j as int) + seq![
                    bufs@[i as int]@[j as int],
                ]);
            }
            j = j + 1;
        }
        proof {
            lemma_join_nl_push(pre, bufs.deep_view()[i as int]);
            assert(bufs.deep_view().take(i + 1) =~= pre.push(bufs.deep_view()[i as int]));
            assert(bufs.deep_view()[i as int] =~= bufs@[i as int]@);
            assert(bufs@[i as int]@.take(bufs@[i as int]@.len() as int) =~= bufs@[i as int]@);
            if i == 0 {
                assert(out@ =~= join_nl(bufs.deep_view().take(i + 1)));
            } else {
                assert(out@ =~= join_nl(pre) + seq![10u8] + bufs.deep_view()[i as int]);
            }
        }
        i = i + 1;
    }
    proof {
        assert(bufs.deep_view().take(i as int) =~= bufs.deep_view());
    }
    out
}

/// Splits a section header on `/` into trimmed path segments.
fn split_slash_trim_exec(s: &[u8]) -> (r: Vec<Vec<u8>>)
    ensures
        path_models(r@) == split_slash_trim(s@),
{
    let mut out: Vec<Vec<u8>> = Vec::new();
    let mut start: usize = 0;
    let mut i: usize = 0;
    proof {
        assert(s@.skip(0) =~= s@);
    }
    #[verifier::loop_isolation(false)]
    while i < s.len()
        invariant
            0 <= start <= i <= s@.len(),
            forall|j: int| start <= j < i ==> s@[j] != 47,
            split_slash_trim(s@) == path_models(out@) + split_slash_trim(s@.skip(start as int)),
        decreases s@.len() - i,
    {
        if s[i] == 47 {
            let seg = copy_range(s, start, i);
            let t = trim(seg.as_slice());
            let ghost rest = s@.skip(start as int);
            let ghost preout = path_models(out@);
            out.push(t);
            proof {
                lemma_idx_of_is(rest, 47, i - start);
                assert(rest.take(i - start) =~= s@.subrange(start as int, i as int));
                assert(rest.skip(i - start + 1) =~= s@.skip(i + 1));
                assert(path_models(out@) =~= preout.push(t@));
                assert(split_slash_trim(rest) == seq![trim_spec(rest.take(i - start))]
                    + split_slash_trim(s@.skip(i + 1)));
                assert(preout.push(t@) + split_slash_trim(s@.skip(i + 1)) =~= preout + (seq![t@]
                    + split_slash_trim(s@.skip(i + 1))));
            }
            start = i + 1;
        }
        i = i + 1;
    }
    let seg = copy_range(s, start, s.len());
    let t = trim(seg.as_slice());
    let ghost rest = s@.skip(start as int);
    let ghost preout = path_models(out@);
    out.push(t);
    proof {
        lemma_idx_of_is(rest, 47, rest.len() as int);
        assert(rest.take(rest.len() as int) =~= s@.subrange(start as int, s@.len() as int));
        assert(split_slash_trim(rest) == seq![trim_spec(rest)]);
        assert(rest =~= s@.subrange(start as int, s@.len() as int));
        assert(path_models(out@) =~= preout.push(t@));
        assert(preout.push(t@) =~= preout + seq![trim_spec(rest)]);
    }
    out
}

/// Pops scopes whose indent is at least `indent`.
fn pop_stack_exec(stack: &mut Vec<(usize, Vec<Vec<u8>>)>, indent: usize)
    ensures
        stack_models(final(stack)@) == pop_ge(stack_models(old(stack)@), indent as int),
{
    let ghost orig = stack_models(stack@);
    #[verifier::loop_isolation(false)]
    while stack.len() > 0 && stack[stack.len() - 1].0 >= indent
        invariant
            pop_ge(orig, indent as int) == pop_ge(stack_models(stack@), indent as int),
        decreases stack@.len(),
    {
        let ghost prem = stack_models(stack@);
        let _ = stack.pop();
        proof {
            assert(stack_models(stack@) =~~= prem.drop_last());
            assert(prem.last().0 >= indent);
        }
    }
    proof {
        if stack@.len() > 0 {
            assert(stack_models(stack@).last().0 < indent);
        }
        assert(pop_ge(stack_models(stack@), indent as int) == stack_models(stack@));
    }
}

/// Index of the first series entry named `key`.
fn series_idx(series: &Vec<(Vec<u8>, Vec<Value>)>, key: &[u8]) -> (r: Option<usize>)
    ensures
        match r {
            Some(i) => 0 <= i < series@.len() && series@[i as int].0@ == key@ && forall|j: int|
                0 <= j < i ==> series@[j].0@ != key@,
            None => forall|j: int| 0 <= j < series@.len() ==> series@[j].0@ != key@,
        },
{
    let mut i: usize = 0;
    #[verifier::loop_isolation(false)]
    while i < series.len()
        invariant
            0 <= i <= series@.len(),
            forall|j: int| 0 <= j < i ==> series@[j].0@ != key@,
        decreases series@.len() - i,
    {
        if compare_bytes(series[i].0.as_slice(), key) {
            return Some(i);
        }
        i = i + 1;
    }
    None
}

proof fn lemma_series_lookup_at(m: Seq<(Seq<u8>, Seq<Val>)>, k: Seq<u8>, i: int)
    requires
        0 <= i < m.len(),
        m[i].0 == k,
        forall|j: int| 0 <= j < i ==> m[j].0 != k,
    ensures
        series_lookup(m, k) == Some(m[i].1),
    decreases i,
{
    if i > 0 {
        lemma_series_lookup_at(m.drop_first(), k, i - 1);
    }
}

proof fn lemma_series_lookup_none(m: Seq<(Seq<u8>, Seq<Val>)>, k: Seq<u8>)
    requires
        forall|j: int| 0 <= j < m.len() ==> m[j].0 != k,
    ensures
        series_lookup(m, k) is None,
    decreases m.len(),
{
    if m.len() > 0 {
        lemma_series_lookup_none(m.drop_first(), k);
    }
}

proof fn lemma_series_update_at(m: Seq<(Seq<u8>, Seq<Val>)>, k: Seq<u8>, lst: Seq<Val>, i: int)
    requires
        0 <= i < m.len(),
        m[i].0 == k,
        forall|j: int| 0 <= j < i ==> m[j].0 != k,
    ensures
        series_update(m, k, lst) == m.update(i, (k, lst)),
    decreases i,
{
    if i == 0 {
        assert(series_update(m, k, lst) =~= m.update(0, (k, lst)));
    } else {
        lemma_series_update_at(m.drop_first(), k, lst, i - 1);
        assert(series_update(m, k, lst) =~= m.update(i, (k, lst)));
    }
}

/// Appends `v` to the series list the scope path addresses; reports whether
/// the top-level series exists.
fn series_app_exec(series: &mut Vec<(Vec<u8>, Vec<Value>)>, pth: &Vec<Vec<u8>>, v: Value) -> (found:
    bool)
    requires
        pth@.len() >= 1,
    ensures
        found ==> series_app(
            series_models_of(old(series)@),
            path_models(pth@),
            v.model(),
        ) == Some(series_models_of(final(series)@)),
        !found ==> final(series)@ == old(series)@ && series_app(
            series_models_of(old(series)@),
            path_models(pth@),
            v.model(),
        ) is None,
{
    let ghost m = series_models_of(series@);
    let ghost ks = path_models(pth@);
    match series_idx(series, pth[0].as_slice()) {
        Some(i) => {
            proof {
                lemma_series_lookup_at(m, ks[0], i as int);
            }
            let (k0, mut lst) = series.remove(i);
            let ghost lstm = models_of(lst@);
            walk_app_exec(&mut lst, pth, 1, v);
            proof {
                assert(path_models(pth@).skip(1) =~= ks.drop_first());
            }
            series.insert(i, (k0, lst));
            proof {
                lemma_series_update_at(m, ks[0], walk_app(lstm, ks.drop_first(), v.model()), i as int);
                assert(series_models_of(series@) =~~= m.update(
                    i as int,
                    (ks[0], walk_app(lstm, ks.drop_first(), v.model())),
                ));
            }
            true
        },
        None => {
            proof {
                lemma_series_lookup_none(m, ks[0]);
            }
            false
        },
    }
}

/// Opens a nested series below the scope path; reports whether the top-level
/// series exists.
fn series_open_nested_exec(
    series: &mut Vec<(Vec<u8>, Vec<Value>)>,
    pth: &Vec<Vec<u8>>,
    newkey: &Vec<u8>,
) -> (found: bool)
    requires
        pth@.len() >= 1,
    ensures
        found ==> (series_lookup(series_models_of(old(series)@), path_models(pth@)[0])
            matches Some(lst) && series_models_of(final(series)@) == series_update(
            series_models_of(old(series)@),
            path_models(pth@)[0],
            walk_open(lst, path_models(pth@).drop_first(), newkey@),
        )),
        !found ==> final(series)@ == old(series)@ && series_lookup(
            series_models_of(old(series)@),
            path_models(pth@)[0],
        ) is None,
{
    let ghost m = series_models_of(series@);
    let ghost ks = path_models(pth@);
    match series_idx(series, pth[0].as_slice()) {
        Some(i) => {
            proof {
                lemma_series_lookup_at(m, ks[0], i as int);
            }
            let (k0, mut lst) = series.remove(i);
            let ghost lstm = models_of(lst@);
            walk_open_exec(&mut lst, pth, 1, newkey);
            proof {
                assert(path_models(pth@).skip(1) =~= ks.drop_first());
            }
            series.insert(i, (k0, lst));
            proof {
                lemma_series_update_at(
                    m,
                    ks[0],
                    walk_open(lstm, ks.drop_first(), newkey@),
                    i as int,
                );
                assert(series_models_of(series@) =~~= m.update(
                    i as int,
                    (ks[0], walk_open(lstm, ks.drop_first(), newkey@)),
                ));
            }
            true
        },
        None => {
            proof {
                lemma_series_lookup_none(m, ks[0]);
            }
            false
        },
    }
}

/// Creates an empty top-level series named `key` unless one exists.
fn series_ensure_exec(series: &mut Vec<(Vec<u8>, Vec<Value>)>, key: &Vec<u8>)
    ensures
        series_models_of(final(series)@) == (if series_lookup(
            series_models_of(old(series)@),
            key@,
        ) is Some {
            series_models_of(old(series)@)
        } else {
            series_models_of(old(series)@).push((key@, Seq::<Val>::empty()))
        }),
{
    let ghost m = series_models_of(series@);
    match series_idx(series, key.as_slice()) {
        Some(i) => {
            proof {
                lemma_series_lookup_at(m, key@, i as int);
            }
        },
        None => {
            proof {
                lemma_series_lookup_none(m, key@);
            }
            series.push((clone_bytes(key), Vec::new()));
            proof {
                assert(series_models_of(series@) =~~= m.push((key@, Seq::<Val>::empty())));
            }
        },
    }
}

/// Unconditionally appends an empty top-level series named `key`.
fn series_push_new_exec(series: &mut Vec<(Vec<u8>, Vec<Value>)>, key: &Vec<u8>)
    ensures
        series_models_of(final(series)@) == series_models_of(old(series)@).push(
            (key@, Seq::<Val>::empty()),
        ),
{
    let ghost m = series_models_of(series@);
    series.push((clone_bytes(key), Vec::new()));
    proof {
        assert(series_models_of(series@) =~~= m.push((key@, Seq::<Val>::empty())));
    }
}

/// Inserts a field into the most recently opened record.
fn record_insert_exec(records: &mut Vec<Record>, k: Vec<u8>, v: Value)
    requires
        old(records)@.len() > 0,
    ensures
        record_models_of(final(records)@) == record_models_of(old(records)@).update(
            old(records)@.len() - 1,
            kv_insert_spec(record_models_of(old(records)@).last(), k@, v.model()),
        ),
{
    let ghost m = record_models_of(records@);
    let n = records.len();
    let mut rec = match records.pop() {
        Some(x) => x,
        None => {
            proof {
                assert(false);
            }
            Record { kv: Vec::new() }
        },
    };
    let ghost recm = rec.model();
    kv_insert(&mut rec.kv, k, v);
    records.push(rec);
    proof {
        assert(record_models_of(records@) =~~= m.update(
            m.len() - 1,
            kv_insert_spec(m.last(), k@, v.model()),
        ));
    }
}


/// Consumes a map block: the `k = v` entries up to the closing `}` line, and
/// the index of that closing line (or the end of input).
fn map_block_exec(lines: &Vec<Vec<u8>>, start: usize, env: &Vec<(Vec<u8>, Vec<u8>)>) -> (r: (
    Vec<(Vec<u8>, Value)>,
    usize,
))
    requires
        start <= lines@.len(),
    ensures
        r.1 == map_block_end(lines.deep_view(), start as int),
        start <= r.1 <= lines@.len(),
        entry_models_of(r.0@) == map_block_kv(
            lines.deep_view(),
            start as int,
            r.1 as int,
            env_models_of(env@),
            Seq::empty(),
        ),
{
    let ghost lm = lines.deep_view();
    let ghost envm = env_models_of(env@);
    let ghost end = map_block_end(lm, start as int);
    proof {
        lemma_map_block_end_bounds(lm, start as int);
    }
    let mut acc: Vec<(Vec<u8>, Value)> = Vec::new();
    let mut i: usize = start;
    let mut done = false;
    proof {
        lemma_entry_models_of(acc@);
        assert(entry_models_of(acc@) =~= Seq::<(Seq<u8>, Val)>::empty());
    }
    #[verifier::loop_isolation(false)]
    while !done && i < lines.len()
        invariant
            start <= i <= lines@.len(),
            !done ==> end == map_block_end(lm, i as int),
            !done ==> map_block_kv(lm, start as int, end, envm, Seq::empty()) == map_block_kv(
                lm,
                i as int,
                end,
                envm,
                entry_models_of(acc@),
            ),
            done ==> i == end && map_block_kv(lm, start as int, end, envm, Seq::empty())
                == entry_models_of(acc@),
        decreases lines@.len() - i, (if done { 0int } else { 1int }),
    {
        let t = trim(lines[i].as_slice());
        proof {
            assert(lines@[i as int].deep_view() =~= lines@[i as int]@);
            assert(lm[i as int] == lines@[i as int]@);
        }
        if t.len() == 1 && t[0] == 125 {
            proof {
                assert(trim_spec(lm[i as int]) =~= seq![125u8]);
                assert(map_block_end(lm, i as int) == i);
            }
            done = true;
        } else {
            proof {
                assert(!(trim_spec(lm[i as int]) == seq![125u8])) by {
                    if trim_spec(lm[i as int]) == seq![125u8] {
                        assert(t@.len() == 1 && t@[0] == 125);
                    }
                }
                assert(map_block_end(lm, i as int) == map_block_end(lm, i + 1));
                lemma_map_block_end_bounds(lm, i + 1);
            }
            let e = idx_of_exec(t.as_slice(), 61);
            if e < t.len() {
                let kpart = copy_range(t.as_slice(), 0, e);
                let k = trim(kpart.as_slice());
                let vpart = copy_range(t.as_slice(), e + 1, t.len());
                let vr = trim(vpart.as_slice());
                let v: Value = if env_ref(vr.as_slice()) {
                    Value::Str(env_subst_exec(env, vr.as_slice()))
                } else {
                    Value::Str(strip_quotes_exec(vr.as_slice()))
                };
                proof {
                    assert(t@.take(e as int) =~= t@.subrange(0, e as int));
                    assert(t@.skip(e + 1) =~= t@.subrange(e + 1, t@.len() as int));
                }
                kv_insert(&mut acc, k, v);
            }
            i = i + 1;
        }
    }
    proof {
        if !done {
            assert(i == lines@.len());
        }
    }
    (acc, i)
}

/// Consumes an object-assignment statement: accumulates trimmed-end lines
/// until the text ends with `}`, and reports the next unread line.
fn obj_scan_exec(lines: &Vec<Vec<u8>>, start: usize, acc0: Vec<u8>) -> (r: (Vec<u8>, usize))
    requires
        start <= lines@.len(),
    ensures
        (r.1 as int, r.0@) == obj_scan(lines.deep_view(), start as int, acc0@),
        start <= r.1 <= lines@.len(),
{
    let ghost lm = lines.deep_view();
    let mut acc = acc0;
    let mut i: usize = start;
    #[verifier::loop_isolation(false)]
    while !(acc.len() > 0 && acc[acc.len() - 1] == 125) && i < lines.len()
        invariant
            start <= i <= lines@.len(),
            obj_scan(lm, start as int, acc0@) == obj_scan(lm, i as int, acc@),
        decreases lines@.len() - i,
    {
        let t = trim_end(lines[i].as_slice());
        let ghost accpre = acc@;
        let mut j: usize = 0;
        #[verifier::loop_isolation(false)]
        while j < t.len()
            invariant
                0 <= j <= t@.len(),
                acc@ == accpre + t@.take(j as int),
            decreases t@.len() - j,
        {
            acc.push(t[j]);
            proof {
                assert(t@.take(j + 1) =~= t@.take(j as int) + seq![t@[j as int]]);
            }
            j = j + 1;
        }
        proof {
            assert(lines@[i as int].deep_view() =~= lines@[i as int]@);
            assert(lm[i as int] == lines@[i as int]@);
            assert(t@.take(t@.len() as int) =~= t@);
            assert(acc@ =~= accpre + trim_end_spec(lm[i as int]));
        }
        i = i + 1;
    }
    proof {
        if acc@.len() > 0 && acc@.last() == 125 {
            assert(obj_scan(lm, i as int, acc@) == (i as int, acc@));
        } else {
            assert(i == lines@.len());
            assert(obj_scan(lm, i as int, acc@) == (i as int, acc@));
        }
    }
    (acc, i)
}


/// The models of buffered multi-line block lines.
pub open spec fn bufs_models(s: Seq<Vec<u8>>) -> Seq<Seq<u8>> {
    Seq::new(s.len(), |i: int| s[i]@)
}

/// The parser state the executable locals denote.
pub open spec fn st_of(
    sections: Seq<Section>,
    has_cur: bool,
    cur: Section,
    records: Seq<Record>,
    stack: Seq<(usize, Vec<Vec<u8>>)>,
    has_ml: bool,
    mlk: Seq<u8>,
    mlb: Seq<Vec<u8>>,
) -> PModel {
    PModel {
        sections: section_models_of(sections),
        cur: if has_cur {
            Some(cur.model())
        } else {
            None
        },
        records: record_models_of(records),
        stack: stack_models(stack),
        ml_key: if has_ml {
            Some(mlk)
        } else {
            None
        },
        ml_buf: bufs_models(mlb),
    }
}

proof fn lemma_pop_ge_prefix(stack: Seq<(int, Seq<Seq<u8>>)>, indent: int)
    ensures
        pop_ge(stack, indent).len() <= stack.len(),
        forall|k: int|
            0 <= k < pop_ge(stack, indent).len() ==> #[trigger] pop_ge(stack, indent)[k]
                == stack[k],
    decreases stack.len(),
{
    if stack.len() > 0 && stack.last().0 >= indent {
        lemma_pop_ge_prefix(stack.drop_last(), indent);
    }
}

/// A byte that is not whitespace survives left-trimming.
proof fn lemma_trim_start_has(s: Seq<u8>, c: u8)
    requires
        !is_ws(c),
        has_byte(s, c),
    ensures
        has_byte(trim_start_spec(s), c),
    decreases s.len(),
{
    lemma_idx_of(s, c);
    if s.len() > 0 && is_ws(s[0]) {
        assert(s[0] != c);
        assert(idx_of(s, c) == 1 + idx_of(s.drop_first(), c));
        lemma_trim_start_has(s.drop_first(), c);
    }
}

/// Handles a record or assignment line: a leading `+` opens a record, a
/// `key = value` body fills the open record or the section's keys, anything
/// else is a parse error.
fn plain_line_exec(
    kv: &mut Vec<(Vec<u8>, Value)>,
    records: &mut Vec<Record>,
    line: &Vec<u8>,
    env: &Vec<(Vec<u8>, Vec<u8>)>,
) -> (err: Option<ParseError>)
    requires
        line@.len() > 0,
    ensures
        ({
            let envm = env_models_of(env@);
            let recs1 = if line@[0] == 43 {
                record_models_of(old(records)@).push(Seq::empty())
            } else {
                record_models_of(old(records)@)
            };
            if has_byte(line@, 61) {
                let pline = if line@[0] == 43 {
                    trim_start_spec(line@.skip(1))
                } else {
                    line@
                };
                let e = idx_of(pline, 61);
                let k = trim_spec(pline.take(e));
                let vr = trim_spec(pline.skip(e + 1));
                let v = literal_value(envm, vr);
                &&& err is None
                &&& if recs1.len() > 0 {
                    record_models_of(final(records)@) == recs1.update(
                        recs1.len() - 1,
                        kv_insert_spec(recs1.last(), k, v),
                    ) && entry_models_of(final(kv)@) == entry_models_of(old(kv)@)
                } else {
                    record_models_of(final(records)@) == recs1 && entry_models_of(final(kv)@)
                        == kv_insert_spec(entry_models_of(old(kv)@), k, v)
                }
            } else {
                &&& err matches Some(e2) && e2.model() == PErr::General(line@)
                &&& final(records)@ == old(records)@
                &&& final(kv)@ == old(kv)@
            }
        }),
{
    let ghost envm = env_models_of(env@);
    let plus = line[0] == 43;
    if plus {
        records.push(Record { kv: Vec::new() });
        proof {
            lemma_entry_models_of(Seq::<(Vec<u8>, Value)>::empty());
            assert(record_models_of(records@) =~~= record_models_of(old(records)@).push(
                Seq::empty(),
            ));
        }
    }
    let e_whole = idx_of_exec(line.as_slice(), 61);
    if e_whole == line.len() {
        if plus {
            let _ = records.pop();
            proof {
                assert(records@ =~= old(records)@);
            }
        }
        return Some(ParseError::General(clone_bytes(line)));
    }
    let pline: Vec<u8> = if plus {
        let rest = copy_range(line.as_slice(), 1, line.len());
        let t = trim_start(rest.as_slice());
        proof {
            assert(line@.subrange(1, line@.len() as int) =~= line@.skip(1));
            lemma_idx_of(line@, 61);
            let j0 = idx_of(line@, 61);
            assert(line@[0] == 43);
            assert(j0 >= 1);
            assert(line@.skip(1)[j0 - 1] == 61);
            lemma_idx_of(line@.skip(1), 61);
            assert(has_byte(line@.skip(1), 61));
            lemma_trim_start_has(line@.skip(1), 61);
        }
        t
    } else {
        clone_bytes(line)
    };
    let e = idx_of_exec(pline.as_slice(), 61);
    proof {
        lemma_idx_of(pline@, 61);
        assert(e < pline@.len());
    }
    let kpart = copy_range(pline.as_slice(), 0, e);
    let k = trim(kpart.as_slice());
    let vpart = copy_range(pline.as_slice(), e + 1, pline.len());
    let vr = trim(vpart.as_slice());
    let v = literal_value_exec(env, vr.as_slice());
    proof {
        assert(pline@.take(e as int) =~= pline@.subrange(0, e as int));
        assert(pline@.skip(e + 1) =~= pline@.subrange(e + 1, pline@.len() as int));
    }
    if records.len() > 0 {
        record_insert_exec(records, k, v);
    } else {
        kv_insert(kv, k, v);
    }
    None
}

/// Parses a document text against the given environment: the sections the
/// text describes, or the first parse error.  The result is exactly what
/// `parse_spec` says of the text's lines.
#[verifier::rlimit(100)]
pub fn parse_rune(input: &[u8], env: &Vec<(Vec<u8>, Vec<u8>)>) -> (r: Result<
    RuneDocument,
    ParseError,
>)
    ensures
        match r {
            Ok(doc) => parse_spec(input@, env_models_of(env@)) == Ok::<
                Seq<SectionModel>,
                PErr,
            >(doc.model()),
            Err(e) => parse_spec(input@, env_models_of(env@)) == Err::<
                Seq<SectionModel>,
                PErr,
            >(e.model()),
        },
{
    let lines = split_lines(input);
    let ghost lm = lines.deep_view();
    let ghost envm = env_models_of(env@);
    let mut sections: Vec<Section> = Vec::new();
    let mut has_cur = false;
    let mut cur = Section { path: Vec::new(), kv: Vec::new(), series: Vec::new(), records: Vec::new() };
    let mut records: Vec<Record> = Vec::new();
    let mut stack: Vec<(usize, Vec<Vec<u8>>)> = Vec::new();
    let mut has_ml = false;
    let mut ml_key: Vec<u8> = Vec::new();
    let mut ml_buf: Vec<Vec<u8>> = Vec::new();
    let mut i: usize = 0;
    proof {
        assert(st_of(sections@, has_cur, cur, records@, stack@, has_ml, ml_key@, ml_buf@)
            == init_pm()) by {
            assert(section_models_of(sections@) =~= Seq::<SectionModel>::empty());
            assert(record_models_of(records@) =~= Seq::<Seq<(Seq<u8>, Val)>>::empty());
            assert(stack_models(stack@) =~= Seq::<(int, Seq<Seq<u8>>)>::empty());
            assert(bufs_models(ml_buf@) =~= Seq::<Seq<u8>>::empty());
        }
    }
    #[verifier::loop_isolation(false)]
    while i < lines.len()
        invariant
            0 <= i <= lines@.len(),
            parse_from(
                lm,
                i as int,
                st_of(sections@, has_cur, cur, records@, stack@, has_ml, ml_key@, ml_buf@),
                envm,
            ) == parse_from(lm, 0, init_pm(), envm),
            forall|k: int| 0 <= k < stack@.len() ==> #[trigger] stack@[k].1@.len() >= 1,
        decreases lines@.len() - i,
    {
        let ghost st0 = st_of(sections@, has_cur, cur, records@, stack@, has_ml, ml_key@, ml_buf@);
        proof {
            assert forall|k: int| 0 <= k < st0.stack.len() implies #[trigger] st0.stack[k].1.len()
                >= 1 by {
                assert(st0.stack[k].1 == path_models(stack@[k].1@));
            }
        }
        let raw = &lines[i];
        let line = trim_end(raw.as_slice());
        proof {
            assert(lines@[i as int].deep_view() =~= lines@[i as int]@);
            assert(lm[i as int] == lines@[i as int]@);
        }
        if line.len() == 0 {
            if has_ml {
                if has_cur {
                    let joined = join_nl_exec(&ml_buf);
                    proof {
                        assert(ml_buf.deep_view() =~~= bufs_models(ml_buf@));
                    }
                    let k = clone_bytes(&ml_key);
                    kv_insert(&mut cur.kv, k, Value::Str(joined));
                }
                has_ml = false;
                ml_buf = Vec::new();
            }
            stack = Vec::new();
            proof {
                assert(stack_models(stack@) =~= Seq::<(int, Seq<Seq<u8>>)>::empty());
                assert(bufs_models(ml_buf@) =~= bufs_models(ml_buf@));
                if ml_buf@.len() == 0 {
                    assert(bufs_models(ml_buf@) =~= Seq::<Seq<u8>>::empty());
                }
                assert(st_of(sections@, has_cur, cur, records@, stack@, has_ml, ml_key@, ml_buf@)
                    == PModel { stack: Seq::empty(), ..flush_ml(st0) });
            }
            i = i + 1;
            continue;
        }
        if line[0] == 35 {
            i = i + 1;
            continue;
        }
        if line[0] == 64 {
            if has_cur {
                let mut prev = cur;
                prev.records = records;
                sections.push(prev);
                records = Vec::new();
            }
            let hdr = copy_range(line.as_slice(), 1, line.len());
            let path = split_slash_trim_exec(hdr.as_slice());
            cur = Section { path, kv: Vec::new(), series: Vec::new(), records: Vec::new() };
            has_cur = true;
            records = Vec::new();
            stack = Vec::new();
            has_ml = false;
            ml_buf = Vec::new();
            proof {
                assert(line@.subrange(1, line@.len() as int) =~= line@.skip(1));
                assert(stack_models(stack@) =~= Seq::<(int, Seq<Seq<u8>>)>::empty());
                assert(bufs_models(ml_buf@) =~= Seq::<Seq<u8>>::empty());
                assert(record_models_of(records@) =~= Seq::<Seq<(Seq<u8>, Val)>>::empty());
                assert(entry_models_of(cur.kv@) =~= Seq::<(Seq<u8>, Val)>::empty());
                assert(series_models_of(cur.series@) =~= Seq::<(Seq<u8>, Seq<Val>)>::empty());
                assert(record_models_of(cur.records@) =~= Seq::<Seq<(Seq<u8>, Val)>>::empty());
                if st0.cur is Some {
                    assert(section_models_of(sections@) =~~= st0.sections.push(
                        attach_records(st0.cur->Some_0, st0.records),
                    ));
                }
                assert(st_of(sections@, has_cur, cur, records@, stack@, has_ml, ml_key@, ml_buf@)
                    == open_section(st0, trim_end_spec(lm[i as int])));
            }
            i = i + 1;
            continue;
        }
        if has_ml {
            let t = trim(line.as_slice());
            ml_buf.push(t);
            proof {
                assert(bufs_models(ml_buf@) =~= st0.ml_buf.push(trim_spec(trim_end_spec(
                    lm[i as int],
                ))));
                assert(st_of(sections@, has_cur, cur, records@, stack@, has_ml, ml_key@, ml_buf@)
                    == PModel { ml_buf: st0.ml_buf.push(trim_spec(trim_end_spec(lm[i as int]))), ..st0 });
            }
            i = i + 1;
            continue;
        }
        if !has_cur {
            return Err(ParseError::NoSection(line));
        }
        let bi = idx_of_exec(line.as_slice(), 123);
        let ei = idx_of_exec(line.as_slice(), 61);
        proof {
            lemma_idx_of(line@, 123);
            lemma_idx_of(line@, 61);
        }
        if bi < line.len() && ei > bi {
            let (mp, end) = map_block_exec(&lines, i + 1, env);
            let kpart = copy_range(line.as_slice(), 0, bi);
            let key = trim(kpart.as_slice());
            kv_insert(&mut cur.kv, key, Value::Obj(mp));
            proof {
                assert(line@.take(bi as int) =~= line@.subrange(0, bi as int));
            }
            if end < lines.len() {
                i = end + 1;
            } else {
                i = end;
            }
            continue;
        }
        if bi < line.len() {
            let (acc, nx) = obj_scan_exec(&lines, i + 1, clone_bytes(&line));
            let cleaned = trim(acc.as_slice());
            if stack.len() > 0 {
                let pth = clone_path(&stack[stack.len() - 1].1);
                let found = series_app_exec(&mut cur.series, &pth, Value::Str(cleaned));
                proof {
                    assert(path_models(pth@) == stack_models(stack@).last().1);
                }
                if found {
                } else {
                }
            } else {
                let k: Vec<u8> = statement_key();
                kv_insert(&mut cur.kv, k, Value::Str(cleaned));
            }
            i = nx;
            continue;
        }
        let gi = idx_of_exec(line.as_slice(), 62);
        if gi < line.len() {
            let kpart = copy_range(line.as_slice(), 0, gi);
            let key = trim(kpart.as_slice());
            ml_key = key;
            has_ml = true;
            ml_buf = Vec::new();
            proof {
                assert(line@.take(gi as int) =~= line@.subrange(0, gi as int));
                assert(bufs_models(ml_buf@) =~= Seq::<Seq<u8>>::empty());
            }
            i = i + 1;
            continue;
        }
        if line[line.len() - 1] == 58 {
            let kpart = copy_range(line.as_slice(), 0, line.len() - 1);
            let key = trim(kpart.as_slice());
            let indent = leading_ws(raw.as_slice());
            proof {
                crate::bytes::lemma_trim_start_skip(lm[i as int], indent as int);
                assert(indent_of(lm[i as int]) == indent);
                assert(line@.take(line@.len() - 1) =~= line@.subrange(0, line@.len() - 1));
            }
            pop_stack_exec(&mut stack, indent);
            proof {
                lemma_pop_ge_prefix(st0.stack, indent as int);
                assert forall|k: int| 0 <= k < stack@.len() implies #[trigger] stack@[k].1@.len()
                    >= 1 by {
                    assert(stack_models(stack@)[k] == pop_ge(st0.stack, indent as int)[k]);
                    assert(pop_ge(st0.stack, indent as int)[k] == st0.stack[k]);
                    assert(st0.stack[k].1.len() >= 1);
                    assert(stack_models(stack@)[k].1 == path_models(stack@[k].1@));
                }
            }
            let ghost prestack = stack@;
            if stack.len() == 0 {
                series_ensure_exec(&mut cur.series, &key);
                let mut pth: Vec<Vec<u8>> = Vec::new();
                pth.push(key);
                stack.push((indent, pth));
                proof {
                    assert(stack_models(stack@) =~~= pop_ge(st0.stack, indent as int).push(
                        (indent as int, seq![trim_spec(line@.take(line@.len() - 1))]),
                    ));
                    assert forall|k: int| 0 <= k < stack@.len() implies #[trigger] stack@[k].1@.len()
                        >= 1 by {
                        if k < prestack.len() {
                                assert(stack@[k] == prestack[k]);
                                assert(stack_models(prestack)[k] == pop_ge(
                                    st0.stack,
                                    indent as int,
                                )[k]);
                                assert(pop_ge(st0.stack, indent as int)[k] == st0.stack[k]);
                                assert(st0.stack[k].1.len() >= 1);
                                assert(stack_models(prestack)[k].1 == path_models(
                                    prestack[k].1@,
                                ));
                            }
                    }
                }
            } else {
                let pth = clone_path(&stack[stack.len() - 1].1);
                let found = series_open_nested_exec(&mut cur.series, &pth, &key);
                proof {
                    assert(path_models(pth@) == stack_models(stack@).last().1);
                }
                if found {
                    let mut pth2 = pth;
                    pth2.push(key);
                    let ghost oldstack = stack_models(stack@);
                    let ghost gp2 = pth2@;
                    stack.push((indent, pth2));
                    proof {
                        assert(path_models(pth2@) =~= oldstack.last().1.push(trim_spec(
                            line@.take(line@.len() - 1),
                        )));
                        assert(stack_models(stack@) =~~= oldstack.push(
                            (indent as int, oldstack.last().1.push(trim_spec(
                                line@.take(line@.len() - 1),
                            ))),
                        ));
                        assert forall|k: int|
                            0 <= k < stack@.len() implies #[trigger] stack@[k].1@.len() >= 1 by {
                            if k < prestack.len() {
                                assert(stack@[k] == prestack[k]);
                                assert(stack_models(prestack)[k] == pop_ge(
                                    st0.stack,
                                    indent as int,
                                )[k]);
                                assert(pop_ge(st0.stack, indent as int)[k] == st0.stack[k]);
                                assert(st0.stack[k].1.len() >= 1);
                                assert(stack_models(prestack)[k].1 == path_models(
                                    prestack[k].1@,
                                ));
                            } else {
                                assert(stack@[k].1@ == gp2);
                                assert(gp2.len() >= 1);
                            }
                        }
                    }
                } else {
                    series_push_new_exec(&mut cur.series, &key);
                    let mut pth3: Vec<Vec<u8>> = Vec::new();
                    pth3.push(key);
                    let ghost oldstack = stack_models(stack@);
                    stack.push((indent, pth3));
                    proof {
                        assert(stack_models(stack@) =~~= oldstack.push(
                            (indent as int, seq![trim_spec(line@.take(line@.len() - 1))]),
                        ));
                        assert forall|k: int|
                            0 <= k < stack@.len() implies #[trigger] stack@[k].1@.len() >= 1 by {
                            if k < prestack.len() {
                                assert(stack@[k] == prestack[k]);
                                assert(stack_models(prestack)[k] == pop_ge(
                                    st0.stack,
                                    indent as int,
                                )[k]);
                                assert(pop_ge(st0.stack, indent as int)[k] == st0.stack[k]);
                                assert(st0.stack[k].1.len() >= 1);
                                assert(stack_models(prestack)[k].1 == path_models(
                                    prestack[k].1@,
                                ));
                            }
                        }
                    }
                }
            }
            i = i + 1;
            continue;
        }
        if ws_byte(line[0]) || line[0] == 45 {
            let indent = leading_ws(raw.as_slice());
            proof {
                crate::bytes::lemma_trim_start_skip(lm[i as int], indent as int);
                assert(indent_of(lm[i as int]) == indent);
            }
            pop_stack_exec(&mut stack, indent);
            proof {
                lemma_pop_ge_prefix(st0.stack, indent as int);
                assert forall|k: int| 0 <= k < stack@.len() implies #[trigger] stack@[k].1@.len()
                    >= 1 by {
                    assert(stack_models(stack@)[k] == pop_ge(st0.stack, indent as int)[k]);
                    assert(pop_ge(st0.stack, indent as int)[k] == st0.stack[k]);
                    assert(st0.stack[k].1.len() >= 1);
                    assert(stack_models(stack@)[k].1 == path_models(stack@[k].1@));
                }
            }
            let mut handled = false;
            if stack.len() > 0 {
                let pth = clone_path(&stack[stack.len() - 1].1);
                let item: Vec<u8> = if line[0] == 45 {
                    let rest = copy_range(line.as_slice(), 1, line.len());
                    let t = trim(rest.as_slice());
                    proof {
                        assert(line@.subrange(1, line@.len() as int) =~= line@.skip(1));
                    }
                    t
                } else {
                    trim(line.as_slice())
                };
                let found = series_app_exec(&mut cur.series, &pth, Value::Str(item));
                proof {
                    assert(path_models(pth@) == stack_models(stack@).last().1);
                }
                if found {
                    handled = true;
                }
            }
            if handled {
                i = i + 1;
                continue;
            }
            match plain_line_exec(&mut cur.kv, &mut records, &line, env) {
                Some(e) => {
                    return Err(e);
                },
                None => {
                    i = i + 1;
                    continue;
                },
            }
        }
        stack = Vec::new();
        proof {
            assert(stack_models(stack@) =~= Seq::<(int, Seq<Seq<u8>>)>::empty());
        }
        match plain_line_exec(&mut cur.kv, &mut records, &line, env) {
            Some(e) => {
                return Err(e);
            },
            None => {
                i = i + 1;
            },
        }
    }
    let ghost st_end = st_of(sections@, has_cur, cur, records@, stack@, has_ml, ml_key@, ml_buf@);
    if has_cur {
        let mut prev = cur;
        prev.records = records;
        sections.push(prev);
        proof {
            assert(prev.model() == attach_records(st_end.cur->Some_0, st_end.records));
            assert(section_models_of(sections@) =~~= finish_pm(st_end));
        }
        let doc = RuneDocument { sections };
        return Ok(doc);
    }
    proof {
        assert(section_models_of(sections@) == finish_pm(st_end));
    }
    let doc = RuneDocument { sections };
    Ok(doc)
}

/// A fresh copy of a scope path.
fn clone_path(p: &Vec<Vec<u8>>) -> (r: Vec<Vec<u8>>)
    ensures
        path_models(r@) == path_models(p@),
        r@.len() == p@.len(),
{
    let mut out: Vec<Vec<u8>> = Vec::new();
    let mut i: usize = 0;
    #[verifier::loop_isolation(false)]
    while i < p.len()
        invariant
            0 <= i <= p@.len(),
            out@.len() == i,
            forall|j: int| 0 <= j < i ==> #[trigger] out@[j]@ == p@[j]@,
        decreases p@.len() - i,
    {
        out.push(clone_bytes(&p[i]));
        i = i + 1;
    }
    proof {
        assert(path_models(out@) =~= path_models(p@));
    }
    out
}

/// The key `statement` as bytes.
fn statement_key() -> (r: Vec<u8>)
    ensures
        r@ == stmt_lit(),
{
    let mut v: Vec<u8> = Vec::new();
    v.push(115);
    v.push(116);
    v.push(97);
    v.push(116);
    v.push(101);
    v.push(109);
    v.push(101);
    v.push(110);
    v.push(116);
    proof {
        assert(v@ =~= stmt_lit());
    }
    v
}

} // verus!
