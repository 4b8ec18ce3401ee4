use vstd::prelude::*;
use crate::num::{Number, rat_eq, trunc_ratio, dec_u, push_dec_u};

verus! {

broadcast use {
    vstd::std_specs::vec::axiom_vec_index_decreases,
    vstd::std_specs::vec::axiom_vec_decreases_to_view,
    vstd::seq::axiom_seq_index_decreases,
};

/// A dynamically typed datum: every literal and structured value that flows
/// through documents, contexts and steps is one of these variants.
pub enum Value {
    Null,
    Str(Vec<u8>),
    Num(Number),
    Bool(bool),
    List(Vec<Value>),
    Obj(Vec<(Vec<u8>, Value)>),
}

/// The mathematical shape of a `Value`: text as byte sequences, numbers as
/// exact ratios, lists and objects as sequences.  Contracts speak of this
/// model rather than of the executable representation.
pub ghost enum Val {
    Null,
    Str(Seq<u8>),
    Num { n: int, d: int },
    Bool(bool),
    List(Seq<Val>),
    Obj(Seq<(Seq<u8>, Val)>),
}

impl Value {
    /// The mathematical model of this value.
    pub open spec fn model(self) -> Val
        decreases self,
    {
        match self {
            Value::Null => Val::Null,
            Value::Str(s) => Val::Str(s@),
            Value::Num(x) => Val::Num { n: x.n(), d: x.d() },
            Value::Bool(b) => Val::Bool(b),
            Value::List(items) => Val::List(models_of(items@)),
            Value::Obj(entries) => Val::Obj(entry_models_of(entries@)),
        }
    }
}

/// The models of a sequence of values.
pub open spec fn models_of(s: Seq<Value>) -> Seq<Val>
    decreases s,
{
    if s.len() == 0 {
        Seq::empty()
    } else {
        seq![s[0].model()] + models_of(s.drop_first())
    }
}

/// The models of a sequence of keyed entries.
pub open spec fn entry_models_of(s: Seq<(Vec<u8>, Value)>) -> Seq<(Seq<u8>, Val)>
    decreases s,
{
    if s.len() == 0 {
        Seq::empty()
    } else {
        seq![(s[0].0@, s[0].1.model())] + entry_models_of(s.drop_first())
    }
}

/// `models_of` maps the sequence pointwise.
pub proof fn lemma_models_of(s: Seq<Value>)
    ensures
        models_of(s).len() == s.len(),
        forall|i: int| 0 <= i < s.len() ==> #[trigger] models_of(s)[i] == s[i].model(),
    decreases s,
{
    if s.len() > 0 {
        lemma_models_of(s.drop_first());
    }
}

/// `entry_models_of` maps the sequence pointwise.
pub proof fn lemma_entry_models_of(s: Seq<(Vec<u8>, Value)>)
    ensures
        entry_models_of(s).len() == s.len(),
        forall|i: int|
            0 <= i < s.len() ==> #[trigger] entry_models_of(s)[i] == (s[i].0@, s[i].1.model()),
    decreases s,
{
    if s.len() > 0 {
        lemma_entry_models_of(s.drop_first());
    }
}

/// The value bound to the first entry of `entries` whose key is `k`.
pub open spec fn obj_lookup(entries: Seq<(Seq<u8>, Val)>, k: Seq<u8>) -> Option<Val>
    decreases entries.len(),
{
    if entries.len() == 0 {
        None
    } else if entries[0].0 == k {
        Some(entries[0].1)
    } else {
        obj_lookup(entries.drop_first(), k)
    }
}

/// Structural equality of two values: numbers compare as ratios, objects
/// compare by key lookup with no regard to entry order.
pub open spec fn val_eq(a: Val, b: Val) -> bool
    decreases a,
{
    match (a, b) {
        (Val::Null, Val::Null) => true,
        (Val::Str(x), Val::Str(y)) => x == y,
        (Val::Num { n: n1, d: d1 }, Val::Num { n: n2, d: d2 }) => rat_eq(n1, d1, n2, d2),
        (Val::Bool(x), Val::Bool(y)) => x == y,
        (Val::List(x), Val::List(y)) => {
            &&& x.len() == y.len()
            &&& forall|i: int| 0 <= i < x.len() ==> val_eq(#[trigger] x[i], y[i])
        },
        (Val::Obj(x), Val::Obj(y)) => {
            &&& x.len() == y.len()
            &&& forall|i: int|
                0 <= i < x.len() ==> ((#[trigger] obj_lookup(y, x[i].0)) matches Some(w)
                    && val_eq(x[i].1, w))
        },
        _ => false,
    }
}

pub fn compare_bytes(a: &[u8], b: &[u8]) -> (r: bool)
    ensures
        r == (a@ == b@),
{
    if a.len() != b.len() {
        return false;
    }
    let mut i: usize = 0;
    #[verifier::loop_isolation(false)]
    while i < a.len()
        invariant
            0 <= i <= a@.len(),
            a@.len() == b@.len(),
            forall|j: int| 0 <= j < i ==> a@[j] == b@[j],
        decreases a@.len() - i,
    {
        if a[i] != b[i] {
            return false;
        }
        i = i + 1;
    }
    proof {
        assert(a@ =~= b@);
    }
    true
}

/// First entry of `entries` whose key is `key`, if any.
pub fn obj_get<'a>(entries: &'a Vec<(Vec<u8>, Value)>, key: &[u8]) -> (r: Option<&'a Value>)
    ensures
        match r {
            Some(v) => obj_lookup(entry_models_of(entries@), key@) == Some(v.model()),
            None => obj_lookup(entry_models_of(entries@), key@) is None,
        },
{
    let ghost m = entry_models_of(entries@);
    proof {
        lemma_entry_models_of(entries@);
        assert(m.skip(0) =~= m);
    }
    let mut i: usize = 0;
    #[verifier::loop_isolation(false)]
    while i < entries.len()
        invariant
            0 <= i <= entries@.len(),
            m.len() == entries@.len(),
            obj_lookup(m, key@) == obj_lookup(m.skip(i as int), key@),
        decreases entries@.len() - i,
    {
        proof {
            lemma_entry_models_of(entries@);
            assert(m.skip(i as int).drop_first() =~= m.skip(i as int + 1));
            assert(m.skip(i as int)[0] == m[i as int]);
        }
        if compare_bytes(entries[i].0.as_slice(), key) {
            return Some(&entries[i].1);
        }
        i = i + 1;
    }
    proof {
        assert(m.skip(i as int).len() == 0);
    }
    None
}

/// Replaces the first entry keyed `k`, or appends a new entry: the result of
/// `kv_insert_spec` over the old entries.
pub open spec fn kv_insert_spec(entries: Seq<(Seq<u8>, Val)>, k: Seq<u8>, v: Val) -> Seq<
    (Seq<u8>, Val),
>
    decreases entries.len(),
{
    if entries.len() == 0 {
        seq![(k, v)]
    } else if entries[0].0 == k {
        seq![(k, v)] + entries.drop_first()
    } else {
        seq![entries[0]] + kv_insert_spec(entries.drop_first(), k, v)
    }
}

pub fn kv_insert(entries: &mut Vec<(Vec<u8>, Value)>, k: Vec<u8>, v: Value)
    ensures
        entry_models_of(final(entries)@) == kv_insert_spec(entry_models_of(old(entries)@), k@, v.model()),
{
    let ghost m = entry_models_of(entries@);
    let ghost kk = k@;
    let ghost vv = v.model();
    proof {
        lemma_entry_models_of(entries@);
        assert(m.skip(0) =~= m);
        assert(m.take(0) =~= Seq::<(Seq<u8>, Val)>::empty());
        assert(kv_insert_spec(m, kk, vv) =~= m.take(0) + kv_insert_spec(m.skip(0), kk, vv));
    }
    let mut i: usize = 0;
    #[verifier::loop_isolation(false)]
    while i < entries.len()
        invariant
            0 <= i <= entries@.len(),
            m.len() == entries@.len(),
            entry_models_of(entries@) == m,
            k@ == kk,
            forall|j: int| 0 <= j < i ==> m[j].0 != kk,
            kv_insert_spec(m, kk, vv) == m.take(i as int) + kv_insert_spec(
                m.skip(i as int),
                kk,
                vv,
            ),
        decreases entries@.len() - i,
    {
        proof {
            lemma_entry_models_of(entries@);
            assert(m.skip(i as int)[0] == m[i as int]);
            assert(m.skip(i as int).drop_first() =~= m.skip(i as int + 1));
        }
        if compare_bytes(entries[i].0.as_slice(), k.as_slice()) {
            let ghost pre = entries@;
            entries.set(i, (k, v));
            proof {
                lemma_entry_models_of(pre);
                lemma_entry_models_of(entries@);
                assert(kv_insert_spec(m.skip(i as int), kk, vv) =~= seq![(kk, vv)] + m.skip(
                    i as int + 1,
                ));
                assert(entry_models_of(entries@) =~~= m.take(i as int) + (seq![(kk, vv)] + m.skip(
                    i as int + 1,
                )));
            }
            return ;
        }
        proof {
            assert(m.take(i as int + 1) =~= m.take(i as int) + seq![m[i as int]]);
            assert(m.take(i as int) + (seq![m[i as int]] + kv_insert_spec(
                m.skip(i as int + 1),
                kk,
                vv,
            )) =~= m.take(i as int + 1) + kv_insert_spec(m.skip(i as int + 1), kk, vv));
        }
        i = i + 1;
    }
    let ghost pre = entries@;
    entries.push((k, v));
    proof {
        lemma_entry_models_of(pre);
        lemma_entry_models_of(entries@);
        assert(m.skip(i as int).len() == 0);
        assert(kv_insert_spec(m.skip(i as int), kk, vv) =~= seq![(kk, vv)]);
        assert(m.take(i as int) =~= m);
        assert(entry_models_of(entries@) =~~= m + seq![(kk, vv)]);
        assert(m + seq![(kk, vv)] =~= m.take(i as int) + kv_insert_spec(m.skip(i as int), kk, vv));
    }
}


/// Decides structural equality of two values.
pub fn value_eq(a: &Value, b: &Value) -> (r: bool)
    ensures
        r == val_eq(a.model(), b.model()),
    decreases *a,
{
    match (a, b) {
        (Value::Null, Value::Null) => true,
        (Value::Str(x), Value::Str(y)) => compare_bytes(x.as_slice(), y.as_slice()),
        (Value::Num(x), Value::Num(y)) => x.eq_num(y),
        (Value::Bool(x), Value::Bool(y)) => *x == *y,
        (Value::List(x), Value::List(y)) => {
            if x.len() != y.len() {
                proof {
                    lemma_models_of(x@);
                    lemma_models_of(y@);
                }
                return false;
            }
            let ghost xm = models_of(x@);
            let ghost ym = models_of(y@);
            proof {
                lemma_models_of(x@);
                lemma_models_of(y@);
            }
            let mut i: usize = 0;
            #[verifier::loop_isolation(false)]
            while i < x.len()
                invariant
                    0 <= i <= x@.len(),
                    x@.len() == y@.len(),
                    forall|j: int| 0 <= j < i ==> val_eq(#[trigger] xm[j], ym[j]),
                decreases x@.len() - i,
            {
                if !value_eq(&x[i], &y[i]) {
                    proof {
                        assert(xm[i as int] == x@[i as int].model());
                        assert(ym[i as int] == y@[i as int].model());
                        assert(!val_eq(xm[i as int], ym[i as int]));
                    }
                    return false;
                }
                i = i + 1;
            }
            true
        },
        (Value::Obj(x), Value::Obj(y)) => {
            if x.len() != y.len() {
                proof {
                    lemma_entry_models_of(x@);
                    lemma_entry_models_of(y@);
                }
                return false;
            }
            let ghost xm = entry_models_of(x@);
            let ghost ym = entry_models_of(y@);
            proof {
                lemma_entry_models_of(x@);
                lemma_entry_models_of(y@);
            }
            let mut i: usize = 0;
            #[verifier::loop_isolation(false)]
            while i < x.len()
                invariant
                    0 <= i <= x@.len(),
                    x@.len() == y@.len(),
                    forall|j: int|
                        0 <= j < i ==> ((#[trigger] obj_lookup(ym, xm[j].0)) matches Some(w)
                            && val_eq(xm[j].1, w)),
                decreases x@.len() - i,
            {
                match obj_get(y, x[i].0.as_slice()) {
                    Some(w) => {
                        if !value_eq(&x[i].1, w) {
                            proof {
                                assert(xm[i as int] == (x@[i as int].0@, x@[i as int].1.model()));
                                assert(obj_lookup(ym, xm[i as int].0) == Some(w.model()));
                                assert(!val_eq(xm[i as int].1, w.model()));
                            }
                            return false;
                        }
                    },
                    None => {
                        proof {
                            assert(xm[i as int] == (x@[i as int].0@, x@[i as int].1.model()));
                            assert(obj_lookup(ym, xm[i as int].0) is None);
                        }
                        return false;
                    },
                }
                i = i + 1;
            }
            true
        },
        _ => {
            proof {
                match (a, b) {
                    (Value::List(x), _) => {
                        lemma_models_of(x@);
                    },
                    (Value::Obj(x), _) => {
                        lemma_entry_models_of(x@);
                    },
                    _ => {},
                }
            }
            false
        },
    }
}


impl Value {
    /// The string's bytes, for a string value.
    pub fn as_str(&self) -> (r: Option<&Vec<u8>>)
        ensures
            match r {
                Some(s) => self.model() == Val::Str(s@),
                None => !(self.model() is Str),
            },
    {
        match self {
            Value::Str(s) => Some(s),
            _ => None,
        }
    }

    /// The boolean, for a boolean value.
    pub fn as_bool(&self) -> (r: Option<bool>)
        ensures
            match r {
                Some(b) => self.model() == Val::Bool(b),
                None => !(self.model() is Bool),
            },
    {
        match self {
            Value::Bool(b) => Some(*b),
            _ => None,
        }
    }

    /// The elements, for a list value.
    pub fn as_list(&self) -> (r: Option<&Vec<Value>>)
        ensures
            match r {
                Some(items) => self.model() == Val::List(models_of(items@)),
                None => !(self.model() is List),
            },
    {
        match self {
            Value::List(items) => Some(items),
            _ => None,
        }
    }

    /// The number truncated toward zero, for a well-formed number.
    pub fn as_i64(&self) -> (r: Option<i64>)
        ensures
            match r {
                Some(v) => self.model() matches Val::Num { n, d } && d >= 1 && v as int
                    == trunc_ratio(n, d),
                None => !(self.model() matches Val::Num { n, d } && d >= 1),
            },
    {
        match self {
            Value::Num(x) => {
                if x.wf_exec() {
                    Some(x.trunc_i64())
                } else {
                    None
                }
            },
            _ => None,
        }
    }

    /// The number truncated toward zero and clamped below at zero, for a
    /// well-formed number.
    pub fn as_u64(&self) -> (r: Option<u64>)
        ensures
            match r {
                Some(v) => self.model() matches Val::Num { n, d } && d >= 1 && v as int == (if
                    trunc_ratio(n, d) >= 0 {
                    trunc_ratio(n, d)
                } else {
                    0int
                }),
                None => !(self.model() matches Val::Num { n, d } && d >= 1),
            },
    {
        match self {
            Value::Num(x) => {
                if x.wf_exec() {
                    let t = x.trunc_i64();
                    if t >= 0 {
                        Some(t as u64)
                    } else {
                        Some(0)
                    }
                } else {
                    None
                }
            },
            _ => None,
        }
    }

    /// The entries of an object, or a list viewed as an object keyed by the
    /// decimal text of each position.
    pub fn as_map(&self) -> (r: Option<Vec<(Vec<u8>, Value)>>)
        ensures
            match r {
                Some(entries) => match self.model() {
                    Val::Obj(m) => entry_models_of(entries@) == m,
                    Val::List(items) => entry_models_of(entries@) == Seq::new(
                        items.len(),
                        |i: int| (dec_u(i), items[i]),
                    ),
                    _ => false,
                },
                None => !(self.model() is Obj) && !(self.model() is List),
            },
    {
        match self {
            Value::Obj(entries) => Some(crate::doc::clone_entries(entries)),
            Value::List(items) => {
                let ghost m = models_of(items@);
                proof {
                    lemma_models_of(items@);
                }
                let mut out: Vec<(Vec<u8>, Value)> = Vec::new();
                let mut i: usize = 0;
                #[verifier::loop_isolation(false)]
                while i < items.len()
                    invariant
                        0 <= i <= items@.len(),
                        out@.len() == i,
                        forall|j: int|
                            0 <= j < i ==> #[trigger] out@[j].0@ == dec_u(j) && out@[j].1.model()
                                == m[j],
                    decreases items@.len() - i,
                {
                    let mut key: Vec<u8> = Vec::new();
                    push_dec_u(&mut key, i as u64);
                    let c = crate::doc::clone_value(&items[i]);
                    out.push((key, c));
                    i = i + 1;
                }
                proof {
                    lemma_entry_models_of(out@);
                    assert(entry_models_of(out@) =~~= Seq::new(m.len(), |j: int| (dec_u(j), m[j])));
                }
                Some(out)
            },
            _ => None,
        }
    }
}

} // verus!
