use vstd::prelude::*;
use crate::bytes::{trim_spec, trim};
use crate::num::{Number, num_literal, rat_eq, parse_number};
use crate::value::{Value, Val, val_eq, value_eq, obj_lookup, obj_get, compare_bytes,
    entry_models_of};
use crate::doc::clone_value;
use crate::parse::{idx_of, lemma_idx_of};

verus! {

broadcast use {
    vstd::std_specs::vec::axiom_vec_index_decreases,
    vstd::std_specs::vec::axiom_vec_decreases_to_view,
    vstd::seq::axiom_seq_index_decreases,
};

/// The per-invocation variable environment: a string-keyed mapping of values,
/// exclusively owned by one execution.
pub type Context = Vec<(Vec<u8>, Value)>;

/// The model of a context.
pub open spec fn ctx_model(ctx: Seq<(Vec<u8>, Value)>) -> Seq<(Seq<u8>, Val)> {
    entry_models_of(ctx)
}

/// Lower-cases one ASCII byte.
pub open spec fn lower_byte(b: u8) -> u8 {
    if 65 <= b <= 90 {
        (b + 32) as u8
    } else {
        b
    }
}

/// The text, ASCII lower-cased.
pub open spec fn lower_bytes(s: Seq<u8>) -> Seq<u8> {
    s.map_values(|b: u8| lower_byte(b))
}

fn bytes_lower(s: &[u8]) -> (r: Vec<u8>)
    ensures
        r@ == lower_bytes(s@),
{
    let mut out: Vec<u8> = Vec::new();
    let mut i: usize = 0;
    #[verifier::loop_isolation(false)]
    while i < s.len()
        invariant
            0 <= i <= s@.len(),
            out@.len() == i,
            forall|j: int| 0 <= j < i ==> out@[j] == lower_byte(s@[j]),
        decreases s@.len() - i,
    {
        let b = s[i];
        if 65 <= b && b <= 90 {
            out.push(b + 32);
        } else {
            out.push(b);
        }
        i = i + 1;
    }
    proof {
        assert(out@ =~= lower_bytes(s@));
    }
    out
}

/// Loose equality: structural equality first, then the cross-type rules of
/// conditions: a number against a numeric string, a boolean against the
/// words `true` and `false` in any case, a number against a boolean taken as
/// one or zero, and two numeric strings compared as numbers.
pub open spec fn loose_eq_spec(a: Val, b: Val) -> bool {
    if val_eq(a, b) {
        true
    } else {
        match (a, b) {
            (Val::Num { n, d }, Val::Str(s)) => match num_literal(s) {
                Some((sn, sd)) => rat_eq(n, d, sn, sd),
                None => false,
            },
            (Val::Str(s), Val::Num { n, d }) => match num_literal(s) {
                Some((sn, sd)) => rat_eq(sn, sd, n, d),
                None => false,
            },
            (Val::Bool(x), Val::Str(s)) => {
                if lower_bytes(s) == crate::parse::true_lit() {
                    x == true
                } else if lower_bytes(s) == crate::parse::false_lit() {
                    x == false
                } else {
                    false
                }
            },
            (Val::Str(s), Val::Bool(x)) => {
                if lower_bytes(s) == crate::parse::true_lit() {
                    x == true
                } else if lower_bytes(s) == crate::parse::false_lit() {
                    x == false
                } else {
                    false
                }
            },
            (Val::Num { n, d }, Val::Bool(x)) => rat_eq(n, d, if x { 1 } else { 0 }, 1),
            (Val::Bool(x), Val::Num { n, d }) => rat_eq(if x { 1 } else { 0 }, 1, n, d),
            (Val::Str(s1), Val::Str(s2)) => match (num_literal(s1), num_literal(s2)) {
                (Some((n1, d1)), Some((n2, d2))) => rat_eq(n1, d1, n2, d2),
                _ => false,
            },
            _ => false,
        }
    }
}

/// Decides loose equality.
pub fn loose_eq(a: &Value, b: &Value) -> (r: bool)
    ensures
        r == loose_eq_spec(a.model(), b.model()),
{
    if value_eq(a, b) {
        return true;
    }
    match (a, b) {
        (Value::Num(x), Value::Str(s)) => match parse_number(s.as_slice()) {
            Some(y) => x.eq_num(&y),
            None => false,
        },
        (Value::Str(s), Value::Num(x)) => match parse_number(s.as_slice()) {
            Some(y) => y.eq_num(x),
            None => false,
        },
        (Value::Bool(x), Value::Str(s)) => {
            let l = bytes_lower(s.as_slice());
            if crate::parse::is_true_word(l.as_slice()) {
                *x == true
            } else if crate::parse::is_false_word(l.as_slice()) {
                *x == false
            } else {
                false
            }
        },
        (Value::Str(s), Value::Bool(x)) => {
            let l = bytes_lower(s.as_slice());
            if crate::parse::is_true_word(l.as_slice()) {
                *x == true
            } else if crate::parse::is_false_word(l.as_slice()) {
                *x == false
            } else {
                false
            }
        },
        (Value::Num(x), Value::Bool(b)) => {
            let y = Number::from_int(if *b { 1 } else { 0 });
            x.eq_num(&y)
        },
        (Value::Bool(b), Value::Num(x)) => {
            let y = Number::from_int(if *b { 1 } else { 0 });
            y.eq_num(x)
        },
        (Value::Str(s1), Value::Str(s2)) => {
            match (parse_number(s1.as_slice()), parse_number(s2.as_slice())) {
                (Some(x1), Some(x2)) => x1.eq_num(&x2),
                _ => false,
            }
        },
        _ => false,
    }
}

/// The bytes of the word `null`.
pub open spec fn null_lit() -> Seq<u8> {
    seq![110u8, 117u8, 108u8, 108u8]
}

/// The bytes of the word `it`.
pub open spec fn it_lit() -> Seq<u8> {
    seq![105u8, 116u8]
}

/// The bytes of the key `path.params`.
pub open spec fn pp_lit() -> Seq<u8> {
    seq![112u8, 97u8, 116u8, 104u8, 46u8, 112u8, 97u8, 114u8, 97u8, 109u8, 115u8]
}

fn null_word() -> (r: Vec<u8>)
    ensures
        r@ == null_lit(),
{
    let mut v: Vec<u8> = Vec::new();
    v.push(110);
    v.push(117);
    v.push(108);
    v.push(108);
    proof {
        assert(v@ =~= null_lit());
    }
    v
}

pub fn pp_word() -> (r: Vec<u8>)
    ensures
        r@ == pp_lit(),
{
    let mut v: Vec<u8> = Vec::new();
    v.push(112);
    v.push(97);
    v.push(116);
    v.push(104);
    v.push(46);
    v.push(112);
    v.push(97);
    v.push(114);
    v.push(97);
    v.push(109);
    v.push(115);
    proof {
        assert(v@ =~= pp_lit());
    }
    v
}

/// Splits an identifier on dots, without trimming.
pub open spec fn split_dot(s: Seq<u8>) -> Seq<Seq<u8>>
    decreases s.len(),
    via split_dot_dec
{
    let i = idx_of(s, 46);
    if i >= s.len() {
        seq![s]
    } else {
        seq![s.take(i)] + split_dot(s.skip(i + 1))
    }
}

#[via_fn]
proof fn split_dot_dec(s: Seq<u8>) {
    lemma_idx_of(s, 46);
}

fn split_dot_exec(s: &[u8]) -> (r: Vec<Vec<u8>>)
    ensures
        r.deep_view() == split_dot(s@),
        r@.len() >= 1,
{
    let mut out: Vec<Vec<u8>> = Vec::new();
    let mut start: usize = 0;
    let mut i: usize = 0;
    proof {
        assert(s@.skip(0) =~= s@);
    }
    #[verifier::loop_isolation(false)]
    while i < s.len()
        invariant
            0 <= start <= i <= s@.len(),
            forall|j: int| start <= j < i ==> s@[j] != 46,
            split_dot(s@) == out.deep_view() + split_dot(s@.skip(start as int)),
            out@.len() >= 1 ==> start >= 1,
        decreases s@.len() - i,
    {
        if s[i] == 46 {
            let seg = crate::bytes::copy_range(s, start, i);
            let ghost rest = s@.skip(start as int);
            let ghost preout = out.deep_view();
            out.push(seg);
            proof {
                crate::parse::lemma_idx_of_is(rest, 46, i - start);
                assert(rest.take(i - start) =~= s@.subrange(start as int, i as int));
                assert(rest.skip(i - start + 1) =~= s@.skip(i + 1));
                assert(out.deep_view() =~~= preout.push(s@.subrange(start as int, i as int)));
                assert(preout.push(rest.take(i - start)) + split_dot(s@.skip(i + 1)) =~= preout + (
                seq![rest.take(i - start)] + split_dot(s@.skip(i + 1))));
            }
            start = i + 1;
        }
        i = i + 1;
    }
    let seg = crate::bytes::copy_range(s, start, s.len());
    let ghost rest = s@.skip(start as int);
    let ghost preout = out.deep_view();
    out.push(seg);
    proof {
        crate::parse::lemma_idx_of_is(rest, 46, rest.len() as int);
        assert(rest.take(rest.len() as int) =~= rest);
        assert(rest =~= s@.subrange(start as int, s@.len() as int));
        assert(split_dot(rest) == seq![rest]);
        assert(out.deep_view() =~~= preout.push(rest));
        assert(preout.push(rest) =~= preout + seq![rest]);
    }
    out
}

/// Walks the remaining dotted segments into nested objects: each step fails
/// unless the value at hand is an object carrying the segment.
pub open spec fn walk_path_spec(v: Option<Val>, segs: Seq<Seq<u8>>, i: int) -> Option<Val>
    decreases segs.len() - i,
{
    if i < 0 || i >= segs.len() {
        v
    } else {
        match v {
            Some(Val::Obj(m)) => match obj_lookup(m, segs[i]) {
                Some(w) => walk_path_spec(Some(w), segs, i + 1),
                None => None,
            },
            _ => None,
        }
    }
}

/// What an identifier resolves to against a context: the literals `null`,
/// `true` and `false`, a quoted string, a numeric literal; else a dotted
/// path whose first segment is the iteration binder `it`, a context key, or
/// a bare path-parameter name, and whose remaining segments walk nested
/// objects.
pub open spec fn resolve_spec(ctx: Seq<(Seq<u8>, Val)>, ident: Seq<u8>, it: Option<Val>) -> Option<
    Val,
> {
    if ident == null_lit() {
        Some(Val::Null)
    } else if ident == crate::parse::true_lit() {
        Some(Val::Bool(true))
    } else if ident == crate::parse::false_lit() {
        Some(Val::Bool(false))
    } else if ident.len() >= 2 && ident[0] == 34 && ident.last() == 34 {
        Some(Val::Str(ident.subrange(1, ident.len() - 1)))
    } else {
        match num_literal(ident) {
            Some((n, d)) => Some(Val::Num { n, d }),
            None => {
                let segs = split_dot(ident);
                let base = if segs[0] == it_lit() {
                    it
                } else {
                    match obj_lookup(ctx, segs[0]) {
                        Some(w) => Some(w),
                        None => match obj_lookup(ctx, pp_lit()) {
                            Some(Val::Obj(m)) => obj_lookup(m, segs[0]),
                            _ => None,
                        },
                    }
                };
                if segs.len() == 1 {
                    base
                } else {
                    match base {
                        Some(w) => walk_path_spec(Some(w), segs, 1),
                        None => None,
                    }
                }
            },
        }
    }
}

/// Resolves an identifier against the context, and the iteration binder when
/// one is at hand.
pub fn resolve_path(ctx: &Context, ident: &[u8], it: Option<&Value>) -> (r: Option<Value>)
    ensures
        match r {
            Some(v) => resolve_spec(ctx_model(ctx@), ident@, model_of_opt(it)) == Some(v.model()),
            None => resolve_spec(ctx_model(ctx@), ident@, model_of_opt(it)) is None,
        },
{
    if compare_bytes(ident, null_word().as_slice()) {
        return Some(Value::Null);
    }
    if crate::parse::is_true_word(ident) {
        return Some(Value::Bool(true));
    }
    if crate::parse::is_false_word(ident) {
        return Some(Value::Bool(false));
    }
    if ident.len() >= 2 && ident[0] == 34 && ident[ident.len() - 1] == 34 {
        let inner = crate::bytes::copy_range(ident, 1, ident.len() - 1);
        return Some(Value::Str(inner));
    }
    match parse_number(ident) {
        Some(n) => {
            return Some(Value::Num(n));
        },
        None => {},
    }
    let segs = split_dot_exec(ident);
    proof {
        assert(segs.deep_view()[0] == segs@[0].deep_view());
        assert(segs@[0].deep_view() =~= segs@[0]@);
    }
    let mut base: Option<Value> = None;
    let s0 = &segs[0];
    if s0.len() == 2 && s0[0] == 105 && s0[1] == 116 {
        proof {
            assert(s0@ =~= it_lit());
        }
        base = match it {
            Some(v) => Some(clone_value(v)),
            None => None,
        };
    } else {
        proof {
            assert(s0@ != it_lit());
        }
        match obj_get(ctx, s0.as_slice()) {
            Some(v) => {
                base = Some(clone_value(v));
            },
            None => {
                match obj_get(ctx, pp_word().as_slice()) {
                    Some(pv) => {
                        match pv {
                            Value::Obj(m) => {
                                match obj_get(m, s0.as_slice()) {
                                    Some(w) => {
                                        base = Some(clone_value(w));
                                    },
                                    None => {},
                                }
                            },
                            _ => {},
                        }
                    },
                    None => {},
                }
            },
        }
    }
    if segs.len() == 1 {
        return base;
    }
    let mut cur: Option<Value> = base;
    let mut i: usize = 1;
    #[verifier::loop_isolation(false)]
    while i < segs.len()
        invariant
            1 <= i <= segs@.len(),
            walk_path_spec(model_of_owned(cur), segs.deep_view(), i as int)
                == resolve_spec(ctx_model(ctx@), ident@, model_of_opt(it)),
        decreases segs@.len() - i,
    {
        proof {
            assert(segs.deep_view()[i as int] == segs@[i as int].deep_view());
            assert(segs@[i as int].deep_view() =~= segs@[i as int]@);
        }
        let nxt: Option<Value> = match &cur {
            Some(Value::Obj(m)) => {
                match obj_get(m, segs[i].as_slice()) {
                    Some(w) => Some(clone_value(w)),
                    None => {
                        return None;
                    },
                }
            },
            _ => {
                return None;
            },
        };
        cur = nxt;
        i = i + 1;
    }
    cur
}

/// The model of an optional owned value.
pub open spec fn model_of_owned(v: Option<Value>) -> Option<Val> {
    match v {
        Some(x) => Some(x.model()),
        None => None,
    }
}

/// The model of an optional borrowed value.
pub open spec fn model_of_opt(v: Option<&Value>) -> Option<Val> {
    match v {
        Some(x) => Some(x.model()),
        None => None,
    }
}

/// Index of the first two-byte operator `c1 c2` in `s`, or the length.
pub open spec fn idx_of2(s: Seq<u8>, c1: u8, c2: u8) -> int
    decreases s.len(),
{
    if s.len() < 2 {
        s.len() as int
    } else if s[0] == c1 && s[1] == c2 {
        0
    } else {
        1 + idx_of2(s.drop_first(), c1, c2)
    }
}

proof fn lemma_idx_of2(s: Seq<u8>, c1: u8, c2: u8)
    ensures
        0 <= idx_of2(s, c1, c2) <= s.len(),
        idx_of2(s, c1, c2) + 1 < s.len() ==> s[idx_of2(s, c1, c2)] == c1 && s[idx_of2(s, c1, c2)
            + 1] == c2,
    decreases s.len(),
{
    if s.len() >= 2 && !(s[0] == c1 && s[1] == c2) {
        lemma_idx_of2(s.drop_first(), c1, c2);
    }
}

proof fn lemma_idx_of2_is(s: Seq<u8>, c1: u8, c2: u8, i: int)
    requires
        0 <= i <= s.len(),
        forall|j: int| 0 <= j < i && j + 1 < s.len() ==> !((#[trigger] s[j]) == c1 && s[j + 1]
            == c2),
        i + 1 < s.len() ==> s[i] == c1 && s[i + 1] == c2,
        i + 1 >= s.len() ==> i == s.len() || (i == s.len() - 1 && s.len() >= 1),
    ensures
        s.len() >= 2 && i + 1 < s.len() ==> idx_of2(s, c1, c2) == i,
        i + 1 >= s.len() ==> idx_of2(s, c1, c2) >= s.len() - 1,
    decreases i,
{
    if i > 0 && s.len() >= 2 {
        lemma_idx_of2_is(s.drop_first(), c1, c2, i - 1);
    }
}

/// First index of the two-byte pattern, if any.
pub fn find2(s: &[u8], c1: u8, c2: u8) -> (r: Option<usize>)
    ensures
        match r {
            Some(i) => i as int == idx_of2(s@, c1, c2) && i + 1 < s@.len(),
            None => idx_of2(s@, c1, c2) >= s@.len() - 1,
        },
{
    if s.len() < 2 {
        proof {
            lemma_idx_of2(s@, c1, c2);
        }
        return None;
    }
    let mut i: usize = 0;
    #[verifier::loop_isolation(false)]
    while i < s.len() - 1
        invariant
            0 <= i <= s@.len(),
            forall|j: int| 0 <= j < i && j + 1 < s@.len() ==> !((#[trigger] s@[j]) == c1 && s@[j
                + 1] == c2),
        decreases s@.len() - i,
    {
        if s[i] == c1 && s[i + 1] == c2 {
            proof {
                lemma_idx_of2_is(s@, c1, c2, i as int);
            }
            return Some(i);
        }
        i = i + 1;
    }
    proof {
        lemma_idx_of2_is(s@, c1, c2, i as int);
    }
    None
}

/// What a condition means: a comparison `left == right` or `left != right`
/// under path resolution and loose equality, unresolved sides standing as
/// null; text with neither operator is false.
pub open spec fn eval_condition_spec(
    ctx: Seq<(Seq<u8>, Val)>,
    expr: Seq<u8>,
    it: Option<Val>,
) -> bool {
    let pe = idx_of2(expr, 61, 61);
    let pn = idx_of2(expr, 33, 61);
    if pe + 1 < expr.len() {
        let lv = or_null(resolve_spec(ctx, trim_spec(expr.take(pe)), it));
        let rv = or_null(resolve_spec(ctx, trim_spec(expr.skip(pe + 2)), it));
        loose_eq_spec(lv, rv)
    } else if pn + 1 < expr.len() {
        let lv = or_null(resolve_spec(ctx, trim_spec(expr.take(pn)), it));
        let rv = or_null(resolve_spec(ctx, trim_spec(expr.skip(pn + 2)), it));
        !loose_eq_spec(lv, rv)
    } else {
        false
    }
}

/// An unresolved operand stands as null.
pub open spec fn or_null(v: Option<Val>) -> Val {
    match v {
        Some(x) => x,
        None => Val::Null,
    }
}

/// Evaluates a binary condition against the context.
pub fn eval_condition(ctx: &Context, expr: &[u8], it: Option<&Value>) -> (r: bool)
    ensures
        r == eval_condition_spec(ctx_model(ctx@), expr@, model_of_opt(it)),
{
    match find2(expr, 61, 61) {
        Some(p) => {
            let n = expr.len();
            let lpart = crate::bytes::copy_range(expr, 0, p);
            let l = trim(lpart.as_slice());
            let rpart = crate::bytes::copy_range(expr, p + 2, n);
            let rr = trim(rpart.as_slice());
            proof {
                assert(expr@.take(p as int) =~= expr@.subrange(0, p as int));
                assert(expr@.skip(p + 2) =~= expr@.subrange(p + 2, expr@.len() as int));
            }
            let lv = match resolve_path(ctx, l.as_slice(), it) {
                Some(v) => v,
                None => Value::Null,
            };
            let rv = match resolve_path(ctx, rr.as_slice(), it) {
                Some(v) => v,
                None => Value::Null,
            };
            loose_eq(&lv, &rv)
        },
        None => {
            match find2(expr, 33, 61) {
                Some(p) => {
                    let n = expr.len();
                    let lpart = crate::bytes::copy_range(expr, 0, p);
                    let l = trim(lpart.as_slice());
                    let rpart = crate::bytes::copy_range(expr, p + 2, n);
                    let rr = trim(rpart.as_slice());
                    proof {
                        assert(expr@.take(p as int) =~= expr@.subrange(0, p as int));
                        assert(expr@.skip(p + 2) =~= expr@.subrange(p + 2, expr@.len() as int));
                    }
                    let lv = match resolve_path(ctx, l.as_slice(), it) {
                        Some(v) => v,
                        None => Value::Null,
                    };
                    let rv = match resolve_path(ctx, rr.as_slice(), it) {
                        Some(v) => v,
                        None => Value::Null,
                    };
                    !loose_eq(&lv, &rv)
                },
                None => false,
            }
        },
    }
}

} // verus!
