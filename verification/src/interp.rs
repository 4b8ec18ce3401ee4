use vstd::prelude::*;
use vstd::string::StringSliceAdditionalSpecFns;
use vstd::string::StrSliceExecFns;
use crate::bytes::{trim, trim_spec, ws_tokens, split_ws};
use crate::num::{Number, num_literal, parse_number, digits_val, all_digits, is_digit};
use crate::value::{Value, Val, models_of, entry_models_of, lemma_models_of, lemma_entry_models_of,
    obj_lookup, kv_insert_spec, kv_insert, obj_get, compare_bytes};
use crate::doc::{Section, SectionModel, RuneDocument, clone_bytes, clone_value};
use crate::ctx::{Context, ctx_model, resolve_spec, resolve_path, loose_eq_spec, loose_eq, or_null,
    eval_condition, eval_condition_spec};
use crate::jsontext::{json_text, to_json};

verus! {

broadcast use {
    vstd::std_specs::vec::axiom_vec_index_decreases,
    vstd::std_specs::vec::axiom_vec_decreases_to_view,
    vstd::seq::axiom_seq_index_decreases,
};

/// The outcome of one builtin call: continue, terminate with a response, or
/// terminate with an error (which callers turn into a 500 response).
pub enum BuiltinResult {
    Okay,
    Respond(u16, Vec<u8>),
    Error(Vec<u8>),
}

/// The model of a builtin outcome.
pub ghost enum BRes {
    Okay,
    Respond(int, Seq<u8>),
    Error(Seq<u8>),
}

impl BuiltinResult {
    pub open spec fn model(self) -> BRes {
        match self {
            BuiltinResult::Okay => BRes::Okay,
            BuiltinResult::Respond(c, m) => BRes::Respond(c as int, m@),
            BuiltinResult::Error(m) => BRes::Error(m@),
        }
    }
}

/// The process-wide key/value store builtins read and write; the service
/// owns one such store across requests.
pub type MemoryStore = Vec<(Vec<u8>, Value)>;

/// Stores a value under a key.
pub fn set_memory(store: &mut MemoryStore, key: Vec<u8>, value: Value)
    ensures
        entry_models_of(final(store)@) == kv_insert_spec(
            entry_models_of(old(store)@),
            key@,
            value.model(),
        ),
{
    kv_insert(store, key, value);
}

/// The value stored under a key, if any.
pub fn get_memory<'a>(store: &'a MemoryStore, key: &[u8]) -> (r: Option<&'a Value>)
    ensures
        match r {
            Some(v) => obj_lookup(entry_models_of(store@), key@) == Some(v.model()),
            None => obj_lookup(entry_models_of(store@), key@) is None,
        },
{
    obj_get(store, key)
}

/// What a running service hands each execution: the document and its named
/// schema and data-source sections.
pub struct AppState {
    pub doc: RuneDocument,
    pub schemas: Vec<(Vec<u8>, Section)>,
    pub data_sources: Vec<(Vec<u8>, Section)>,
}

/// The models of named sections.
pub open spec fn named_secs_model(s: Seq<(Vec<u8>, Section)>) -> Seq<(Seq<u8>, SectionModel)> {
    Seq::new(s.len(), |i: int| (s[i].0@, s[i].1.model()))
}

/// The first section with the given name.
pub open spec fn sec_lookup(m: Seq<(Seq<u8>, SectionModel)>, name: Seq<u8>) -> Option<SectionModel>
    decreases m.len(),
{
    if m.len() == 0 {
        None
    } else if m[0].0 == name {
        Some(m[0].1)
    } else {
        sec_lookup(m.drop_first(), name)
    }
}

fn sec_get<'a>(secs: &'a Vec<(Vec<u8>, Section)>, name: &[u8]) -> (r: Option<&'a Section>)
    ensures
        match r {
            Some(sec) => sec_lookup(named_secs_model(secs@), name@) == Some(sec.model()),
            None => sec_lookup(named_secs_model(secs@), name@) is None,
        },
{
    let ghost m = named_secs_model(secs@);
    let mut i: usize = 0;
    proof {
        assert(m.skip(0) =~= m);
    }
    #[verifier::loop_isolation(false)]
    while i < secs.len()
        invariant
            0 <= i <= secs@.len(),
            m.len() == secs@.len(),
            sec_lookup(m, name@) == sec_lookup(m.skip(i as int), name@),
        decreases secs@.len() - i,
    {
        proof {
            assert(m.skip(i as int)[0] == m[i as int]);
            assert(m.skip(i as int).drop_first() =~= m.skip(i as int + 1));
        }
        if compare_bytes(secs[i].0.as_slice(), name) {
            return Some(&secs[i].1);
        }
        i = i + 1;
    }
    proof {
        assert(m.skip(i as int).len() == 0);
    }
    None
}

/// What one builtin call leaves behind: the context, the store, and its
/// outcome.
pub ghost struct CallOut {
    pub ctx: Seq<(Seq<u8>, Val)>,
    pub store: Seq<(Seq<u8>, Val)>,
    pub res: BRes,
}

/// The UTF-8 bytes of a fixed text.
pub fn lit(s: &str) -> (r: Vec<u8>)
    ensures
        r@ == s.spec_bytes(),
{
    s.as_bytes_vec()
}

/// Whether `s` equals the bytes of a fixed text.
pub fn is_lit(s: &[u8], t: &str) -> (r: bool)
    ensures
        r == (s@ == t.spec_bytes()),
{
    let v = lit(t);
    compare_bytes(s, v.as_slice())
}

/// The tokens joined back by single spaces.
pub open spec fn join_sp(args: Seq<Seq<u8>>) -> Seq<u8>
    decreases args.len(),
{
    if args.len() == 0 {
        Seq::empty()
    } else if args.len() == 1 {
        args[0]
    } else {
        join_sp(args.drop_last()) + seq![32u8] + args.last()
    }
}

fn join_sp_exec(args: &Vec<Vec<u8>>) -> (r: Vec<u8>)
    ensures
        r@ == join_sp(args.deep_view()),
{
    let ghost m = args.deep_view();
    let mut out: Vec<u8> = Vec::new();
    let mut i: usize = 0;
    proof {
        assert(out@ =~= join_sp(m.take(0)));
    }
    #[verifier::loop_isolation(false)]
    while i < args.len()
        invariant
            0 <= i <= args@.len(),
            m.len() == args@.len(),
            out@ == join_sp(m.take(i as int)),
        decreases args@.len() - i,
    {
        let ghost pre = out@;
        if i > 0 {
            out.push(32);
        }
        let a = &args[i];
        let mut j: usize = 0;
        let ghost mid = out@;
        #[verifier::loop_isolation(false)]
        while j < a.len()
            invariant
                0 <= j <= a@.len(),
                out@ == mid + a@.take(j as int),
            decreases a@.len() - j,
        {
            out.push(a[j]);
            proof {
                assert(a@.take(j + 1) =~= a@.take(j as int) + seq![a@[j as int]]);
            }
            j = j + 1;
        }
        proof {
            assert(a@.take(a@.len() as int) =~= a@);
            assert(m[i as int] =~= a@);
            assert(m.take(i + 1).drop_last() =~= m.take(i as int));
            assert(m.take(i + 1).last() == m[i as int]);
            if i == 0 {
                assert(out@ =~= join_sp(m.take(1)));
            } else {
                assert(out@ =~= pre + seq![32u8] + m[i as int]);
            }
        }
        i = i + 1;
    }
    proof {
        assert(m.take(i as int) =~= m);
    }
    out
}

/// Re-joins quoted token runs and strips their surrounding quotes: tokens
/// arriving from naive whitespace splitting are combined from an opening
/// quote to the first token that ends with an unescaped quote.
pub open spec fn join_quoted(
    args: Seq<Seq<u8>>,
    i: int,
    inq: bool,
    cur: Seq<u8>,
    acc: Seq<Seq<u8>>,
) -> Seq<Seq<u8>>
    decreases args.len() - i,
{
    if i < 0 || i >= args.len() {
        if inq && cur.len() > 0 {
            acc.push(cur)
        } else {
            acc
        }
    } else {
        let a = args[i];
        if inq {
            let cur2 = cur + seq![32u8] + a;
            if ends_quote(a) {
                let t = trim_spec(cur2);
                if t.len() >= 2 && t[0] == 34 && t.last() == 34 {
                    join_quoted(args, i + 1, false, Seq::empty(), acc.push(t.subrange(1, t.len() - 1)))
                } else {
                    join_quoted(args, i + 1, false, Seq::empty(), acc.push(cur2))
                }
            } else {
                join_quoted(args, i + 1, true, cur2, acc)
            }
        } else if a.len() > 0 && a[0] == 34 && !(a.len() > 0 && a.last() == 34) {
            join_quoted(args, i + 1, true, a, acc)
        } else if a.len() >= 2 && a[0] == 34 && a.last() == 34 {
            join_quoted(args, i + 1, false, cur, acc.push(a.subrange(1, a.len() - 1)))
        } else {
            join_quoted(args, i + 1, false, cur, acc.push(a))
        }
    }
}

/// The token ends with a quote that is not escaped.
pub open spec fn ends_quote(a: Seq<u8>) -> bool {
    a.len() > 0 && a.last() == 34 && !(a.len() >= 2 && a[a.len() - 2] == 92 && a.last() == 34)
}

fn ends_quote_exec(a: &[u8]) -> (r: bool)
    ensures
        r == ends_quote(a@),
{
    a.len() > 0 && a[a.len() - 1] == 34 && !(a.len() >= 2 && a[a.len() - 2] == 92)
}

fn append_bytes(out: &mut Vec<u8>, s: &[u8])
    ensures
        final(out)@ == old(out)@ + s@,
{
    let mut i: usize = 0;
    #[verifier::loop_isolation(false)]
    while i < s.len()
        invariant
            0 <= i <= s@.len(),
            out@ == old(out)@ + s@.take(i as int),
        decreases s@.len() - i,
    {
        out.push(s[i]);
        proof {
            assert(s@.take(i + 1) =~= s@.take(i as int) + seq![s@[i as int]]);
        }
        i = i + 1;
    }
    proof {
        assert(s@.take(i as int) =~= s@);
    }
}

/// Applies the quote re-joining rule to raw argument tokens.
pub fn preprocess_args(args: &Vec<Vec<u8>>) -> (r: Vec<Vec<u8>>)
    ensures
        r.deep_view() == join_quoted(args.deep_view(), 0, false, Seq::empty(), Seq::empty()),
{
    let ghost m = args.deep_view();
    let mut acc: Vec<Vec<u8>> = Vec::new();
    let mut cur: Vec<u8> = Vec::new();
    let mut inq = false;
    let mut i: usize = 0;
    proof {
        assert(acc.deep_view() =~= Seq::<Seq<u8>>::empty());
        assert(cur@ =~= Seq::<u8>::empty());
    }
    #[verifier::loop_isolation(false)]
    while i < args.len()
        invariant
            0 <= i <= args@.len(),
            m.len() == args@.len(),
            join_quoted(m, 0, false, Seq::empty(), Seq::empty()) == join_quoted(
                m,
                i as int,
                inq,
                cur@,
                acc.deep_view(),
            ),
        decreases args@.len() - i,
    {
        let a = &args[i];
        let ghost oldcur = cur@;
        proof {
            assert(m[i as int] == args@[i as int].deep_view());
            assert(args@[i as int].deep_view() =~= a@);
        }
        if inq {
            cur.push(32);
            append_bytes(&mut cur, a.as_slice());
            proof {
                assert(cur@ =~= (oldcur + seq![32u8]) + a@);
                assert((oldcur + seq![32u8]) + a@ =~= oldcur + seq![32u8] + a@);
            }
            if ends_quote_exec(a.as_slice()) {
                let t = trim(cur.as_slice());
                let ghost preacc = acc.deep_view();
                if t.len() >= 2 && t[0] == 34 && t[t.len() - 1] == 34 {
                    let inner = crate::bytes::copy_range(t.as_slice(), 1, t.len() - 1);
                    acc.push(inner);
                    proof {
                        assert(acc.deep_view() =~~= preacc.push(t@.subrange(1, t@.len() - 1)));
                    }
                } else {
                    let ghost gcur = cur@;
                    acc.push(cur);
                    proof {
                        assert(acc.deep_view() =~~= preacc.push(gcur));
                    }
                    cur = Vec::new();
                }
                cur = Vec::new();
                inq = false;
                proof {
                    assert(cur@ =~= Seq::<u8>::empty());
                }
            }
        } else if a.len() > 0 && a[0] == 34 && !(a[a.len() - 1] == 34) {
            inq = true;
            cur = clone_bytes(a);
        } else if a.len() >= 2 && a[0] == 34 && a[a.len() - 1] == 34 {
            let inner = crate::bytes::copy_range(a.as_slice(), 1, a.len() - 1);
            let ghost preacc = acc.deep_view();
            acc.push(inner);
            proof {
                assert(acc.deep_view() =~~= preacc.push(a@.subrange(1, a@.len() - 1)));
            }
        } else {
            let ghost preacc = acc.deep_view();
            acc.push(clone_bytes(a));
            proof {
                assert(acc.deep_view() =~~= preacc.push(a@));
            }
        }
        i = i + 1;
    }
    if inq && cur.len() > 0 {
        let ghost preacc = acc.deep_view();
        acc.push(cur);
        proof {
            assert(acc.deep_view() =~~= preacc.push(acc@.last()@));
        }
    }
    acc
}


/// The comparison a condition's tokens denote: the re-joined text split at
/// its first `==` or `!=`, both sides trimmed.
pub open spec fn parse_cmp(args: Seq<Seq<u8>>) -> Option<(Seq<u8>, bool, Seq<u8>)> {
    let joined = join_sp(args);
    let pe = crate::ctx::idx_of2(joined, 61, 61);
    let pn = crate::ctx::idx_of2(joined, 33, 61);
    if pe + 1 < joined.len() {
        Some((trim_spec(joined.take(pe)), true, trim_spec(joined.skip(pe + 2))))
    } else if pn + 1 < joined.len() {
        Some((trim_spec(joined.take(pn)), false, trim_spec(joined.skip(pn + 2))))
    } else {
        None
    }
}

fn parse_cmp_exec(args: &Vec<Vec<u8>>) -> (r: Option<(Vec<u8>, bool, Vec<u8>)>)
    ensures
        match r {
            Some(t) => parse_cmp(args.deep_view()) == Some((t.0@, t.1, t.2@)),
            None => parse_cmp(args.deep_view()) is None,
        },
{
    let joined = join_sp_exec(args);
    let n = joined.len();
    match crate::ctx::find2(joined.as_slice(), 61, 61) {
        Some(p) => {
            let lp = crate::bytes::copy_range(joined.as_slice(), 0, p);
            let rp = crate::bytes::copy_range(joined.as_slice(), p + 2, n);
            proof {
                assert(joined@.take(p as int) =~= joined@.subrange(0, p as int));
                assert(joined@.skip(p + 2) =~= joined@.subrange(p + 2, joined@.len() as int));
            }
            Some((trim(lp.as_slice()), true, trim(rp.as_slice())))
        },
        None => {
            match crate::ctx::find2(joined.as_slice(), 33, 61) {
                Some(p) => {
                    let lp = crate::bytes::copy_range(joined.as_slice(), 0, p);
                    let rp = crate::bytes::copy_range(joined.as_slice(), p + 2, n);
                    proof {
                        assert(joined@.take(p as int) =~= joined@.subrange(0, p as int));
                        assert(joined@.skip(p + 2) =~= joined@.subrange(
                            p + 2,
                            joined@.len() as int,
                        ));
                    }
                    Some((trim(lp.as_slice()), false, trim(rp.as_slice())))
                },
                None => None,
            }
        },
    }
}

/// Whether a comparison holds of one array element bound as `it`.
pub open spec fn cmp_holds(
    ctxm: Seq<(Seq<u8>, Val)>,
    it: Val,
    l: Seq<u8>,
    r: Seq<u8>,
    eq: bool,
) -> bool {
    let b = loose_eq_spec(
        or_null(resolve_spec(ctxm, l, Some(it))),
        or_null(resolve_spec(ctxm, r, Some(it))),
    );
    if eq {
        b
    } else {
        !b
    }
}

fn cmp_holds_exec(ctx: &Context, it: &Value, l: &[u8], r: &[u8], eq: bool) -> (b: bool)
    ensures
        b == cmp_holds(ctx_model(ctx@), it.model(), l@, r@, eq),
{
    let lv = match resolve_path(ctx, l, Some(it)) {
        Some(v) => v,
        None => Value::Null,
    };
    let rv = match resolve_path(ctx, r, Some(it)) {
        Some(v) => v,
        None => Value::Null,
    };
    let b = loose_eq(&lv, &rv);
    if eq {
        b
    } else {
        !b
    }
}

/// Index of the first element satisfying the comparison, or the length.
pub open spec fn find_idx(
    ctxm: Seq<(Seq<u8>, Val)>,
    items: Seq<Val>,
    i: int,
    l: Seq<u8>,
    r: Seq<u8>,
    eq: bool,
) -> int
    decreases items.len() - i,
{
    if i < 0 || i >= items.len() {
        items.len() as int
    } else if cmp_holds(ctxm, items[i], l, r, eq) {
        i
    } else {
        find_idx(ctxm, items, i + 1, l, r, eq)
    }
}

proof fn lemma_find_idx_bounds(
    ctxm: Seq<(Seq<u8>, Val)>,
    items: Seq<Val>,
    i: int,
    l: Seq<u8>,
    r: Seq<u8>,
    eq: bool,
)
    requires
        0 <= i <= items.len(),
    ensures
        i <= find_idx(ctxm, items, i, l, r, eq) <= items.len(),
    decreases items.len() - i,
{
    if i < items.len() && !cmp_holds(ctxm, items[i], l, r, eq) {
        lemma_find_idx_bounds(ctxm, items, i + 1, l, r, eq);
    }
}

/// The element ratio `max` folds over: a named field of an object element,
/// or the element itself, zero where neither is a number.
pub open spec fn item_rat(v: Val, field: Option<Seq<u8>>) -> (int, int) {
    match field {
        Some(f) => match v {
            Val::Obj(m) => match obj_lookup(m, f) {
                Some(Val::Num { n, d }) => (n, d),
                _ => (0, 1),
            },
            _ => (0, 1),
        },
        None => match v {
            Val::Num { n, d } => (n, d),
            _ => (0, 1),
        },
    }
}

/// The running maximum of element ratios from index `i`, starting from the
/// accumulated ratio; a later strictly greater value replaces it.
pub open spec fn max_from(
    items: Seq<Val>,
    i: int,
    an: int,
    ad: int,
    field: Option<Seq<u8>>,
) -> (int, int)
    decreases items.len() - i,
{
    if i < 0 || i >= items.len() {
        (an, ad)
    } else {
        let vr = item_rat(items[i], field);
        if an * vr.1 < vr.0 * ad {
            max_from(items, i + 1, vr.0, vr.1, field)
        } else {
            max_from(items, i + 1, an, ad, field)
        }
    }
}

/// The text with every leading `it.` prefix removed.
pub open spec fn strip_it_dots(s: Seq<u8>) -> Seq<u8>
    decreases s.len(),
{
    if s.len() >= 3 && s[0] == 105 && s[1] == 116 && s[2] == 46 {
        strip_it_dots(s.skip(3))
    } else {
        s
    }
}

fn strip_it_dots_exec(s: &[u8]) -> (r: Vec<u8>)
    ensures
        r@ == strip_it_dots(s@),
{
    let mut a: usize = 0;
    proof {
        assert(s@.skip(0) =~= s@);
    }
    #[verifier::loop_isolation(false)]
    while a < s.len() && s.len() - a >= 3 && s[a] == 105 && s[a + 1] == 116 && s[a + 2] == 46
        invariant
            0 <= a <= s@.len(),
            strip_it_dots(s@) == strip_it_dots(s@.skip(a as int)),
        decreases s@.len() - a,
    {
        proof {
            assert(s@.skip(a as int).skip(3) =~= s@.skip(a + 3));
        }
        a = a + 3;
    }
    let r = crate::bytes::copy_range(s, a, s.len());
    proof {
        assert(s@.skip(a as int) =~= s@.subrange(a as int, s@.len() as int));
    }
    r
}

/// The text with every leading dot removed.
pub open spec fn strip_dots(s: Seq<u8>) -> Seq<u8>
    decreases s.len(),
{
    if s.len() >= 1 && s[0] == 46 {
        strip_dots(s.drop_first())
    } else {
        s
    }
}

fn strip_dots_exec(s: &[u8]) -> (r: Vec<u8>)
    ensures
        r@ == strip_dots(s@),
{
    let mut a: usize = 0;
    proof {
        assert(s@.skip(0) =~= s@);
    }
    #[verifier::loop_isolation(false)]
    while a < s.len() && s[a] == 46
        invariant
            0 <= a <= s@.len(),
            strip_dots(s@) == strip_dots(s@.skip(a as int)),
        decreases s@.len() - a,
    {
        proof {
            assert(s@.skip(a as int).drop_first() =~= s@.skip(a + 1));
        }
        a = a + 1;
    }
    let r = crate::bytes::copy_range(s, a, s.len());
    proof {
        assert(s@.skip(a as int) =~= s@.subrange(a as int, s@.len() as int));
    }
    r
}

/// The text with every leading hash removed.
pub open spec fn strip_hashes(s: Seq<u8>) -> Seq<u8>
    decreases s.len(),
{
    if s.len() >= 1 && s[0] == 35 {
        strip_hashes(s.drop_first())
    } else {
        s
    }
}

fn strip_hashes_exec(s: &[u8]) -> (r: Vec<u8>)
    ensures
        r@ == strip_hashes(s@),
{
    let mut a: usize = 0;
    proof {
        assert(s@.skip(0) =~= s@);
    }
    #[verifier::loop_isolation(false)]
    while a < s.len() && s[a] == 35
        invariant
            0 <= a <= s@.len(),
            strip_hashes(s@) == strip_hashes(s@.skip(a as int)),
        decreases s@.len() - a,
    {
        proof {
            assert(s@.skip(a as int).drop_first() =~= s@.skip(a + 1));
        }
        a = a + 1;
    }
    let r = crate::bytes::copy_range(s, a, s.len());
    proof {
        assert(s@.skip(a as int) =~= s@.subrange(a as int, s@.len() as int));
    }
    r
}

/// The field `max` reads: the token after a lone `it`, or the tail of an
/// `it.`-prefixed token, or nothing.
pub open spec fn max_field(args: Seq<Seq<u8>>) -> Option<Seq<u8>> {
    if args.len() >= 1 && args[0] == "it".spec_bytes() {
        if args.len() >= 2 {
            Some(strip_dots(args[1]))
        } else {
            None
        }
    } else if args.len() >= 1 && args[0].len() >= 3 && args[0].take(3) == seq![
        105u8,
        116u8,
        46u8,
    ] {
        Some(strip_it_dots(args[0]))
    } else {
        None
    }
}

/// A status code literal: an optional plus sign and decimal digits denoting
/// a value up to the largest status.
pub open spec fn u16_literal(s: Seq<u8>) -> Option<int> {
    let b = if s.len() > 0 && s[0] == 43 {
        s.drop_first()
    } else {
        s
    };
    if b.len() >= 1 && all_digits(b) && digits_val(b) <= 65535 {
        Some(digits_val(b))
    } else {
        None
    }
}

fn parse_u16(s: &[u8]) -> (r: Option<u16>)
    ensures
        match r {
            Some(c) => u16_literal(s@) == Some(c as int),
            None => u16_literal(s@) is None,
        },
{
    let start: usize = if s.len() > 0 && s[0] == 43 {
        1
    } else {
        0
    };
    let ghost b = s@.skip(start as int);
    proof {
        if start == 1 {
            assert(s@.drop_first() =~= s@.skip(1));
        } else {
            assert(s@.skip(0) =~= s@);
        }
    }
    if start == s.len() {
        proof {
            assert(b.len() == 0);
        }
        return None;
    }
    let mut acc: u32 = 0;
    let mut ovf = false;
    let mut i: usize = start;
    proof {
        assert(b.take(0) =~= Seq::<u8>::empty());
    }
    #[verifier::loop_isolation(false)]
    while i < s.len()
        invariant
            start <= i <= s@.len(),
            all_digits(b.take(i - start)),
            !ovf ==> acc == digits_val(b.take(i - start)) && acc <= 65535,
            ovf ==> digits_val(b.take(i - start)) > 65535,
        decreases s@.len() - i,
    {
        let c = s[i];
        if !(48 <= c && c <= 57) {
            proof {
                assert(b[i - start] == s@[i as int]);
                assert(!all_digits(b));
            }
            return None;
        }
        proof {
            assert(b.take(i - start + 1).drop_last() =~= b.take(i - start));
            assert(b.take(i - start + 1).last() == s@[i as int]);
            assert forall|j: int| 0 <= j < i - start + 1 implies is_digit(
                #[trigger] b.take(i - start + 1)[j],
            ) by {
                if j < i - start {
                    assert(is_digit(b.take(i - start)[j]));
                }
            }
        }
        if ovf {
            proof {
                assert(digits_val(b.take(i - start + 1)) == digits_val(b.take(i - start)) * 10 + (
                s@[i as int] - 48));
                assert(digits_val(b.take(i - start)) * 10 > 65535 * 10) by (nonlinear_arith)
                    requires
                        digits_val(b.take(i - start)) > 65535,
                ;
            }
        } else {
            let d = (c - 48) as u32;
            if acc > 6553 || (acc == 6553 && d > 5) {
                ovf = true;
                proof {
                    assert(digits_val(b.take(i - start + 1)) == digits_val(b.take(i - start)) * 10
                        + (s@[i as int] - 48));
                    assert(acc * 10 + d > 65535) by (nonlinear_arith)
                        requires
                            acc > 6553 || (acc == 6553 && d > 5),
                            acc >= 0,
                            d >= 0,
                    ;
                }
            } else {
                acc = acc * 10 + d;
            }
        }
        i = i + 1;
    }
    proof {
        assert(b.take(i - start) =~= b);
    }
    if ovf {
        None
    } else {
        Some(acc as u16)
    }
}

/// An integer literal: an optional sign and one to eighteen decimal digits.
pub open spec fn i64_literal(s: Seq<u8>) -> Option<int> {
    let sgn: int = if s.len() > 0 && s[0] == 45 {
        -1
    } else {
        1
    };
    let b = if s.len() > 0 && (s[0] == 43 || s[0] == 45) {
        s.drop_first()
    } else {
        s
    };
    if 1 <= b.len() <= 18 && all_digits(b) {
        Some(sgn * digits_val(b))
    } else {
        None
    }
}

fn parse_i64_strict(s: &[u8]) -> (r: Option<i64>)
    ensures
        match r {
            Some(v) => i64_literal(s@) == Some(v as int),
            None => i64_literal(s@) is None,
        },
{
    let neg = s.len() > 0 && s[0] == 45;
    let start: usize = if s.len() > 0 && (s[0] == 43 || s[0] == 45) {
        1
    } else {
        0
    };
    let ghost b = s@.skip(start as int);
    proof {
        if start == 1 {
            assert(s@.drop_first() =~= s@.skip(1));
        } else {
            assert(s@.skip(0) =~= s@);
        }
    }
    if start == s.len() {
        return None;
    }
    if s.len() - start > 18 {
        return None;
    }
    let mut i: usize = start;
    #[verifier::loop_isolation(false)]
    while i < s.len()
        invariant
            start <= i <= s@.len(),
            forall|j: int| 0 <= j < i - start ==> is_digit(#[trigger] b[j]),
        decreases s@.len() - i,
    {
        if !(48 <= s[i] && s[i] <= 57) {
            proof {
                assert(b[i - start] == s@[i as int]);
                assert(!all_digits(b));
            }
            return None;
        }
        proof {
            assert(b[i - start] == s@[i as int]);
        }
        i = i + 1;
    }
    proof {
        assert(all_digits(s@.subrange(start as int, s@.len() as int))) by {
            assert(forall|j: int|
                0 <= j < b.len() ==> s@.subrange(start as int, s@.len() as int)[j] == #[trigger] b[j]);
        }
    }
    let v = crate::num::parse_digits(s, start, s.len());
    proof {
        assert(s@.subrange(start as int, s@.len() as int) =~= b);
        let w = digits_val(b);
        assert((-1int) * w == -w && (1int) * w == w) by (nonlinear_arith);
    }
    if neg {
        Some(-(v as i64))
    } else {
        Some(v as i64)
    }
}


/// What the `find` intrinsic leaves: the first matching element (or null)
/// stored under the assignment target when a comparison was given.
pub open spec fn find_spec(
    ctxm: Seq<(Seq<u8>, Val)>,
    target: Seq<u8>,
    args: Seq<Seq<u8>>,
    assign: Option<Seq<u8>>,
) -> Seq<(Seq<u8>, Val)> {
    let arr: Seq<Val> = match obj_lookup(ctxm, target) {
        Some(Val::List(items)) => items,
        _ => Seq::empty(),
    };
    match parse_cmp(args) {
        Some((l, eq, r)) => {
            let i = find_idx(ctxm, arr, 0, l, r, eq);
            let found: Val = if i < arr.len() {
                arr[i]
            } else {
                Val::Null
            };
            match assign {
                Some(var) => kv_insert_spec(ctxm, var, found),
                None => ctxm,
            }
        },
        None => ctxm,
    }
}

/// What `find-index` leaves: the first matching index, `-1` when none
/// matches, no comparison was given, or the index exceeds the largest signed
/// machine integer; stored under the assignment target.
pub open spec fn find_index_spec(
    ctxm: Seq<(Seq<u8>, Val)>,
    target: Seq<u8>,
    args: Seq<Seq<u8>>,
    assign: Option<Seq<u8>>,
) -> Seq<(Seq<u8>, Val)> {
    let arr: Seq<Val> = match obj_lookup(ctxm, target) {
        Some(Val::List(items)) => items,
        _ => Seq::empty(),
    };
    let idx: int = match parse_cmp(args) {
        Some((l, eq, r)) => {
            let i = find_idx(ctxm, arr, 0, l, r, eq);
            if i < arr.len() && i <= 0x7fff_ffff_ffff_ffff {
                i
            } else {
                -1
            }
        },
        None => -1,
    };
    match assign {
        Some(var) => kv_insert_spec(ctxm, var, Val::Num { n: idx, d: 1 }),
        None => ctxm,
    }
}

/// What `max` leaves: the greatest element ratio (of a field, or of the
/// elements), zero over an empty array, stored under the assignment target.
pub open spec fn max_spec(
    ctxm: Seq<(Seq<u8>, Val)>,
    target: Seq<u8>,
    args: Seq<Seq<u8>>,
    assign: Option<Seq<u8>>,
) -> Seq<(Seq<u8>, Val)> {
    let arr: Seq<Val> = match obj_lookup(ctxm, target) {
        Some(Val::List(items)) => items,
        _ => Seq::empty(),
    };
    let field = max_field(args);
    let m: (int, int) = if arr.len() == 0 {
        (0, 1)
    } else {
        let first = item_rat(arr[0], field);
        max_from(arr, 1, first.0, first.1, field)
    };
    match assign {
        Some(var) => kv_insert_spec(ctxm, var, Val::Num { n: m.0, d: m.1 }),
        None => ctxm,
    }
}

/// What `remove` leaves and yields: the element at the resolved index taken
/// out of the named array when the index is in range; a missing index
/// argument is an error, anything else a quiet no-op.
pub open spec fn remove_spec(
    ctxm: Seq<(Seq<u8>, Val)>,
    target: Seq<u8>,
    args: Seq<Seq<u8>>,
) -> (Seq<(Seq<u8>, Val)>, BRes) {
    if args.len() == 0 {
        (ctxm, BRes::Error("remove: missing index".spec_bytes()))
    } else {
        let idx: int = match obj_lookup(ctxm, args[0]) {
            Some(Val::Num { n, d }) => if d >= 1 && n % d == 0 {
                n / d
            } else {
                -1
            },
            _ => match i64_literal(args[0]) {
                Some(v) => v,
                None => -1,
            },
        };
        let ctx2 = match obj_lookup(ctxm, target) {
            Some(Val::List(items)) => if 0 <= idx < items.len() {
                kv_insert_spec(ctxm, target, Val::List(items.remove(idx)))
            } else {
                ctxm
            },
            _ => ctxm,
        };
        (ctx2, BRes::Okay)
    }
}

/// What `respond` yields: the status the first token denotes (200 when it
/// does not), and as body the JSON text of the named context value, else the
/// remaining tokens joined, else `OK`.
pub open spec fn respond_spec(ctxm: Seq<(Seq<u8>, Val)>, args: Seq<Seq<u8>>) -> BRes {
    let status: int = if args.len() >= 1 {
        match u16_literal(args[0]) {
            Some(c) => c,
            None => 200,
        }
    } else {
        200
    };
    let msg: Seq<u8> = if args.len() > 1 {
        match obj_lookup(ctxm, args[1]) {
            Some(v) => json_text(v),
            None => join_sp(args.skip(1)),
        }
    } else {
        "OK".spec_bytes()
    };
    BRes::Respond(status, msg)
}

/// One schema field checked against a value: present, and of the named type.
pub open spec fn validate_fields(kv: Seq<(Seq<u8>, Val)>, i: int, value: Val) -> BRes
    decreases kv.len() - i,
{
    if i < 0 || i >= kv.len() {
        BRes::Okay
    } else {
        let field = kv[i].0;
        let typ = kv[i].1;
        let fv: Option<Val> = match value {
            Val::Obj(m) => obj_lookup(m, field),
            _ => None,
        };
        match fv {
            None => BRes::Respond(
                400,
                "Missing field `".spec_bytes() + field + "`".spec_bytes(),
            ),
            Some(w) => {
                let ok = match typ {
                    Val::Str(t) => (t == "string".spec_bytes() && w is Str) || (t
                        == "number".spec_bytes() && w is Num) || (t == "bool".spec_bytes()
                        && w is Bool),
                    _ => false,
                };
                if ok {
                    validate_fields(kv, i + 1, value)
                } else {
                    BRes::Respond(
                        400,
                        "Field `".spec_bytes() + field + "` type mismatch".spec_bytes(),
                    )
                }
            },
        }
    }
}

/// What `validate` yields: in the schema form, each schema field checked
/// against the named value; in the expression form, a comparison under loose
/// equality whose failure responds with the given message.
pub open spec fn validate_spec(
    ctxm: Seq<(Seq<u8>, Val)>,
    schemas: Seq<(Seq<u8>, SectionModel)>,
    args: Seq<Seq<u8>>,
) -> BRes {
    if args.len() == 0 {
        BRes::Error("missing arguments".spec_bytes())
    } else if args.len() >= 2 && args[1].len() > 0 && args[1][0] == 35 {
        let value = obj_lookup(ctxm, args[0]);
        let schema = sec_lookup(schemas, strip_hashes(args[1]));
        match (value, schema) {
            (Some(v), Some(sch)) => validate_fields(sch.kv, 0, v),
            _ => BRes::Respond(400, "Validation failed".spec_bytes()),
        }
    } else if args.len() >= 4 {
        let shifted = args[1] == "=".spec_bytes() && args.len() >= 5 && args[2] == "=".spec_bytes();
        let eq_op = if shifted {
            true
        } else {
            args[1] == "==".spec_bytes()
        };
        let ne_op = !shifted && args[1] == "!=".spec_bytes();
        let ridx: int = if shifted {
            3
        } else {
            2
        };
        let msg = join_sp(args.skip(ridx + 1));
        let lv = or_null(resolve_spec(ctxm, args[0], None));
        let rv = or_null(resolve_spec(ctxm, args[ridx], None));
        let ok = if eq_op {
            loose_eq_spec(lv, rv)
        } else if ne_op {
            !loose_eq_spec(lv, rv)
        } else {
            false
        };
        if ok {
            BRes::Okay
        } else {
            BRes::Respond(400, msg)
        }
    } else {
        BRes::Error("invalid expression arguments".spec_bytes())
    }
}

/// What `set-memory` leaves: the named context value, or the bare token as a
/// string, stored under the key.
pub open spec fn set_memory_spec(
    ctxm: Seq<(Seq<u8>, Val)>,
    storem: Seq<(Seq<u8>, Val)>,
    args: Seq<Seq<u8>>,
) -> (Seq<(Seq<u8>, Val)>, BRes) {
    if args.len() == 0 {
        (storem, BRes::Error("set-memory: missing key".spec_bytes()))
    } else {
        let value_str = if args.len() >= 2 {
            args[1]
        } else {
            args[0]
        };
        let value = match obj_lookup(ctxm, value_str) {
            Some(v) => v,
            None => Val::Str(value_str),
        };
        (kv_insert_spec(storem, args[0], value), BRes::Okay)
    }
}

/// What `get-memory` leaves: the stored value bound to the assignment
/// target; a missing key is quietly passed over.
pub open spec fn get_memory_spec(
    ctxm: Seq<(Seq<u8>, Val)>,
    storem: Seq<(Seq<u8>, Val)>,
    args: Seq<Seq<u8>>,
    assign: Option<Seq<u8>>,
) -> (Seq<(Seq<u8>, Val)>, BRes) {
    if args.len() == 0 {
        (ctxm, BRes::Error("missing key argument".spec_bytes()))
    } else {
        match obj_lookup(storem, args[0]) {
            Some(v) => match assign {
                Some(var) => (kv_insert_spec(ctxm, var, v), BRes::Okay),
                None => (ctxm, BRes::Okay),
            },
            None => (ctxm, BRes::Okay),
        }
    }
}

/// What `return` yields: the named context value as JSON text with status
/// 200, an empty body when the name is unbound.
pub open spec fn return_spec(ctxm: Seq<(Seq<u8>, Val)>, args: Seq<Seq<u8>>) -> BRes {
    if args.len() == 0 {
        BRes::Error("missing value".spec_bytes())
    } else if args.len() >= 3 && args[1] == "as".spec_bytes() {
        BRes::Respond(400, "return: unsupported output type ".spec_bytes() + args[2])
    } else {
        match obj_lookup(ctxm, args[0]) {
            Some(v) => BRes::Respond(200, json_text(v)),
            None => BRes::Respond(200, Seq::empty()),
        }
    }
}

/// The dispatch contract: a method-style name runs the array intrinsics; the
/// named builtins cover responding, validation and the memory store; every
/// other name, the input/output collaborators among them, passes as a quiet
/// success.
#[verifier::opaque]
pub open spec fn call_builtin_spec(
    name: Seq<u8>,
    rawargs: Seq<Seq<u8>>,
    ctxm: Seq<(Seq<u8>, Val)>,
    schemas: Seq<(Seq<u8>, SectionModel)>,
    storem: Seq<(Seq<u8>, Val)>,
    assign: Option<Seq<u8>>,
) -> CallOut {
    let args = join_quoted(rawargs, 0, false, Seq::empty(), Seq::empty());
    let dot = crate::parse::idx_of(name, 46);
    if dot < name.len() {
        let target = name.take(dot);
        let method = name.skip(dot + 1);
        if method == "find".spec_bytes() {
            CallOut { ctx: find_spec(ctxm, target, args, assign), store: storem, res: BRes::Okay }
        } else if method == "find-index".spec_bytes() {
            CallOut {
                ctx: find_index_spec(ctxm, target, args, assign),
                store: storem,
                res: BRes::Okay,
            }
        } else if method == "max".spec_bytes() {
            CallOut { ctx: max_spec(ctxm, target, args, assign), store: storem, res: BRes::Okay }
        } else if method == "remove".spec_bytes() {
            let out = remove_spec(ctxm, target, args);
            CallOut { ctx: out.0, store: storem, res: out.1 }
        } else {
            call_named_spec(name, args, ctxm, schemas, storem, assign)
        }
    } else {
        call_named_spec(name, args, ctxm, schemas, storem, assign)
    }
}

/// What `parse-json` leaves: the named context string (the body by
/// default) parsed as JSON into the assignment target (the body by
/// default); text that is not JSON is an error; a missing or non-string
/// source passes quietly.
pub open spec fn parse_json_spec(
    ctxm: Seq<(Seq<u8>, Val)>,
    args: Seq<Seq<u8>>,
    assign: Option<Seq<u8>>,
) -> (Seq<(Seq<u8>, Val)>, BRes) {
    let src = if args.len() == 0 {
        "body".spec_bytes()
    } else {
        args[0]
    };
    let target = match assign {
        Some(v) => v,
        None => "body".spec_bytes(),
    };
    match obj_lookup(ctxm, src) {
        Some(Val::Str(text)) => match crate::json::json_value_of(text) {
            Some(v) => (kv_insert_spec(ctxm, target, v), BRes::Okay),
            None => (ctxm, BRes::Error("parse-json error".spec_bytes())),
        },
        _ => (ctxm, BRes::Okay),
    }
}

/// The named builtins, after quote re-joining.
pub open spec fn call_named_spec(
    name: Seq<u8>,
    args: Seq<Seq<u8>>,
    ctxm: Seq<(Seq<u8>, Val)>,
    schemas: Seq<(Seq<u8>, SectionModel)>,
    storem: Seq<(Seq<u8>, Val)>,
    assign: Option<Seq<u8>>,
) -> CallOut {
    if name == "respond".spec_bytes() {
        CallOut { ctx: ctxm, store: storem, res: respond_spec(ctxm, args) }
    } else if name == "validate".spec_bytes() {
        CallOut { ctx: ctxm, store: storem, res: validate_spec(ctxm, schemas, args) }
    } else if name == "set-memory".spec_bytes() || name == "memory.set".spec_bytes() {
        let out = set_memory_spec(ctxm, storem, args);
        CallOut { ctx: ctxm, store: out.0, res: out.1 }
    } else if name == "get-memory".spec_bytes() || name == "memory.get".spec_bytes() {
        let out = get_memory_spec(ctxm, storem, args, assign);
        CallOut { ctx: out.0, store: storem, res: out.1 }
    } else if name == "return".spec_bytes() {
        CallOut { ctx: ctxm, store: storem, res: return_spec(ctxm, args) }
    } else if name == "parse-json".spec_bytes() {
        let out = parse_json_spec(ctxm, args, assign);
        CallOut { ctx: out.0, store: storem, res: out.1 }
    } else {
        CallOut { ctx: ctxm, store: storem, res: BRes::Okay }
    }
}


/// The model of an owned optional name.
pub open spec fn owned_name_model(a: Option<Vec<u8>>) -> Option<Seq<u8>> {
    match a {
        Some(v) => Some(v@),
        None => None,
    }
}

/// The model of an optional assignment target.
pub open spec fn assign_model(a: Option<&Vec<u8>>) -> Option<Seq<u8>> {
    match a {
        Some(v) => Some(v@),
        None => None,
    }
}

fn clone_list(items: &Vec<Value>) -> (r: Vec<Value>)
    ensures
        models_of(r@) == models_of(items@),
{
    let mut out: Vec<Value> = Vec::new();
    let mut i: usize = 0;
    #[verifier::loop_isolation(false)]
    while i < items.len()
        invariant
            0 <= i <= items@.len(),
            out@.len() == i,
            forall|j: int| 0 <= j < i ==> #[trigger] out@[j].model() == items@[j].model(),
        decreases items@.len() - i,
    {
        let c = clone_value(&items[i]);
        out.push(c);
        i = i + 1;
    }
    proof {
        lemma_models_of(out@);
        lemma_models_of(items@);
        assert(models_of(out@) =~= models_of(items@));
    }
    out
}

/// The array a method-style intrinsic works over: the named context value
/// when it is a list, else nothing.
fn intrinsic_array(ctx: &Context, target: &[u8]) -> (r: Vec<Value>)
    ensures
        models_of(r@) == (match obj_lookup(ctx_model(ctx@), target@) {
            Some(Val::List(items)) => items,
            _ => Seq::<Val>::empty(),
        }),
{
    match obj_get(ctx, target) {
        Some(v) => match v {
            Value::List(items) => clone_list(items),
            _ => {
                let r: Vec<Value> = Vec::new();
                proof {
                    assert(models_of(r@) =~= Seq::<Val>::empty());
                }
                r
            },
        },
        None => {
            let r: Vec<Value> = Vec::new();
            proof {
                assert(models_of(r@) =~= Seq::<Val>::empty());
            }
            r
        },
    }
}

/// The tail of the argument list from `from` on.
fn args_tail(args: &Vec<Vec<u8>>, from: usize) -> (r: Vec<Vec<u8>>)
    requires
        from <= args@.len(),
    ensures
        r.deep_view() == args.deep_view().skip(from as int),
{
    let mut out: Vec<Vec<u8>> = Vec::new();
    let mut i: usize = from;
    #[verifier::loop_isolation(false)]
    while i < args.len()
        invariant
            from <= i <= args@.len(),
            out@.len() == i - from,
            forall|j: int| 0 <= j < i - from ==> #[trigger] out@[j]@ == args@[from + j]@,
        decreases args@.len() - i,
    {
        out.push(clone_bytes(&args[i]));
        i = i + 1;
    }
    proof {
        assert forall|j: int| 0 <= j < out@.len() implies #[trigger] out.deep_view()[j]
            == args.deep_view().skip(from as int)[j] by {
            assert(out.deep_view()[j] =~= out@[j]@);
            assert(args.deep_view()[from + j] =~= args@[from + j]@);
        }
        assert(out.deep_view() =~~= args.deep_view().skip(from as int));
    }
    out
}

fn item_rat_exec(v: &Value, field: Option<&Vec<u8>>) -> (r: Number)
    ensures
        (r.n(), r.d()) == item_rat(v.model(), assign_model(field)),
{
    match field {
        Some(f) => match v {
            Value::Obj(m) => match obj_get(m, f.as_slice()) {
                Some(w) => match w {
                    Value::Num(x) => *x,
                    _ => Number::from_int(0),
                },
                None => Number::from_int(0),
            },
            _ => Number::from_int(0),
        },
        None => match v {
            Value::Num(x) => *x,
            _ => Number::from_int(0),
        },
    }
}

/// Runs one builtin call: the array intrinsics and the named builtins as
/// `call_builtin_spec` says; every other name, the input/output
/// collaborators among them, passes as a quiet success.
/// Runs one builtin call: the array intrinsics and the named builtins as
/// `call_builtin_spec` says; every other name, the input/output
/// collaborators among them, passes as a quiet success.
pub fn call_builtin(
    name: &[u8],
    rawargs: &Vec<Vec<u8>>,
    ctx: &mut Context,
    state: &AppState,
    store: &mut MemoryStore,
    assign_to: Option<&Vec<u8>>,
) -> (r: BuiltinResult)
    ensures
        ({
            let out = call_builtin_spec(
                name@,
                rawargs.deep_view(),
                ctx_model(old(ctx)@),
                named_secs_model(state.schemas@),
                entry_models_of(old(store)@),
                assign_model(assign_to),
            );
            &&& ctx_model(final(ctx)@) == out.ctx
            &&& entry_models_of(final(store)@) == out.store
            &&& r.model() == out.res
        }),
{
    proof {
        reveal(call_builtin_spec);
    }
    let args = preprocess_args(rawargs);
    let n = name.len();
    let dot = crate::parse::idx_of_exec(name, 46);
    if dot < n {
        let target = crate::bytes::copy_range(name, 0, dot);
        let method = crate::bytes::copy_range(name, dot + 1, n);
        proof {
            assert(target@ =~= name@.take(dot as int));
            assert(method@ =~= name@.skip(dot + 1));
        }
        if is_lit(method.as_slice(), "find") {
            intrinsic_find(&args, ctx, target.as_slice(), assign_to);
            return BuiltinResult::Okay;
        }
        if is_lit(method.as_slice(), "find-index") {
            intrinsic_find_index(&args, ctx, target.as_slice(), assign_to);
            return BuiltinResult::Okay;
        }
        if is_lit(method.as_slice(), "max") {
            intrinsic_max(&args, ctx, target.as_slice(), assign_to);
            return BuiltinResult::Okay;
        }
        if is_lit(method.as_slice(), "remove") {
            return intrinsic_remove(&args, ctx, target.as_slice());
        }
    }
    call_named(name, &args, ctx, state, store, assign_to)
}

/// The `find` intrinsic.
fn intrinsic_find(args: &Vec<Vec<u8>>, ctx: &mut Context, target: &[u8], assign_to: Option<&Vec<u8>>)
    ensures
        ctx_model(final(ctx)@) == find_spec(
            ctx_model(old(ctx)@),
            target@,
            args.deep_view(),
            assign_model(assign_to),
        ),
{
    let arr = intrinsic_array(ctx, target);
    match parse_cmp_exec(args) {
        Some((l, eq, rr)) => {
            let ghost cm = ctx_model(ctx@);
            let ghost arrm = models_of(arr@);
            proof {
                lemma_models_of(arr@);
                lemma_find_idx_bounds(cm, arrm, 0, l@, rr@, eq);
            }
            let mut i: usize = 0;
            #[verifier::loop_isolation(false)]
            while i < arr.len() && !cmp_holds_exec(ctx, &arr[i], l.as_slice(), rr.as_slice(), eq)
                invariant
                    0 <= i <= arr@.len(),
                    find_idx(cm, arrm, 0, l@, rr@, eq) == find_idx(cm, arrm, i as int, l@, rr@, eq),
                decreases arr@.len() - i,
            {
                i = i + 1;
            }
            let found: Value = if i < arr.len() {
                clone_value(&arr[i])
            } else {
                Value::Null
            };
            match assign_to {
                Some(var) => {
                    kv_insert(ctx, clone_bytes(var), found);
                },
                None => {},
            }
        },
        None => {},
    }
}

/// The `find-index` intrinsic.  An index beyond the largest signed machine
/// integer (which no real array reaches) reports as not found.
fn intrinsic_find_index(
    args: &Vec<Vec<u8>>,
    ctx: &mut Context,
    target: &[u8],
    assign_to: Option<&Vec<u8>>,
)
    ensures
        ctx_model(final(ctx)@) == find_index_spec(
            ctx_model(old(ctx)@),
            target@,
            args.deep_view(),
            assign_model(assign_to),
        ),
{
    let arr = intrinsic_array(ctx, target);
    let ghost cm = ctx_model(ctx@);
    let ghost arrm = models_of(arr@);
    let idx: i64 = match parse_cmp_exec(args) {
        Some((l, eq, rr)) => {
            proof {
                lemma_models_of(arr@);
                lemma_find_idx_bounds(cm, arrm, 0, l@, rr@, eq);
            }
            let mut i: usize = 0;
            #[verifier::loop_isolation(false)]
            while i < arr.len() && !cmp_holds_exec(ctx, &arr[i], l.as_slice(), rr.as_slice(), eq)
                invariant
                    0 <= i <= arr@.len(),
                    find_idx(cm, arrm, 0, l@, rr@, eq) == find_idx(cm, arrm, i as int, l@, rr@, eq),
                decreases arr@.len() - i,
            {
                i = i + 1;
            }
            if i < arr.len() && (i as u64) <= 0x7fff_ffff_ffff_ffff {
                i as i64
            } else {
                -1
            }
        },
        None => -1,
    };
    match assign_to {
        Some(var) => {
            kv_insert(ctx, clone_bytes(var), Value::Num(Number::from_int(idx)));
        },
        None => {},
    }
}

/// The `max` intrinsic.
fn intrinsic_max(args: &Vec<Vec<u8>>, ctx: &mut Context, target: &[u8], assign_to: Option<&Vec<u8>>)
    ensures
        ctx_model(final(ctx)@) == max_spec(
            ctx_model(old(ctx)@),
            target@,
            args.deep_view(),
            assign_model(assign_to),
        ),
{
    let arr = intrinsic_array(ctx, target);
    let ghost cm = ctx_model(ctx@);
    let ghost arrm = models_of(arr@);
    proof {
        lemma_models_of(arr@);
    }
    proof {
        if args@.len() >= 1 {
            assert(args.deep_view()[0] =~= args@[0]@);
        }
        if args@.len() >= 2 {
            assert(args.deep_view()[1] =~= args@[1]@);
        }
    }
    let field: Option<Vec<u8>> = if args.len() >= 1 && is_lit(args[0].as_slice(), "it") {
        if args.len() >= 2 {
            Some(strip_dots_exec(args[1].as_slice()))
        } else {
            None
        }
    } else if args.len() >= 1 && args[0].len() >= 3 && args[0][0] == 105 && args[0][1] == 116
        && args[0][2] == 46 {
        proof {
            assert(args@[0]@.take(3) =~= seq![105u8, 116u8, 46u8]);
        }
        Some(strip_it_dots_exec(args[0].as_slice()))
    } else {
        proof {
            if args@.len() >= 1 && args@[0]@.len() >= 3 {
                assert(args@[0]@.take(3)[0] == args@[0]@[0]);
                assert(args@[0]@.take(3)[1] == args@[0]@[1]);
                assert(args@[0]@.take(3)[2] == args@[0]@[2]);
            }
        }
        None
    };
    let ghost fieldm = owned_name_model(field);
    proof {
        let dv = args.deep_view();
        if args@.len() >= 1 && dv[0] == "it".spec_bytes() {
            if args@.len() >= 2 {
                assert(fieldm == Some(strip_dots(dv[1])));
            } else {
                assert(fieldm is None);
            }
        } else if args@.len() >= 1 && dv[0].len() >= 3 && dv[0].take(3) == seq![
            105u8,
            116u8,
            46u8,
        ] {
            assert(fieldm == Some(strip_it_dots(dv[0])));
        } else {
            assert(fieldm is None);
        }
        assert(fieldm == max_field(dv));
    }
    let fref: Option<&Vec<u8>> = match &field {
        Some(v) => Some(v),
        None => None,
    };
    let result: Number = if arr.len() == 0 {
        Number::from_int(0)
    } else {
        let mut cur = item_rat_exec(&arr[0], fref);
        let ghost first = item_rat(arrm[0], fieldm);
        let mut i: usize = 1;
        #[verifier::loop_isolation(false)]
        while i < arr.len()
            invariant
                1 <= i <= arr@.len(),
                max_from(arrm, 1, first.0, first.1, fieldm) == max_from(
                    arrm,
                    i as int,
                    cur.n(),
                    cur.d(),
                    fieldm,
                ),
            decreases arr@.len() - i,
        {
            let v = item_rat_exec(&arr[i], fref);
            if cur.lt_num(&v) {
                cur = v;
            }
            i = i + 1;
        }
        cur
    };
    match assign_to {
        Some(var) => {
            kv_insert(ctx, clone_bytes(var), Value::Num(result));
        },
        None => {},
    }
}

/// The `remove` intrinsic.
fn intrinsic_remove(args: &Vec<Vec<u8>>, ctx: &mut Context, target: &[u8]) -> (r: BuiltinResult)
    ensures
        ({
            let out = remove_spec(ctx_model(old(ctx)@), target@, args.deep_view());
            ctx_model(final(ctx)@) == out.0 && r.model() == out.1
        }),
{
    if args.len() == 0 {
        return BuiltinResult::Error(lit("remove: missing index"));
    }
    proof {
        assert(args.deep_view()[0] =~= args@[0]@);
    }
    let idx: i64 = match obj_get(ctx, args[0].as_slice()) {
        Some(v) => match v {
            Value::Num(x) => match x.int_value() {
                Some(k) => k,
                None => -1,
            },
            _ => match parse_i64_strict(args[0].as_slice()) {
                Some(k) => k,
                None => -1,
            },
        },
        None => match parse_i64_strict(args[0].as_slice()) {
            Some(k) => k,
            None => -1,
        },
    };
    match obj_get(ctx, target) {
        Some(v) => match v {
            Value::List(items) => {
                proof {
                    lemma_models_of(items@);
                }
                if idx >= 0 && ((idx as u64) < (items.len() as u64)) {
                    let mut arr = clone_list(items);
                    let ghost arrm = models_of(arr@);
                    let ghost prev = arr@;
                    proof {
                        lemma_models_of(prev);
                        lemma_models_of(items@);
                    }
                    let removed = arr.remove(idx as usize);
                    proof {
                        lemma_models_of(prev);
                        lemma_models_of(arr@);
                        assert(models_of(arr@) =~~= arrm.remove(idx as int));
                    }
                    let tv = crate::bytes::copy_range(target, 0, target.len());
                    proof {
                        assert(tv@ =~= target@);
                    }
                    kv_insert(ctx, tv, Value::List(arr));
                }
            },
            _ => {},
        },
        None => {},
    }
    BuiltinResult::Okay
}

/// Runs one named builtin after quote re-joining.
fn call_named(
    name: &[u8],
    args: &Vec<Vec<u8>>,
    ctx: &mut Context,
    state: &AppState,
    store: &mut MemoryStore,
    assign_to: Option<&Vec<u8>>,
) -> (r: BuiltinResult)
    ensures
        ({
            let out = call_named_spec(
                name@,
                args.deep_view(),
                ctx_model(old(ctx)@),
                named_secs_model(state.schemas@),
                entry_models_of(old(store)@),
                assign_model(assign_to),
            );
            &&& ctx_model(final(ctx)@) == out.ctx
            &&& entry_models_of(final(store)@) == out.store
            &&& r.model() == out.res
        }),
{
    if is_lit(name, "respond") {
        return builtin_respond(args, ctx);
    }
    if is_lit(name, "validate") {
        return builtin_validate(args, ctx, &state.schemas);
    }
    if is_lit(name, "set-memory") || is_lit(name, "memory.set") {
        return builtin_set_memory(args, ctx, store);
    }
    if is_lit(name, "get-memory") || is_lit(name, "memory.get") {
        return builtin_get_memory(args, assign_to, ctx, store);
    }
    if is_lit(name, "return") {
        return builtin_return(args, ctx);
    }
    if is_lit(name, "parse-json") {
        return builtin_parse_json(args, ctx, assign_to);
    }
    BuiltinResult::Okay
}

/// Parses a context string as JSON into the assignment target.
pub fn builtin_parse_json(
    args: &Vec<Vec<u8>>,
    ctx: &mut Context,
    assign_to: Option<&Vec<u8>>,
) -> (r: BuiltinResult)
    ensures
        ({
            let out = parse_json_spec(
                ctx_model(old(ctx)@),
                args.deep_view(),
                assign_model(assign_to),
            );
            ctx_model(final(ctx)@) == out.0 && r.model() == out.1
        }),
{
    proof {
        if args@.len() >= 1 {
            assert(args.deep_view()[0] =~= args@[0]@);
        }
    }
    let src: Vec<u8> = if args.len() == 0 {
        lit("body")
    } else {
        clone_bytes(&args[0])
    };
    let target: Vec<u8> = match assign_to {
        Some(v) => clone_bytes(v),
        None => lit("body"),
    };
    let text: Option<Vec<u8>> = match obj_get(ctx, src.as_slice()) {
        Some(v) => match v {
            Value::Str(t) => Some(clone_bytes(t)),
            _ => None,
        },
        None => None,
    };
    match text {
        Some(t) => {
            match crate::json::parse_json_text(t.as_slice()) {
                Some(v) => {
                    kv_insert(ctx, target, v);
                    BuiltinResult::Okay
                },
                None => BuiltinResult::Error(lit("parse-json error")),
            }
        },
        None => BuiltinResult::Okay,
    }
}

/// Terminates execution with a status and body per `respond_spec`.
pub fn builtin_respond(args: &Vec<Vec<u8>>, ctx: &Context) -> (r: BuiltinResult)
    ensures
        r.model() == respond_spec(ctx_model(ctx@), args.deep_view()),
{
    let status: u16 = if args.len() >= 1 {
        proof {
            assert(args.deep_view()[0] =~= args@[0]@);
        }
        match parse_u16(args[0].as_slice()) {
            Some(c) => c,
            None => 200,
        }
    } else {
        200
    };
    let msg: Vec<u8> = if args.len() > 1 {
        proof {
            assert(args.deep_view()[1] =~= args@[1]@);
        }
        match obj_get(ctx, args[1].as_slice()) {
            Some(v) => to_json(v),
            None => {
                let rest = args_tail(args, 1);
                join_sp_exec(&rest)
            },
        }
    } else {
        lit("OK")
    };
    BuiltinResult::Respond(status, msg)
}

/// Checks a named value against a schema, or an expression against the
/// context, per `validate_spec`.
pub fn builtin_validate(
    args: &Vec<Vec<u8>>,
    ctx: &Context,
    schemas: &Vec<(Vec<u8>, Section)>,
) -> (r: BuiltinResult)
    ensures
        r.model() == validate_spec(
            ctx_model(ctx@),
            named_secs_model(schemas@),
            args.deep_view(),
        ),
{
    if args.len() == 0 {
        return BuiltinResult::Error(lit("missing arguments"));
    }
    proof {
        assert(args.deep_view()[0] =~= args@[0]@);
        if args@.len() >= 2 {
            assert(args.deep_view()[1] =~= args@[1]@);
        }
    }
    if args.len() >= 2 && args[1].len() > 0 && args[1][0] == 35 {
        let stripped = strip_hashes_exec(args[1].as_slice());
        let value = obj_get(ctx, args[0].as_slice());
        let schema = sec_get(schemas, stripped.as_slice());
        match (value, schema) {
            (Some(v), Some(sch)) => {
                let ghost kvm = sch.model().kv;
                proof {
                    lemma_entry_models_of(sch.kv@);
                }
                let mut i: usize = 0;
                #[verifier::loop_isolation(false)]
                while i < sch.kv.len()
                    invariant
                        0 <= i <= sch.kv@.len(),
                        kvm.len() == sch.kv@.len(),
                        validate_fields(kvm, 0, v.model()) == validate_fields(
                            kvm,
                            i as int,
                            v.model(),
                        ),
                    decreases sch.kv@.len() - i,
                {
                    let field = &sch.kv[i].0;
                    let typ = &sch.kv[i].1;
                    proof {
                        assert(kvm[i as int] == (sch.kv@[i as int].0@, sch.kv@[i as int].1.model()));
                    }
                    let fv: Option<&Value> = match v {
                        Value::Obj(m) => obj_get(m, field.as_slice()),
                        _ => None,
                    };
                    match fv {
                        None => {
                            let mut msg = lit("Missing field `");
                            append_bytes(&mut msg, field.as_slice());
                            let tick = lit("`");
                            append_bytes(&mut msg, tick.as_slice());
                            return BuiltinResult::Respond(400, msg);
                        },
                        Some(w) => {
                            let ok = match typ {
                                Value::Str(t) => {
                                    (is_lit(t.as_slice(), "string") && matches!(w, Value::Str(_)))
                                        || (is_lit(t.as_slice(), "number") && matches!(
                                        w,
                                        Value::Num(_),
                                    )) || (is_lit(t.as_slice(), "bool") && matches!(
                                        w,
                                        Value::Bool(_),
                                    ))
                                },
                                _ => false,
                            };
                            if !ok {
                                let mut msg = lit("Field `");
                                append_bytes(&mut msg, field.as_slice());
                                let tail = lit("` type mismatch");
                                append_bytes(&mut msg, tail.as_slice());
                                return BuiltinResult::Respond(400, msg);
                            }
                        },
                    }
                    i = i + 1;
                }
                BuiltinResult::Okay
            },
            _ => BuiltinResult::Respond(400, lit("Validation failed")),
        }
    } else if args.len() >= 4 {
        proof {
            assert(args.deep_view()[2] =~= args@[2]@);
            if args@.len() >= 4 {
                assert(args.deep_view()[3] =~= args@[3]@);
            }
        }
        let shifted = is_lit(args[1].as_slice(), "=") && args.len() >= 5 && is_lit(
            args[2].as_slice(),
            "=",
        );
        let eq_op = if shifted {
            true
        } else {
            is_lit(args[1].as_slice(), "==")
        };
        let ne_op = !shifted && is_lit(args[1].as_slice(), "!=");
        let ridx: usize = if shifted {
            3
        } else {
            2
        };
        proof {
            assert(args.deep_view()[ridx as int] =~= args@[ridx as int]@);
        }
        let rest = args_tail(args, ridx + 1);
        let msg = join_sp_exec(&rest);
        let lv = match resolve_path(ctx, args[0].as_slice(), None) {
            Some(v) => v,
            None => Value::Null,
        };
        let rv = match resolve_path(ctx, args[ridx].as_slice(), None) {
            Some(v) => v,
            None => Value::Null,
        };
        let ok = if eq_op {
            loose_eq(&lv, &rv)
        } else if ne_op {
            !loose_eq(&lv, &rv)
        } else {
            false
        };
        if ok {
            BuiltinResult::Okay
        } else {
            BuiltinResult::Respond(400, msg)
        }
    } else {
        BuiltinResult::Error(lit("invalid expression arguments"))
    }
}

/// Stores a named context value, or a bare token, in the memory store.
pub fn builtin_set_memory(args: &Vec<Vec<u8>>, ctx: &Context, store: &mut MemoryStore) -> (r:
    BuiltinResult)
    ensures
        ({
            let out = set_memory_spec(
                ctx_model(ctx@),
                entry_models_of(old(store)@),
                args.deep_view(),
            );
            entry_models_of(final(store)@) == out.0 && r.model() == out.1
        }),
{
    if args.len() == 0 {
        return BuiltinResult::Error(lit("set-memory: missing key"));
    }
    proof {
        assert(args.deep_view()[0] =~= args@[0]@);
        if args@.len() >= 2 {
            assert(args.deep_view()[1] =~= args@[1]@);
        }
    }
    let value_str: &Vec<u8> = if args.len() >= 2 {
        &args[1]
    } else {
        &args[0]
    };
    let value: Value = match obj_get(ctx, value_str.as_slice()) {
        Some(v) => clone_value(v),
        None => Value::Str(clone_bytes(value_str)),
    };
    kv_insert(store, clone_bytes(&args[0]), value);
    BuiltinResult::Okay
}

/// Reads a stored value into the assignment target.
pub fn builtin_get_memory(
    args: &Vec<Vec<u8>>,
    assign_to: Option<&Vec<u8>>,
    ctx: &mut Context,
    store: &MemoryStore,
) -> (r: BuiltinResult)
    ensures
        ({
            let out = get_memory_spec(
                ctx_model(old(ctx)@),
                entry_models_of(store@),
                args.deep_view(),
                assign_model(assign_to),
            );
            ctx_model(final(ctx)@) == out.0 && r.model() == out.1
        }),
{
    if args.len() == 0 {
        return BuiltinResult::Error(lit("missing key argument"));
    }
    proof {
        assert(args.deep_view()[0] =~= args@[0]@);
    }
    match obj_get(store, args[0].as_slice()) {
        Some(v) => {
            match assign_to {
                Some(var) => {
                    let c = clone_value(v);
                    kv_insert(ctx, clone_bytes(var), c);
                },
                None => {},
            }
            BuiltinResult::Okay
        },
        None => BuiltinResult::Okay,
    }
}

/// Responds with the JSON text of a named context value.
fn builtin_return(args: &Vec<Vec<u8>>, ctx: &Context) -> (r: BuiltinResult)
    ensures
        r.model() == return_spec(ctx_model(ctx@), args.deep_view()),
{
    if args.len() == 0 {
        return BuiltinResult::Error(lit("missing value"));
    }
    proof {
        assert(args.deep_view()[0] =~= args@[0]@);
        if args@.len() >= 3 {
            assert(args.deep_view()[1] =~= args@[1]@);
            assert(args.deep_view()[2] =~= args@[2]@);
        }
    }
    if args.len() >= 3 && is_lit(args[1].as_slice(), "as") {
        let mut msg = lit("return: unsupported output type ");
        append_bytes(&mut msg, args[2].as_slice());
        return BuiltinResult::Respond(400, msg);
    }
    match obj_get(ctx, args[0].as_slice()) {
        Some(v) => BuiltinResult::Respond(200, to_json(v)),
        None => BuiltinResult::Respond(200, Vec::new()),
    }
}


/// Index of the first assignment `=` in a step: one that is outside double
/// quotes and not part of `==` or `!=`; the length when there is none.
pub open spec fn find_assign(s: Seq<u8>, i: int, inq: bool) -> int
    decreases s.len() - i,
{
    if i < 0 || i >= s.len() {
        s.len() as int
    } else if s[i] == 34 {
        find_assign(s, i + 1, !inq)
    } else if !inq && s[i] == 61 && (i == 0 || s[i - 1] != 61) && (i + 1 >= s.len() || s[i + 1]
        != 61) {
        i
    } else {
        find_assign(s, i + 1, inq)
    }
}

proof fn lemma_find_assign_bounds(s: Seq<u8>, i: int, inq: bool)
    requires
        0 <= i <= s.len(),
    ensures
        i <= find_assign(s, i, inq) <= s.len(),
    decreases s.len() - i,
{
    if i < s.len() {
        lemma_find_assign_bounds(s, i + 1, !inq);
        lemma_find_assign_bounds(s, i + 1, inq);
    }
}

fn find_assign_exec(s: &[u8]) -> (r: usize)
    ensures
        r == find_assign(s@, 0, false),
        r <= s@.len(),
{
    proof {
        lemma_find_assign_bounds(s@, 0, false);
    }
    let mut i: usize = 0;
    let mut inq = false;
    #[verifier::loop_isolation(false)]
    while i < s.len()
        invariant
            0 <= i <= s@.len(),
            find_assign(s@, 0, false) == find_assign(s@, i as int, inq),
        decreases s@.len() - i,
    {
        let c = s[i];
        if c == 34 {
            inq = !inq;
        } else if !inq && c == 61 && (i == 0 || s[i - 1] != 61) && (i + 1 >= s.len() || s[i + 1]
            != 61) {
            return i;
        }
        i = i + 1;
    }
    i
}

/// Index of the first three-byte run `space c space`, or the length.
pub open spec fn op_at(s: Seq<u8>, c: u8) -> int
    decreases s.len(),
{
    if s.len() < 3 {
        s.len() as int
    } else if s[0] == 32 && s[1] == c && s[2] == 32 {
        0
    } else {
        1 + op_at(s.drop_first(), c)
    }
}

proof fn lemma_op_at(s: Seq<u8>, c: u8)
    ensures
        0 <= op_at(s, c) <= s.len(),
        op_at(s, c) + 2 < s.len() ==> s[op_at(s, c)] == 32 && s[op_at(s, c) + 1] == c && s[op_at(
            s,
            c,
        ) + 2] == 32,
    decreases s.len(),
{
    if s.len() >= 3 && !(s[0] == 32 && s[1] == c && s[2] == 32) {
        lemma_op_at(s.drop_first(), c);
    }
}

proof fn lemma_op_at_is(s: Seq<u8>, c: u8, i: int)
    requires
        0 <= i,
        i + 2 < s.len() || i >= s.len() - 2,
        forall|j: int| 0 <= j < i && j + 2 < s.len() ==> !((#[trigger] s[j]) == 32 && s[j + 1] == c
            && s[j + 2] == 32),
        i + 2 < s.len() ==> s[i] == 32 && s[i + 1] == c && s[i + 2] == 32,
    ensures
        i + 2 < s.len() ==> op_at(s, c) == i,
        i >= s.len() - 2 ==> op_at(s, c) >= s.len() - 2,
    decreases i,
{
    if i > 0 && s.len() >= 3 {
        lemma_op_at_is(s.drop_first(), c, i - 1);
    }
}

/// First position of the spaced operator, if any.
fn op_find(s: &[u8], c: u8) -> (r: Option<usize>)
    ensures
        match r {
            Some(i) => i as int == op_at(s@, c) && i + 2 < s@.len(),
            None => op_at(s@, c) >= s@.len() - 2,
        },
{
    if s.len() < 3 {
        proof {
            lemma_op_at(s@, c);
        }
        return None;
    }
    let mut i: usize = 0;
    #[verifier::loop_isolation(false)]
    while i < s.len() - 2
        invariant
            0 <= i <= s@.len(),
            forall|j: int| 0 <= j < i && j + 2 < s@.len() ==> !((#[trigger] s@[j]) == 32 && s@[j
                + 1] == c && s@[j + 2] == 32),
        decreases s@.len() - i,
    {
        if s[i] == 32 && s[i + 1] == c && s[i + 2] == 32 {
            proof {
                lemma_op_at_is(s@, c, i as int);
            }
            return Some(i);
        }
        i = i + 1;
    }
    proof {
        lemma_op_at_is(s@, c, i as int);
    }
    None
}

/// The splitting of a brace-free object literal body on commas.
pub open spec fn split_comma(s: Seq<u8>) -> Seq<Seq<u8>>
    decreases s.len(),
    via split_comma_dec
{
    let i = crate::parse::idx_of(s, 44);
    if i >= s.len() {
        seq![s]
    } else {
        seq![s.take(i)] + split_comma(s.skip(i + 1))
    }
}

#[via_fn]
proof fn split_comma_dec(s: Seq<u8>) {
    crate::parse::lemma_idx_of(s, 44);
}

fn split_comma_exec(s: &[u8]) -> (r: Vec<Vec<u8>>)
    ensures
        r.deep_view() == split_comma(s@),
{
    let mut out: Vec<Vec<u8>> = Vec::new();
    let mut start: usize = 0;
    let mut i: usize = 0;
    proof {
        assert(s@.skip(0) =~= s@);
    }
    #[verifier::loop_isolation(false)]
    while i < s.len()
        invariant
            0 <= start <= i <= s@.len(),
            forall|j: int| start <= j < i ==> s@[j] != 44,
            split_comma(s@) == out.deep_view() + split_comma(s@.skip(start as int)),
        decreases s@.len() - i,
    {
        if s[i] == 44 {
            let seg = crate::bytes::copy_range(s, start, i);
            let ghost rest = s@.skip(start as int);
            let ghost preout = out.deep_view();
            out.push(seg);
            proof {
                crate::parse::lemma_idx_of_is(rest, 44, i - start);
                assert(rest.take(i - start) =~= s@.subrange(start as int, i as int));
                assert(rest.skip(i - start + 1) =~= s@.skip(i + 1));
                assert(out.deep_view() =~~= preout.push(s@.subrange(start as int, i as int)));
                assert(preout.push(rest.take(i - start)) + split_comma(s@.skip(i + 1)) =~= preout
                    + (seq![rest.take(i - start)] + split_comma(s@.skip(i + 1))));
            }
            start = i + 1;
        }
        i = i + 1;
    }
    let seg = crate::bytes::copy_range(s, start, s.len());
    let ghost rest = s@.skip(start as int);
    let ghost preout = out.deep_view();
    out.push(seg);
    proof {
        crate::parse::lemma_idx_of_is(rest, 44, rest.len() as int);
        assert(rest.take(rest.len() as int) =~= rest);
        assert(rest =~= s@.subrange(start as int, s@.len() as int));
        assert(split_comma(rest) == seq![rest]);
        assert(out.deep_view() =~~= preout.push(rest));
        assert(preout.push(rest) =~= preout + seq![rest]);
    }
    out
}

/// Index of the first colon outside double quotes, or the length.
pub open spec fn colon_at(s: Seq<u8>, i: int, inq: bool) -> int
    decreases s.len() - i,
{
    if i < 0 || i >= s.len() {
        s.len() as int
    } else if s[i] == 34 {
        colon_at(s, i + 1, !inq)
    } else if !inq && s[i] == 58 {
        i
    } else {
        colon_at(s, i + 1, inq)
    }
}

proof fn lemma_colon_at_bounds(s: Seq<u8>, i: int, inq: bool)
    requires
        0 <= i <= s.len(),
    ensures
        i <= colon_at(s, i, inq) <= s.len(),
    decreases s.len() - i,
{
    if i < s.len() {
        lemma_colon_at_bounds(s, i + 1, !inq);
        lemma_colon_at_bounds(s, i + 1, inq);
    }
}

fn colon_find(s: &[u8]) -> (r: usize)
    ensures
        r == colon_at(s@, 0, false),
        r <= s@.len(),
{
    proof {
        lemma_colon_at_bounds(s@, 0, false);
    }
    let mut i: usize = 0;
    let mut inq = false;
    #[verifier::loop_isolation(false)]
    while i < s.len()
        invariant
            0 <= i <= s@.len(),
            colon_at(s@, 0, false) == colon_at(s@, i as int, inq),
        decreases s@.len() - i,
    {
        let c = s[i];
        if c == 34 {
            inq = !inq;
        } else if !inq && c == 58 {
            return i;
        }
        i = i + 1;
    }
    i
}

/// The text with every leading opening brace removed.
pub open spec fn strip_braces(s: Seq<u8>) -> Seq<u8>
    decreases s.len(),
{
    if s.len() >= 1 && s[0] == 123 {
        strip_braces(s.drop_first())
    } else {
        s
    }
}

fn strip_braces_exec(s: &[u8]) -> (r: Vec<u8>)
    ensures
        r@ == strip_braces(s@),
{
    let mut a: usize = 0;
    proof {
        assert(s@.skip(0) =~= s@);
    }
    #[verifier::loop_isolation(false)]
    while a < s.len() && s[a] == 123
        invariant
            0 <= a <= s@.len(),
            strip_braces(s@) == strip_braces(s@.skip(a as int)),
        decreases s@.len() - a,
    {
        proof {
            assert(s@.skip(a as int).drop_first() =~= s@.skip(a + 1));
        }
        a = a + 1;
    }
    let r = crate::bytes::copy_range(s, a, s.len());
    proof {
        assert(s@.skip(a as int) =~= s@.subrange(a as int, s@.len() as int));
    }
    r
}

/// The value one `key: expr` pair of an object-literal assignment stores:
/// the resolved expression, with a numeric string narrowed to its exact
/// number, null when the expression does not resolve.
pub open spec fn obj_pair_value(ctxm: Seq<(Seq<u8>, Val)>, expr: Seq<u8>) -> Val {
    match resolve_spec(ctxm, expr, None) {
        Some(v) => match v {
            Val::Str(t) => match num_literal(t) {
                Some((n, d)) => Val::Num { n, d },
                None => Val::Str(t),
            },
            other => other,
        },
        None => Val::Null,
    }
}

/// The object an object-literal assignment builds, pair by pair.
pub open spec fn obj_literal(
    ctxm: Seq<(Seq<u8>, Val)>,
    pairs: Seq<Seq<u8>>,
    i: int,
    acc: Seq<(Seq<u8>, Val)>,
) -> Seq<(Seq<u8>, Val)>
    decreases pairs.len() - i,
{
    if i < 0 || i >= pairs.len() {
        acc
    } else {
        let p = trim_spec(pairs[i]);
        if p.len() == 0 {
            obj_literal(ctxm, pairs, i + 1, acc)
        } else {
            let cp = colon_at(p, 0, false);
            if cp < p.len() {
                let k = trim_spec(strip_braces(trim_spec(p.take(cp))));
                let v = obj_pair_value(ctxm, trim_spec(p.skip(cp + 1)));
                obj_literal(ctxm, pairs, i + 1, kv_insert_spec(acc, k, v))
            } else {
                obj_literal(ctxm, pairs, i + 1, acc)
            }
        }
    }
}


/// What a step or step list leaves behind: the context, the store, and the
/// terminal outcome when one was reached.
pub ghost struct RunOut {
    pub ctx: Seq<(Seq<u8>, Val)>,
    pub store: Seq<(Seq<u8>, Val)>,
    pub outcome: Option<(int, Seq<u8>)>,
}

/// A builtin outcome as a step outcome: an error terminates as a 500.
pub open spec fn res_outcome(r: BRes) -> Option<(int, Seq<u8>)> {
    match r {
        BRes::Okay => None,
        BRes::Respond(c, m) => Some((c, m)),
        BRes::Error(m) => Some((500int, m)),
    }
}

/// The exact arithmetic a step's operator byte performs on two ratios, when
/// both are well-formed and the exact result can be held.
pub open spec fn arith_result(opc: u8, ln: int, ld: int, rn: int, rd: int) -> Option<(int, int)> {
    if ld < 1 || rd < 1 {
        None
    } else if opc == 43 {
        if crate::num::ratio_fits(ln * rd + rn * ld, ld * rd) {
            Some((ln * rd + rn * ld, ld * rd))
        } else {
            None
        }
    } else if opc == 45 {
        if crate::num::ratio_fits(ln * rd - rn * ld, ld * rd) {
            Some((ln * rd - rn * ld, ld * rd))
        } else {
            None
        }
    } else if opc == 42 {
        if crate::num::ratio_fits(ln * rn, ld * rd) {
            Some((ln * rn, ld * rd))
        } else {
            None
        }
    } else if opc == 47 {
        if rn == 0 {
            None
        } else if rn > 0 {
            if crate::num::ratio_fits(ln * rd, ld * rn) {
                Some((ln * rd, ld * rn))
            } else {
                None
            }
        } else {
            if crate::num::ratio_fits(-(ln * rd), -(ld * rn)) {
                Some((-(ln * rd), -(ld * rn)))
            } else {
                None
            }
        }
    } else {
        None
    }
}

fn arith_apply(opc: u8, a: &Number, b: &Number) -> (r: Option<Number>)
    ensures
        match arith_result(opc, a.n(), a.d(), b.n(), b.d()) {
            Some(p) => r matches Some(c) && c.wf() && c.n() == p.0 && c.d() == p.1,
            None => r is None,
        },
{
    if opc == 43 {
        a.add(b)
    } else if opc == 45 {
        a.sub(b)
    } else if opc == 42 {
        a.mul(b)
    } else if opc == 47 {
        a.div(b)
    } else {
        None
    }
}

/// Generic assignment dispatch: the command split on whitespace and handed
/// to the builtins with the assignment target; an empty command passes.
pub open spec fn generic_step(
    schemas: Seq<(Seq<u8>, SectionModel)>,
    var: Seq<u8>,
    cmd: Seq<u8>,
    ctxm: Seq<(Seq<u8>, Val)>,
    storem: Seq<(Seq<u8>, Val)>,
) -> RunOut {
    let parts = ws_tokens(cmd);
    if parts.len() == 0 {
        RunOut { ctx: ctxm, store: storem, outcome: None }
    } else {
        let out = call_builtin_spec(parts[0], parts.drop_first(), ctxm, schemas, storem, Some(var));
        RunOut { ctx: out.ctx, store: out.store, outcome: res_outcome(out.res) }
    }
}

/// An assignment that is neither an object literal nor arithmetic: an
/// in-place array element replacement when the target has index shape and
/// every precondition holds, else generic dispatch.
pub open spec fn rest_step(
    schemas: Seq<(Seq<u8>, SectionModel)>,
    var: Seq<u8>,
    cmd: Seq<u8>,
    ctxm: Seq<(Seq<u8>, Val)>,
    storem: Seq<(Seq<u8>, Val)>,
) -> RunOut {
    let parts = ws_tokens(cmd);
    let br = crate::parse::idx_of(var, 91);
    if br < var.len() && var.len() >= 1 && var.last() == 93 && br < var.len() - 1 {
        let base = trim_spec(var.take(br));
        let idx_expr = trim_spec(var.subrange(br + 1, var.len() - 1));
        let idx: Option<int> = match i64_literal(idx_expr) {
            Some(n) => if n >= 0 {
                Some(n)
            } else {
                None
            },
            None => match obj_lookup(ctxm, idx_expr) {
                Some(Val::Num { n, d }) => if d >= 1 && n % d == 0 && n / d >= 0 {
                    Some(n / d)
                } else {
                    None
                },
                _ => None,
            },
        };
        if idx is Some && parts.len() == 1 && resolve_spec(ctxm, parts[0], None) is Some
            && obj_lookup(ctxm, base) is Some && obj_lookup(ctxm, base)->Some_0 is List
            && idx->Some_0 < obj_lookup(ctxm, base)->Some_0->List_0.len() {
            let i = idx->Some_0;
            let value = resolve_spec(ctxm, parts[0], None)->Some_0;
            let items = obj_lookup(ctxm, base)->Some_0->List_0;
            RunOut {
                ctx: kv_insert_spec(ctxm, base, Val::List(items.update(i, value))),
                store: storem,
                outcome: None,
            }
        } else {
            generic_step(schemas, var, cmd, ctxm, storem)
        }
    } else {
        generic_step(schemas, var, cmd, ctxm, storem)
    }
}

/// An arithmetic assignment: the left side first tried as a builtin call
/// writing the target, then as a path; the right side a number or a path;
/// when both come out as numbers the exact result is stored, else the step
/// falls through to `rest_step` with any dispatch effects kept.
pub open spec fn arith_step(
    schemas: Seq<(Seq<u8>, SectionModel)>,
    var: Seq<u8>,
    cmd: Seq<u8>,
    opc: u8,
    pos: int,
    ctxm: Seq<(Seq<u8>, Val)>,
    storem: Seq<(Seq<u8>, Val)>,
) -> RunOut {
    let left = trim_spec(cmd.take(pos));
    let right = trim_spec(cmd.skip(pos + 2));
    let lparts = ws_tokens(left);
    if lparts.len() == 0 {
        rest_step(schemas, var, cmd, ctxm, storem)
    } else {
        let dout = call_builtin_spec(lparts[0], lparts.drop_first(), ctxm, schemas, storem, Some(var));
        let lv0: Option<Val> = if dout.res is Okay {
            obj_lookup(dout.ctx, var)
        } else {
            None
        };
        let lv: Option<Val> = match lv0 {
            Some(v) => Some(v),
            None => resolve_spec(dout.ctx, lparts[0], None),
        };
        let rv: Option<Val> = match num_literal(right) {
            Some((n, d)) => Some(Val::Num { n, d }),
            None => resolve_spec(dout.ctx, right, None),
        };
        if lv is Some && lv->Some_0 is Num && rv is Some && rv->Some_0 is Num {
            let ln = lv->Some_0->Num_n;
            let ld = lv->Some_0->Num_d;
            let rn = rv->Some_0->Num_n;
            let rd = rv->Some_0->Num_d;
            match arith_result(opc, ln, ld, rn, rd) {
                Some(p) => RunOut {
                    ctx: kv_insert_spec(dout.ctx, var, Val::Num { n: p.0, d: p.1 }),
                    store: dout.store,
                    outcome: None,
                },
                None => rest_step(schemas, var, cmd, dout.ctx, dout.store),
            }
        } else {
            rest_step(schemas, var, cmd, dout.ctx, dout.store)
        }
    }
}

/// One string step: an assignment (object literal, arithmetic, array
/// element, or builtin call with a target), or a bare builtin call.
#[verifier::opaque]
pub open spec fn string_step_spec(
    schemas: Seq<(Seq<u8>, SectionModel)>,
    s: Seq<u8>,
    ctxm: Seq<(Seq<u8>, Val)>,
    storem: Seq<(Seq<u8>, Val)>,
) -> RunOut {
    let step = trim_spec(s);
    let eq = find_assign(step, 0, false);
    if eq < step.len() {
        let var = trim_spec(step.take(eq));
        let cmd = trim_spec(step.skip(eq + 1));
        if cmd.len() > 0 && cmd[0] == 123 {
            let body = if cmd.len() >= 2 && cmd.last() == 125 {
                cmd.subrange(1, cmd.len() - 1)
            } else {
                cmd
            };
            let mp = obj_literal(ctxm, split_comma(body), 0, Seq::empty());
            RunOut { ctx: kv_insert_spec(ctxm, var, Val::Obj(mp)), store: storem, outcome: None }
        } else {
            let pp = op_at(cmd, 43);
            let pm = op_at(cmd, 45);
            let ps = op_at(cmd, 42);
            let pd = op_at(cmd, 47);
            if pp + 2 < cmd.len() {
                arith_step(schemas, var, cmd, 43, pp, ctxm, storem)
            } else if pm + 2 < cmd.len() {
                arith_step(schemas, var, cmd, 45, pm, ctxm, storem)
            } else if ps + 2 < cmd.len() {
                arith_step(schemas, var, cmd, 42, ps, ctxm, storem)
            } else if pd + 2 < cmd.len() {
                arith_step(schemas, var, cmd, 47, pd, ctxm, storem)
            } else {
                rest_step(schemas, var, cmd, ctxm, storem)
            }
        }
    } else {
        let parts = ws_tokens(step);
        if parts.len() == 0 {
            RunOut { ctx: ctxm, store: storem, outcome: None }
        } else {
            let out = call_builtin_spec(parts[0], parts.drop_first(), ctxm, schemas, storem, None);
            RunOut { ctx: out.ctx, store: out.store, outcome: res_outcome(out.res) }
        }
    }
}

/// The bytes of the conditional key prefix.
pub open spec fn if_prefix() -> Seq<u8> {
    seq![105u8, 102u8, 32u8]
}

/// One step of a step list: a string step is interpreted; a one-entry
/// object whose key opens with the conditional prefix runs its nested list
/// when the condition holds; any other value passes.
pub open spec fn step_spec(
    schemas: Seq<(Seq<u8>, SectionModel)>,
    v: Val,
    ctxm: Seq<(Seq<u8>, Val)>,
    storem: Seq<(Seq<u8>, Val)>,
) -> RunOut
    decreases v, 1int,
{
    match v {
        Val::Str(s) => string_step_spec(schemas, s, ctxm, storem),
        Val::Obj(m) => {
            if m.len() == 1 && m[0].0.len() >= 3 && m[0].0.take(3) == if_prefix() {
                match m[0].1 {
                    Val::List(nested) => {
                        if eval_condition_spec(ctxm, m[0].0.skip(3), None) {
                            run_steps_spec(schemas, nested, ctxm, storem)
                        } else {
                            RunOut { ctx: ctxm, store: storem, outcome: None }
                        }
                    },
                    _ => RunOut { ctx: ctxm, store: storem, outcome: None },
                }
            } else {
                RunOut { ctx: ctxm, store: storem, outcome: None }
            }
        },
        _ => RunOut { ctx: ctxm, store: storem, outcome: None },
    }
}

/// A step list, strictly in order, stopping at the first terminal outcome.
pub open spec fn run_steps_spec(
    schemas: Seq<(Seq<u8>, SectionModel)>,
    steps: Seq<Val>,
    ctxm: Seq<(Seq<u8>, Val)>,
    storem: Seq<(Seq<u8>, Val)>,
) -> RunOut
    decreases steps, 0int,
{
    if steps.len() == 0 {
        RunOut { ctx: ctxm, store: storem, outcome: None }
    } else {
        let first = step_spec(schemas, steps[0], ctxm, storem);
        match first.outcome {
            Some(t) => first,
            None => run_steps_spec(schemas, steps.drop_first(), first.ctx, first.store),
        }
    }
}


/// Runs one generic assignment dispatch.
fn generic_step_exec(
    state: &AppState,
    var: &Vec<u8>,
    cmd: &[u8],
    ctx: &mut Context,
    store: &mut MemoryStore,
) -> (r: Option<(u16, Vec<u8>)>)
    ensures
        ({
            let out = generic_step(
                named_secs_model(state.schemas@),
                var@,
                cmd@,
                ctx_model(old(ctx)@),
                entry_models_of(old(store)@),
            );
            &&& ctx_model(final(ctx)@) == out.ctx
            &&& entry_models_of(final(store)@) == out.store
            &&& outcome_model(r) == out.outcome
        }),
{
    let parts = split_ws(cmd);
    if parts.len() == 0 {
        return None;
    }
    proof {
        assert(parts.deep_view()[0] =~= parts@[0]@);
    }
    let rest = args_tail(&parts, 1);
    proof {
        assert(parts.deep_view().skip(1) =~= parts.deep_view().drop_first());
    }
    let res = call_builtin(parts[0].as_slice(), &rest, ctx, state, store, Some(var));
    res_to_outcome(res)
}

/// The model of an optional terminal outcome.
pub open spec fn outcome_model(r: Option<(u16, Vec<u8>)>) -> Option<(int, Seq<u8>)> {
    match r {
        Some(t) => Some((t.0 as int, t.1@)),
        None => None,
    }
}

fn res_to_outcome(res: BuiltinResult) -> (r: Option<(u16, Vec<u8>)>)
    ensures
        outcome_model(r) == res_outcome(res.model()),
{
    match res {
        BuiltinResult::Okay => None,
        BuiltinResult::Respond(c, m) => Some((c, m)),
        BuiltinResult::Error(m) => Some((500, m)),
    }
}

/// Runs an assignment that is neither an object literal nor arithmetic.
fn rest_step_exec(
    state: &AppState,
    var: &Vec<u8>,
    cmd: &[u8],
    ctx: &mut Context,
    store: &mut MemoryStore,
) -> (r: Option<(u16, Vec<u8>)>)
    ensures
        ({
            let out = rest_step(
                named_secs_model(state.schemas@),
                var@,
                cmd@,
                ctx_model(old(ctx)@),
                entry_models_of(old(store)@),
            );
            &&& ctx_model(final(ctx)@) == out.ctx
            &&& entry_models_of(final(store)@) == out.store
            &&& outcome_model(r) == out.outcome
        }),
{
    let parts = split_ws(cmd);
    let br = crate::parse::idx_of_exec(var.as_slice(), 91);
    let vn = var.len();
    if br < vn && vn >= 1 && var[vn - 1] == 93 && br < vn - 1 {
        let bpart = crate::bytes::copy_range(var.as_slice(), 0, br);
        let base = trim(bpart.as_slice());
        let ipart = crate::bytes::copy_range(var.as_slice(), br + 1, vn - 1);
        let idx_expr = trim(ipart.as_slice());
        proof {
            assert(var@.take(br as int) =~= var@.subrange(0, br as int));
        }
        let idx: Option<i64> = match parse_i64_strict(idx_expr.as_slice()) {
            Some(n) => if n >= 0 {
                Some(n)
            } else {
                None
            },
            None => match obj_get(ctx, idx_expr.as_slice()) {
                Some(v) => match v {
                    Value::Num(x) => match x.int_value() {
                        Some(k) => if k >= 0 {
                            Some(k)
                        } else {
                            None
                        },
                        None => None,
                    },
                    _ => None,
                },
                None => None,
            },
        };
        if matches!(idx, Some(_)) && parts.len() == 1 {
            let i = match idx {
                Some(i) => i,
                None => 0,
            };
            proof {
                assert(parts.deep_view()[0] =~= parts@[0]@);
            }
            match resolve_path(ctx, parts[0].as_slice(), None) {
                Some(value) => {
                    let upd = match obj_get(ctx, base.as_slice()) {
                        Some(v) => match v {
                            Value::List(items) => {
                                proof {
                                    lemma_models_of(items@);
                                }
                                if (i as u64) < (items.len() as u64) {
                                    let mut arr = clone_list(items);
                                    let ghost arrm = models_of(arr@);
                                    let ghost prev = arr@;
                                    proof {
                                        lemma_models_of(prev);
                                    }
                                    arr.set(i as usize, value);
                                    proof {
                                        lemma_models_of(arr@);
                                        assert(models_of(arr@) =~~= arrm.update(
                                            i as int,
                                            models_of(arr@)[i as int],
                                        ));
                                    }
                                    Some(arr)
                                } else {
                                    None
                                }
                            },
                            _ => None,
                        },
                        None => None,
                    };
                    match upd {
                        Some(arr) => {
                            kv_insert(ctx, base, Value::List(arr));
                            return None;
                        },
                        None => {},
                    }
                },
                None => {},
            }
        }
    }
    generic_step_exec(state, var, cmd, ctx, store)
}

/// Runs an arithmetic assignment.
fn arith_step_exec(
    state: &AppState,
    var: &Vec<u8>,
    cmd: &[u8],
    opc: u8,
    pos: usize,
    ctx: &mut Context,
    store: &mut MemoryStore,
) -> (r: Option<(u16, Vec<u8>)>)
    requires
        pos + 2 < cmd@.len(),
    ensures
        ({
            let out = arith_step(
                named_secs_model(state.schemas@),
                var@,
                cmd@,
                opc,
                pos as int,
                ctx_model(old(ctx)@),
                entry_models_of(old(store)@),
            );
            &&& ctx_model(final(ctx)@) == out.ctx
            &&& entry_models_of(final(store)@) == out.store
            &&& outcome_model(r) == out.outcome
        }),
{
    let cn = cmd.len();
    let lpart = crate::bytes::copy_range(cmd, 0, pos);
    let left = trim(lpart.as_slice());
    let rpart = crate::bytes::copy_range(cmd, pos + 2, cn);
    let right = trim(rpart.as_slice());
    proof {
        assert(cmd@.take(pos as int) =~= cmd@.subrange(0, pos as int));
        assert(cmd@.skip(pos + 2) =~= cmd@.subrange(pos + 2, cmd@.len() as int));
    }
    let lparts = split_ws(left.as_slice());
    if lparts.len() == 0 {
        return rest_step_exec(state, var, cmd, ctx, store);
    }
    proof {
        assert(lparts.deep_view()[0] =~= lparts@[0]@);
        assert(lparts.deep_view().skip(1) =~= lparts.deep_view().drop_first());
    }
    let largs = args_tail(&lparts, 1);
    let res = call_builtin(lparts[0].as_slice(), &largs, ctx, state, store, Some(var));
    let okay = match &res {
        BuiltinResult::Okay => true,
        _ => false,
    };
    let lv0: Option<Value> = if okay {
        match obj_get(ctx, var.as_slice()) {
            Some(v) => Some(clone_value(v)),
            None => None,
        }
    } else {
        None
    };
    let lv: Option<Value> = match lv0 {
        Some(v) => Some(v),
        None => resolve_path(ctx, lparts[0].as_slice(), None),
    };
    let rv: Option<Value> = match parse_number(right.as_slice()) {
        Some(x) => Some(Value::Num(x)),
        None => resolve_path(ctx, right.as_slice(), None),
    };
    match (lv, rv) {
        (Some(Value::Num(a)), Some(Value::Num(b))) => {
            match arith_apply(opc, &a, &b) {
                Some(c) => {
                    kv_insert(ctx, clone_bytes(var), Value::Num(c));
                    None
                },
                None => rest_step_exec(state, var, cmd, ctx, store),
            }
        },
        _ => rest_step_exec(state, var, cmd, ctx, store),
    }
}

/// Runs one string step.
#[verifier::rlimit(100)]
fn string_step_exec(
    state: &AppState,
    s: &[u8],
    ctx: &mut Context,
    store: &mut MemoryStore,
) -> (r: Option<(u16, Vec<u8>)>)
    ensures
        ({
            let out = string_step_spec(
                named_secs_model(state.schemas@),
                s@,
                ctx_model(old(ctx)@),
                entry_models_of(old(store)@),
            );
            &&& ctx_model(final(ctx)@) == out.ctx
            &&& entry_models_of(final(store)@) == out.store
            &&& outcome_model(r) == out.outcome
        }),
{
    proof {
        reveal(string_step_spec);
    }
    let step = trim(s);
    let eq = find_assign_exec(step.as_slice());
    if eq < step.len() {
        let vpart = crate::bytes::copy_range(step.as_slice(), 0, eq);
        let var = trim(vpart.as_slice());
        let cpart = crate::bytes::copy_range(step.as_slice(), eq + 1, step.len());
        let cmd = trim(cpart.as_slice());
        proof {
            assert(step@.take(eq as int) =~= step@.subrange(0, eq as int));
            assert(step@.skip(eq + 1) =~= step@.subrange(eq + 1, step@.len() as int));
        }
        if cmd.len() > 0 && cmd[0] == 123 {
            let body: Vec<u8> = if cmd.len() >= 2 && cmd[cmd.len() - 1] == 125 {
                let b = crate::bytes::copy_range(cmd.as_slice(), 1, cmd.len() - 1);
                b
            } else {
                crate::bytes::copy_range(cmd.as_slice(), 0, cmd.len())
            };
            proof {
                assert(cmd@.subrange(0, cmd@.len() as int) =~= cmd@);
            }
            let pairs = split_comma_exec(body.as_slice());
            let ghost cm = ctx_model(ctx@);
            let ghost pm = pairs.deep_view();
            let mut mp: Vec<(Vec<u8>, Value)> = Vec::new();
            let mut i: usize = 0;
            proof {
                lemma_entry_models_of(mp@);
                assert(entry_models_of(mp@) =~= Seq::<(Seq<u8>, Val)>::empty());
            }
            #[verifier::loop_isolation(false)]
            while i < pairs.len()
                invariant
                    0 <= i <= pairs@.len(),
                    pm.len() == pairs@.len(),
                    obj_literal(cm, pm, 0, Seq::empty()) == obj_literal(
                        cm,
                        pm,
                        i as int,
                        entry_models_of(mp@),
                    ),
                decreases pairs@.len() - i,
            {
                proof {
                    assert(pm[i as int] =~= pairs@[i as int]@);
                }
                let p = trim(pairs[i].as_slice());
                if p.len() > 0 {
                    let cp = colon_find(p.as_slice());
                    if cp < p.len() {
                        let kpart = crate::bytes::copy_range(p.as_slice(), 0, cp);
                        let k0 = trim(kpart.as_slice());
                        let k1 = strip_braces_exec(k0.as_slice());
                        let k = trim(k1.as_slice());
                        let vpart2 = crate::bytes::copy_range(p.as_slice(), cp + 1, p.len());
                        let vexpr = trim(vpart2.as_slice());
                        proof {
                            assert(p@.take(cp as int) =~= p@.subrange(0, cp as int));
                            assert(p@.skip(cp + 1) =~= p@.subrange(cp + 1, p@.len() as int));
                        }
                        let v: Value = match resolve_path(ctx, vexpr.as_slice(), None) {
                            Some(rvv) => match rvv {
                                Value::Str(t) => match parse_number(t.as_slice()) {
                                    Some(x) => Value::Num(x),
                                    None => Value::Str(t),
                                },
                                other => other,
                            },
                            None => Value::Null,
                        };
                        kv_insert(&mut mp, k, v);
                    }
                }
                i = i + 1;
            }
            kv_insert(ctx, var, Value::Obj(mp));
            return None;
        }
        match op_find(cmd.as_slice(), 43) {
            Some(p) => {
                return arith_step_exec(state, &var, cmd.as_slice(), 43, p, ctx, store);
            },
            None => {},
        }
        match op_find(cmd.as_slice(), 45) {
            Some(p) => {
                return arith_step_exec(state, &var, cmd.as_slice(), 45, p, ctx, store);
            },
            None => {},
        }
        match op_find(cmd.as_slice(), 42) {
            Some(p) => {
                return arith_step_exec(state, &var, cmd.as_slice(), 42, p, ctx, store);
            },
            None => {},
        }
        match op_find(cmd.as_slice(), 47) {
            Some(p) => {
                return arith_step_exec(state, &var, cmd.as_slice(), 47, p, ctx, store);
            },
            None => {},
        }
        rest_step_exec(state, &var, cmd.as_slice(), ctx, store)
    } else {
        let parts = split_ws(step.as_slice());
        if parts.len() == 0 {
            return None;
        }
        proof {
            assert(parts.deep_view()[0] =~= parts@[0]@);
            assert(parts.deep_view().skip(1) =~= parts.deep_view().drop_first());
        }
        let rest = args_tail(&parts, 1);
        let res = call_builtin(parts[0].as_slice(), &rest, ctx, state, store, None);
        res_to_outcome(res)
    }
}

/// Runs a structured step: a one-entry object whose key opens with the
/// conditional prefix runs its nested list when the condition holds; any
/// other object passes.
fn map_step_exec(
    state: &AppState,
    m: &Vec<(Vec<u8>, Value)>,
    ctx: &mut Context,
    store: &mut MemoryStore,
) -> (r: Option<(u16, Vec<u8>)>)
    ensures
        ({
            let out = step_spec(
                named_secs_model(state.schemas@),
                Val::Obj(entry_models_of(m@)),
                ctx_model(old(ctx)@),
                entry_models_of(old(store)@),
            );
            &&& ctx_model(final(ctx)@) == out.ctx
            &&& entry_models_of(final(store)@) == out.store
            &&& outcome_model(r) == out.outcome
        }),
    decreases m@, 1int,
{
    proof {
        lemma_entry_models_of(m@);
    }
    if m.len() == 1 && m[0].0.len() >= 3 && m[0].0[0] == 105 && m[0].0[1] == 102 && m[0].0[2]
        == 32 {
        proof {
            assert(m@[0].0@.take(3) =~= if_prefix());
        }
        match &m[0].1 {
            Value::List(nested) => {
                let cpart = crate::bytes::copy_range(m[0].0.as_slice(), 3, m[0].0.len());
                proof {
                    assert(m@[0].0@.skip(3) =~= m@[0].0@.subrange(3, m@[0].0@.len() as int));
                }
                if eval_condition(ctx, cpart.as_slice(), None) {
                    execute_steps_inner(state, nested, ctx, store)
                } else {
                    None
                }
            },
            _ => None,
        }
    } else {
        proof {
            if entry_models_of(m@).len() == 1 && entry_models_of(m@)[0].0.len() >= 3 {
                assert(m@[0].0@.take(3)[0] == m@[0].0@[0]);
                assert(m@[0].0@.take(3)[1] == m@[0].0@[1]);
                assert(m@[0].0@.take(3)[2] == m@[0].0@[2]);
            }
        }
        None
    }
}

/// Evaluates an ordered step list against the context, strictly in order,
/// stopping at the first terminal outcome; nested conditionals recurse into
/// the same evaluator sharing the context.
#[verifier::rlimit(100)]
pub fn execute_steps_inner(
    state: &AppState,
    steps: &Vec<Value>,
    ctx: &mut Context,
    store: &mut MemoryStore,
) -> (r: Option<(u16, Vec<u8>)>)
    ensures
        ({
            let out = run_steps_spec(
                named_secs_model(state.schemas@),
                models_of(steps@),
                ctx_model(old(ctx)@),
                entry_models_of(old(store)@),
            );
            &&& ctx_model(final(ctx)@) == out.ctx
            &&& entry_models_of(final(store)@) == out.store
            &&& outcome_model(r) == out.outcome
        }),
    decreases steps@, 0int,
{
    let ghost sm = models_of(steps@);
    let ghost schm = named_secs_model(state.schemas@);
    proof {
        lemma_models_of(steps@);
    }
    let mut i: usize = 0;
    proof {
        assert(sm.skip(0) =~= sm);
    }
    #[verifier::loop_isolation(false)]
    while i < steps.len()
        invariant
            0 <= i <= steps@.len(),
            run_steps_spec(schm, sm, ctx_model(old(ctx)@), entry_models_of(old(store)@))
                == run_steps_spec(
                schm,
                sm.skip(i as int),
                ctx_model(ctx@),
                entry_models_of(store@),
            ),
        decreases steps@.len() - i,
    {
        proof {
            lemma_models_of(steps@);
            assert(sm[i as int] == steps@[i as int].model());
            assert(sm.skip(i as int)[0] == sm[i as int]);
            assert(sm.skip(i as int).drop_first() =~= sm.skip(i as int + 1));
            assert(sm.skip(i as int).len() > 0);
        }
        let step = &steps[i];
        let ghost pre_cm = ctx_model(ctx@);
        let ghost pre_st = entry_models_of(store@);
        match step {
            Value::Str(sbytes) => {
                let out = string_step_exec(state, sbytes.as_slice(), ctx, store);
                proof {
                    assert(sm[i as int] == Val::Str(sbytes@));
                    let fir = step_spec(schm, sm[i as int], pre_cm, pre_st);
                    assert(fir == string_step_spec(schm, sbytes@, pre_cm, pre_st));
                    assert(ctx_model(ctx@) == fir.ctx);
                    assert(entry_models_of(store@) == fir.store);
                    assert(outcome_model(out) == fir.outcome);
                    assert(run_steps_spec(schm, sm.skip(i as int), pre_cm, pre_st) == (
                    match fir.outcome {
                        Some(t) => fir,
                        None => run_steps_spec(schm, sm.skip(i as int + 1), fir.ctx, fir.store),
                    }));
                }
                match out {
                    Some(t) => {
                        return Some(t);
                    },
                    None => {},
                }
            },
            Value::Obj(m) => {
                proof {
                    assert(steps@[i as int].model() == Val::Obj(entry_models_of(m@)));
                }
                let out = map_step_exec(state, m, ctx, store);
                match out {
                    Some(t) => {
                        return Some(t);
                    },
                    None => {},
                }
            },
            _ => {},
        }
        i = i + 1;
    }
    proof {
        assert(sm.skip(i as int).len() == 0);
    }
    None
}


/// The fresh context an execution starts from: each path parameter flat at
/// top level and gathered under the `path.params` key, and the raw body, if
/// any, under `body`.
pub open spec fn init_ctx_spec(
    params: Option<Seq<(Seq<u8>, Seq<u8>)>>,
    body: Option<Seq<u8>>,
) -> Seq<(Seq<u8>, Val)> {
    let base: Seq<(Seq<u8>, Val)> = match params {
        Some(ps) => kv_insert_spec(
            flat_params(ps, 0, Seq::empty()),
            crate::ctx::pp_lit(),
            Val::Obj(flat_params(ps, 0, Seq::empty())),
        ),
        None => Seq::empty(),
    };
    match body {
        Some(b) => kv_insert_spec(base, "body".spec_bytes(), Val::Str(b)),
        None => base,
    }
}

/// The parameters inserted one after another as strings.
pub open spec fn flat_params(
    ps: Seq<(Seq<u8>, Seq<u8>)>,
    i: int,
    acc: Seq<(Seq<u8>, Val)>,
) -> Seq<(Seq<u8>, Val)>
    decreases ps.len() - i,
{
    if i < 0 || i >= ps.len() {
        acc
    } else {
        flat_params(ps, i + 1, kv_insert_spec(acc, ps[i].0, Val::Str(ps[i].1)))
    }
}

/// Executes a step list against a fresh context: the final status and body;
/// a run without a terminal outcome answers 200 `OK`, and a terminal status
/// outside the valid range answers 200.
pub fn execute_steps(
    state: &AppState,
    steps: &Vec<Value>,
    body: Option<Vec<u8>>,
    path_params: Option<Vec<(Vec<u8>, Vec<u8>)>>,
    store: &mut MemoryStore,
) -> (r: (u16, Vec<u8>))
    ensures
        ({
            let init = init_ctx_spec(
                match path_params {
                    Some(ps) => Some(crate::parse::env_models_of(ps@)),
                    None => None,
                },
                match body {
                    Some(b) => Some(b@),
                    None => None,
                },
            );
            let out = run_steps_spec(
                named_secs_model(state.schemas@),
                models_of(steps@),
                init,
                entry_models_of(old(store)@),
            );
            &&& entry_models_of(final(store)@) == out.store
            &&& match out.outcome {
                Some(t) => r.0 as int == (if 100 <= t.0 <= 999 {
                    t.0
                } else {
                    200int
                }) && r.1@ == t.1,
                None => r.0 == 200 && r.1@ == "OK".spec_bytes(),
            }
        }),
{
    let mut ctx: Context = Vec::new();
    match &path_params {
        Some(ps) => {
            let ghost psm = crate::parse::env_models_of(ps@);
            let mut flat: Vec<(Vec<u8>, Value)> = Vec::new();
            let mut i: usize = 0;
            proof {
                lemma_entry_models_of(flat@);
                assert(entry_models_of(flat@) =~= Seq::<(Seq<u8>, Val)>::empty());
            }
            #[verifier::loop_isolation(false)]
            while i < ps.len()
                invariant
                    0 <= i <= ps@.len(),
                    psm.len() == ps@.len(),
                    flat_params(psm, 0, Seq::empty()) == flat_params(
                        psm,
                        i as int,
                        entry_models_of(flat@),
                    ),
                decreases ps@.len() - i,
            {
                proof {
                    assert(psm[i as int] == (ps@[i as int].0@, ps@[i as int].1@));
                }
                let k = clone_bytes(&ps[i].0);
                let v = Value::Str(clone_bytes(&ps[i].1));
                kv_insert(&mut flat, k, v);
                i = i + 1;
            }
            let ppobj = crate::doc::clone_entries(&flat);
            ctx = flat;
            let pk = crate::ctx::pp_word();
            kv_insert(&mut ctx, pk, Value::Obj(ppobj));
        },
        None => {},
    }
    match &body {
        Some(b) => {
            let bk = lit("body");
            kv_insert(&mut ctx, bk, Value::Str(clone_bytes(b)));
        },
        None => {},
    }
    let out = execute_steps_inner(state, steps, &mut ctx, store);
    match out {
        Some((c, m)) => {
            if 100 <= c && c <= 999 {
                (c, m)
            } else {
                (200, m)
            }
        },
        None => (200, lit("OK")),
    }
}

/// A conditional step short-circuits: a step list opening with
/// `if cond: [nested...]` followed by further steps ends with the nested
/// list's terminal outcome when the condition holds and the nested list
/// terminates, and the later steps never run; when the condition fails, the
/// later steps run against the unchanged context.
pub proof fn lemma_conditional_short_circuit(
    schemas: Seq<(Seq<u8>, SectionModel)>,
    cond: Seq<u8>,
    nested: Seq<Val>,
    rest: Seq<Val>,
    ctxm: Seq<(Seq<u8>, Val)>,
    storem: Seq<(Seq<u8>, Val)>,
)
    ensures
        ({
            let step = Val::Obj(seq![(if_prefix() + cond, Val::List(nested))]);
            let all = seq![step] + rest;
            &&& (eval_condition_spec(ctxm, cond, None) && run_steps_spec(
                schemas,
                nested,
                ctxm,
                storem,
            ).outcome is Some ==> run_steps_spec(schemas, all, ctxm, storem) == run_steps_spec(
                schemas,
                nested,
                ctxm,
                storem,
            ))
            &&& (!eval_condition_spec(ctxm, cond, None) ==> run_steps_spec(
                schemas,
                all,
                ctxm,
                storem,
            ) == run_steps_spec(schemas, rest, ctxm, storem))
        }),
{
    let key = if_prefix() + cond;
    let step = Val::Obj(seq![(key, Val::List(nested))]);
    let all = seq![step] + rest;
    assert(all[0] == step);
    assert(all.drop_first() =~= rest);
    assert(key.take(3) =~= if_prefix());
    assert(key.skip(3) =~= cond);
    let fir = step_spec(schemas, step, ctxm, storem);
    if !eval_condition_spec(ctxm, cond, None) {
        assert(fir == RunOut { ctx: ctxm, store: storem, outcome: None::<(int, Seq<u8>)> });
    }
}

/// Arithmetic is exact: when an assignment step's left side passes through
/// dispatch untouched, the target is unbound, and both sides come out as
/// numbers whose exact result fits, the target is bound to that exact
/// ratio — which denotes an integer exactly when its numerator is divisible
/// by its denominator — and execution continues.
pub proof fn lemma_arith_step_exact(
    schemas: Seq<(Seq<u8>, SectionModel)>,
    var: Seq<u8>,
    cmd: Seq<u8>,
    opc: u8,
    pos: int,
    ctxm: Seq<(Seq<u8>, Val)>,
    storem: Seq<(Seq<u8>, Val)>,
    ln: int,
    ld: int,
    rn: int,
    rd: int,
)
    requires
        ws_tokens(trim_spec(cmd.take(pos))).len() > 0,
        ({
            let lparts = ws_tokens(trim_spec(cmd.take(pos)));
            call_builtin_spec(lparts[0], lparts.drop_first(), ctxm, schemas, storem, Some(var))
                == CallOut { ctx: ctxm, store: storem, res: BRes::Okay }
        }),
        obj_lookup(ctxm, var) is None,
        resolve_spec(ctxm, ws_tokens(trim_spec(cmd.take(pos)))[0], None) == Some(
            Val::Num { n: ln, d: ld },
        ),
        ({
            let right = trim_spec(cmd.skip(pos + 2));
            (match num_literal(right) {
                Some((n, d)) => Some(Val::Num { n, d }),
                None => resolve_spec(ctxm, right, None),
            }) == Some(Val::Num { n: rn, d: rd })
        }),
        arith_result(opc, ln, ld, rn, rd) is Some,
    ensures
        ({
            let p = arith_result(opc, ln, ld, rn, rd)->Some_0;
            arith_step(schemas, var, cmd, opc, pos, ctxm, storem) == RunOut {
                ctx: kv_insert_spec(ctxm, var, Val::Num { n: p.0, d: p.1 }),
                store: storem,
                outcome: None::<(int, Seq<u8>)>,
            }
        }),
{
}

} // verus!
