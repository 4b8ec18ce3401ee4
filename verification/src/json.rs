use vstd::prelude::*;
use crate::num::{num_literal, parse_number, is_digit};
use crate::value::{Value, Val, models_of, entry_models_of, lemma_models_of, kv_insert_spec,
    kv_insert};
use crate::bytes::copy_range;

verus! {

broadcast use {
    vstd::std_specs::vec::axiom_vec_index_decreases,
    vstd::seq::axiom_seq_index_decreases,
};

/// JSON whitespace.
pub open spec fn is_jws(b: u8) -> bool {
    b == 32 || b == 9 || b == 10 || b == 13
}

/// Index of the first byte at or after `i` that is not JSON whitespace.
pub open spec fn jskip(s: Seq<u8>, i: int) -> int
    decreases s.len() - i,
{
    if i < 0 || i >= s.len() {
        s.len() as int
    } else if is_jws(s[i]) {
        jskip(s, i + 1)
    } else {
        i
    }
}

pub proof fn lemma_jskip_bounds(s: Seq<u8>, i: int)
    requires
        0 <= i <= s.len(),
    ensures
        i <= jskip(s, i) <= s.len(),
    decreases s.len() - i,
{
    if i < s.len() && is_jws(s[i]) {
        lemma_jskip_bounds(s, i + 1);
    }
}

fn jskip_exec(s: &[u8], i: usize) -> (r: usize)
    requires
        i <= s@.len(),
    ensures
        r == jskip(s@, i as int),
        i <= r <= s@.len(),
{
    proof {
        lemma_jskip_bounds(s@, i as int);
    }
    let mut j = i;
    #[verifier::loop_isolation(false)]
    while j < s.len() && (s[j] == 32 || s[j] == 9 || s[j] == 10 || s[j] == 13)
        invariant
            i <= j <= s@.len(),
            jskip(s@, i as int) == jskip(s@, j as int),
        decreases s@.len() - j,
    {
        j = j + 1;
    }
    j
}

/// A byte that can appear in a JSON number token.
pub open spec fn is_numbyte(b: u8) -> bool {
    is_digit(b) || b == 45 || b == 43 || b == 46 || b == 101 || b == 69
}

/// Length of the maximal run of number bytes from `i`.
pub open spec fn numrun(s: Seq<u8>, i: int) -> int
    decreases s.len() - i,
{
    if i < 0 || i >= s.len() || !is_numbyte(s[i]) {
        0
    } else {
        1 + numrun(s, i + 1)
    }
}

pub proof fn lemma_numrun_bounds(s: Seq<u8>, i: int)
    requires
        0 <= i <= s.len(),
    ensures
        0 <= numrun(s, i) <= s.len() - i,
    decreases s.len() - i,
{
    if i < s.len() && is_numbyte(s[i]) {
        lemma_numrun_bounds(s, i + 1);
    }
}

fn numrun_exec(s: &[u8], i: usize) -> (r: usize)
    requires
        i <= s@.len(),
    ensures
        r == numrun(s@, i as int),
        i + r <= s@.len(),
{
    proof {
        lemma_numrun_bounds(s@, i as int);
    }
    let mut j = i;
    #[verifier::loop_isolation(false)]
    while j < s.len() && numbyte(s[j])
        invariant
            i <= j <= s@.len(),
            numrun(s@, i as int) == (j - i) + numrun(s@, j as int),
        decreases s@.len() - j,
    {
        j = j + 1;
    }
    j - i
}

fn numbyte(b: u8) -> (r: bool)
    ensures
        r == is_numbyte(b),
{
    (48 <= b && b <= 57) || b == 45 || b == 43 || b == 46 || b == 101 || b == 69
}

/// The result of parsing one piece of JSON text: the value and the index
/// just past it, or nothing when the text is not well-formed.
pub ghost struct JOut {
    pub v: Val,
    pub next: int,
}

/// One parsed JSON string body starting after the opening quote: the
/// decoded bytes and the index just past the closing quote.  The short
/// escapes are decoded; unicode escapes and raw control bytes are refused.
pub open spec fn jstring(s: Seq<u8>, i: int, acc: Seq<u8>) -> Option<(Seq<u8>, int)>
    decreases s.len() - i,
{
    if i < 0 || i >= s.len() {
        None
    } else if s[i] == 34 {
        Some((acc, i + 1))
    } else if s[i] == 92 {
        if i + 1 >= s.len() {
            None
        } else {
            let e = s[i + 1];
            if e == 34 || e == 92 || e == 47 {
                jstring(s, i + 2, acc.push(e))
            } else if e == 98 {
                jstring(s, i + 2, acc.push(8))
            } else if e == 102 {
                jstring(s, i + 2, acc.push(12))
            } else if e == 110 {
                jstring(s, i + 2, acc.push(10))
            } else if e == 114 {
                jstring(s, i + 2, acc.push(13))
            } else if e == 116 {
                jstring(s, i + 2, acc.push(9))
            } else {
                None
            }
        }
    } else if s[i] < 32 {
        None
    } else {
        jstring(s, i + 1, acc.push(s[i]))
    }
}

fn jstring_exec(s: &[u8], i: usize, acc: Vec<u8>) -> (r: Option<(Vec<u8>, usize)>)
    requires
        i <= s@.len(),
    ensures
        match r {
            Some(p) => jstring(s@, i as int, acc@) == Some((p.0@, p.1 as int)) && p.1 <= s@.len(),
            None => jstring(s@, i as int, acc@) is None,
        },
    decreases s@.len() - i,
{
    let mut out = acc;
    let mut j = i;
    #[verifier::loop_isolation(false)]
    loop
        invariant
            i <= j <= s@.len(),
            jstring(s@, i as int, acc@) == jstring(s@, j as int, out@),
        decreases s@.len() - j,
    {
        if j >= s.len() {
            return None;
        }
        let b = s[j];
        if b == 34 {
            return Some((out, j + 1));
        }
        if b == 92 {
            if j + 1 >= s.len() {
                return None;
            }
            let e = s[j + 1];
            if e == 34 || e == 92 || e == 47 {
                out.push(e);
            } else if e == 98 {
                out.push(8);
            } else if e == 102 {
                out.push(12);
            } else if e == 110 {
                out.push(10);
            } else if e == 114 {
                out.push(13);
            } else if e == 116 {
                out.push(9);
            } else {
                return None;
            }
            j = j + 2;
        } else if b < 32 {
            return None;
        } else {
            out.push(b);
            j = j + 1;
        }
    }
}

/// One parsed JSON value starting at `i` (whitespace already skipped), with
/// `fuel` bounding the call depth; every step of a parse consumes at least
/// one byte, so the starting fuel below never runs out.
pub open spec fn jvalue(s: Seq<u8>, i: int, fuel: nat) -> Option<JOut>
    decreases fuel,
{
    if fuel == 0 {
        None
    } else if i < 0 || i >= s.len() {
        None
    } else if s[i] == 110 {
        if i + 4 <= s.len() && s.subrange(i, i + 4) == crate::ctx::null_lit() {
            Some(JOut { v: Val::Null, next: i + 4 })
        } else {
            None
        }
    } else if s[i] == 116 {
        if i + 4 <= s.len() && s.subrange(i, i + 4) == crate::parse::true_lit() {
            Some(JOut { v: Val::Bool(true), next: i + 4 })
        } else {
            None
        }
    } else if s[i] == 102 {
        if i + 5 <= s.len() && s.subrange(i, i + 5) == crate::parse::false_lit() {
            Some(JOut { v: Val::Bool(false), next: i + 5 })
        } else {
            None
        }
    } else if s[i] == 34 {
        match jstring(s, i + 1, Seq::empty()) {
            Some(p) => Some(JOut { v: Val::Str(p.0), next: p.1 }),
            None => None,
        }
    } else if s[i] == 91 {
        jitems(s, jskip(s, i + 1), Seq::empty(), true, (fuel - 1) as nat)
    } else if s[i] == 123 {
        jentries(s, jskip(s, i + 1), Seq::empty(), true, (fuel - 1) as nat)
    } else {
        let n = numrun(s, i);
        if n >= 1 && num_literal(s.subrange(i, i + n)) is Some {
            let p = num_literal(s.subrange(i, i + n))->Some_0;
            Some(JOut { v: Val::Num { n: p.0, d: p.1 }, next: i + n })
        } else {
            None
        }
    }
}

/// The elements of a JSON array from `i` on, the opening bracket consumed.
pub open spec fn jitems(s: Seq<u8>, i: int, acc: Seq<Val>, first: bool, fuel: nat) -> Option<JOut>
    decreases fuel,
{
    if fuel == 0 {
        None
    } else if i < 0 || i >= s.len() {
        None
    } else if first && s[i] == 93 {
        Some(JOut { v: Val::List(acc), next: i + 1 })
    } else {
        match jvalue(s, i, (fuel - 1) as nat) {
            Some(el) => {
                let k = jskip(s, el.next);
                if k < s.len() && s[k] == 44 {
                    jitems(s, jskip(s, k + 1), acc.push(el.v), false, (fuel - 1) as nat)
                } else if k < s.len() && s[k] == 93 {
                    Some(JOut { v: Val::List(acc.push(el.v)), next: k + 1 })
                } else {
                    None
                }
            },
            None => None,
        }
    }
}

/// The entries of a JSON object from `i` on, the opening brace consumed; a
/// repeated key keeps the later binding.
pub open spec fn jentries(s: Seq<u8>, i: int, acc: Seq<(Seq<u8>, Val)>, first: bool, fuel: nat) -> Option<JOut>
    decreases fuel,
{
    if fuel == 0 {
        None
    } else if i < 0 || i >= s.len() {
        None
    } else if first && s[i] == 125 {
        Some(JOut { v: Val::Obj(acc), next: i + 1 })
    } else if s[i] == 34 {
        match jstring(s, i + 1, Seq::empty()) {
            Some(kp) => {
                let c = jskip(s, kp.1);
                if c < s.len() && s[c] == 58 {
                    match jvalue(s, jskip(s, c + 1), (fuel - 1) as nat) {
                        Some(el) => {
                            let k = jskip(s, el.next);
                            let acc2 = kv_insert_spec(acc, kp.0, el.v);
                            if k < s.len() && s[k] == 44 {
                                jentries(s, jskip(s, k + 1), acc2, false, (fuel - 1) as nat)
                            } else if k < s.len() && s[k] == 125 {
                                Some(JOut { v: Val::Obj(acc2), next: k + 1 })
                            } else {
                                None
                            }
                        },
                        None => None,
                    }
                } else {
                    None
                }
            },
            None => None,
        }
    } else {
        None
    }
}

/// What a whole JSON text denotes: one value with only whitespace around it.
pub open spec fn json_value_of(s: Seq<u8>) -> Option<Val> {
    match jvalue(s, jskip(s, 0), (s.len() + 2) as nat) {
        Some(out) => if jskip(s, out.next) == s.len() {
            Some(out.v)
        } else {
            None
        },
        None => None,
    }
}


/// Parses one JSON value.
fn jvalue_exec(s: &[u8], i: usize, fuel: u128) -> (r: Option<(Value, usize)>)
    requires
        i <= s@.len(),
    ensures
        match r {
            Some(p) => jvalue(s@, i as int, fuel as nat) == Some(
                JOut { v: p.0.model(), next: p.1 as int },
            ) && p.1 <= s@.len(),
            None => jvalue(s@, i as int, fuel as nat) is None,
        },
    decreases fuel,
{
    if fuel == 0 {
        return None;
    }
    if i >= s.len() {
        return None;
    }
    let b = s[i];
    if b == 110 {
        if s.len() - i >= 4 && s[i + 1] == 117 && s[i + 2] == 108 && s[i + 3] == 108 {
            proof {
                assert(s@.subrange(i as int, i + 4) =~= crate::ctx::null_lit());
            }
            return Some((Value::Null, i + 4));
        }
        proof {
            if i + 4 <= s@.len() {
                assert(s@.subrange(i as int, i + 4)[1] == s@[i + 1]);
                assert(s@.subrange(i as int, i + 4)[2] == s@[i + 2]);
                assert(s@.subrange(i as int, i + 4)[3] == s@[i + 3]);
            }
        }
        return None;
    }
    if b == 116 {
        if s.len() - i >= 4 && s[i + 1] == 114 && s[i + 2] == 117 && s[i + 3] == 101 {
            proof {
                assert(s@.subrange(i as int, i + 4) =~= crate::parse::true_lit());
            }
            return Some((Value::Bool(true), i + 4));
        }
        proof {
            if i + 4 <= s@.len() {
                assert(s@.subrange(i as int, i + 4)[1] == s@[i + 1]);
                assert(s@.subrange(i as int, i + 4)[2] == s@[i + 2]);
                assert(s@.subrange(i as int, i + 4)[3] == s@[i + 3]);
            }
        }
        return None;
    }
    if b == 102 {
        if s.len() - i >= 5 && s[i + 1] == 97 && s[i + 2] == 108 && s[i + 3] == 115 && s[i + 4]
            == 101 {
            proof {
                assert(s@.subrange(i as int, i + 5) =~= crate::parse::false_lit());
            }
            return Some((Value::Bool(false), i + 5));
        }
        proof {
            if i + 5 <= s@.len() {
                assert(s@.subrange(i as int, i + 5)[1] == s@[i + 1]);
                assert(s@.subrange(i as int, i + 5)[2] == s@[i + 2]);
                assert(s@.subrange(i as int, i + 5)[3] == s@[i + 3]);
                assert(s@.subrange(i as int, i + 5)[4] == s@[i + 4]);
            }
        }
        return None;
    }
    if b == 34 {
        return match jstring_exec(s, i + 1, Vec::new()) {
            Some(p) => Some((Value::Str(p.0), p.1)),
            None => None,
        };
    }
    if b == 91 {
        let j = jskip_exec(s, i + 1);
        return jitems_exec(s, j, Vec::new(), true, fuel - 1);
    }
    if b == 123 {
        let j = jskip_exec(s, i + 1);
        return jentries_exec(s, j, Vec::new(), true, fuel - 1);
    }
    let n = numrun_exec(s, i);
    if n >= 1 {
        let tok = copy_range(s, i, i + n);
        match parse_number(tok.as_slice()) {
            Some(x) => Some((Value::Num(x), i + n)),
            None => None,
        }
    } else {
        None
    }
}

/// Parses the elements of a JSON array.
fn jitems_exec(s: &[u8], i: usize, acc: Vec<Value>, first: bool, fuel: u128) -> (r: Option<
    (Value, usize),
>)
    requires
        i <= s@.len(),
    ensures
        match r {
            Some(p) => jitems(s@, i as int, models_of(acc@), first, fuel as nat) == Some(
                JOut { v: p.0.model(), next: p.1 as int },
            ) && p.1 <= s@.len(),
            None => jitems(s@, i as int, models_of(acc@), first, fuel as nat) is None,
        },
    decreases fuel,
{
    if fuel == 0 {
        return None;
    }
    if i >= s.len() {
        return None;
    }
    if first && s[i] == 93 {
        return Some((Value::List(acc), i + 1));
    }
    match jvalue_exec(s, i, fuel - 1) {
        Some((el, nx)) => {
            let k = jskip_exec(s, nx);
            let ghost accm = models_of(acc@);
            let mut acc2 = acc;
            let ghost pre = acc2@;
            acc2.push(el);
            proof {
                lemma_models_of(pre);
                lemma_models_of(acc2@);
                assert(models_of(acc2@) =~= accm.push(acc2@.last().model()));
            }
            if k < s.len() && s[k] == 44 {
                let j = jskip_exec(s, k + 1);
                jitems_exec(s, j, acc2, false, fuel - 1)
            } else if k < s.len() && s[k] == 93 {
                Some((Value::List(acc2), k + 1))
            } else {
                None
            }
        },
        None => None,
    }
}

/// Parses the entries of a JSON object.
fn jentries_exec(s: &[u8], i: usize, acc: Vec<(Vec<u8>, Value)>, first: bool, fuel: u128) -> (r:
    Option<(Value, usize)>)
    requires
        i <= s@.len(),
    ensures
        match r {
            Some(p) => jentries(s@, i as int, entry_models_of(acc@), first, fuel as nat) == Some(
                JOut { v: p.0.model(), next: p.1 as int },
            ) && p.1 <= s@.len(),
            None => jentries(s@, i as int, entry_models_of(acc@), first, fuel as nat) is None,
        },
    decreases fuel,
{
    if fuel == 0 {
        return None;
    }
    if i >= s.len() {
        return None;
    }
    if first && s[i] == 125 {
        return Some((Value::Obj(acc), i + 1));
    }
    if s[i] != 34 {
        return None;
    }
    match jstring_exec(s, i + 1, Vec::new()) {
        Some((key, knx)) => {
            let c = jskip_exec(s, knx);
            if c < s.len() && s[c] == 58 {
                let vstart = jskip_exec(s, c + 1);
                match jvalue_exec(s, vstart, fuel - 1) {
                    Some((el, nx)) => {
                        let k = jskip_exec(s, nx);
                        let mut acc2 = acc;
                        kv_insert(&mut acc2, key, el);
                        if k < s.len() && s[k] == 44 {
                            let j = jskip_exec(s, k + 1);
                            jentries_exec(s, j, acc2, false, fuel - 1)
                        } else if k < s.len() && s[k] == 125 {
                            Some((Value::Obj(acc2), k + 1))
                        } else {
                            None
                        }
                    },
                    None => None,
                }
            } else {
                None
            }
        },
        None => None,
    }
}

/// Parses a whole JSON text: one value with only whitespace around it.
pub fn parse_json_text(s: &[u8]) -> (r: Option<Value>)
    ensures
        match r {
            Some(v) => json_value_of(s@) == Some(v.model()),
            None => json_value_of(s@) is None,
        },
{
    let start = jskip_exec(s, 0);
    let fuel: u128 = (s.len() as u128) + 2;
    match jvalue_exec(s, start, fuel) {
        Some((v, nx)) => {
            let e = jskip_exec(s, nx);
            if e == s.len() {
                Some(v)
            } else {
                None
            }
        },
        None => None,
    }
}

} // verus!
