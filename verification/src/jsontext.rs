use vstd::prelude::*;
use crate::num::num_text;
use crate::value::{Value, Val, models_of, entry_models_of, lemma_models_of, lemma_entry_models_of};

verus! {

broadcast use {
    vstd::std_specs::vec::axiom_vec_index_decreases,
    vstd::std_specs::vec::axiom_vec_decreases_to_view,
    vstd::seq::axiom_seq_index_decreases,
};

/// The escape of one string byte inside JSON text: quote and backslash are
/// escaped, the named control characters take their short forms, any other
/// control byte takes a four-digit hexadecimal escape.
pub open spec fn esc_byte(b: u8) -> Seq<u8> {
    if b == 34 {
        seq![92u8, 34u8]
    } else if b == 92 {
        seq![92u8, 92u8]
    } else if b == 8 {
        seq![92u8, 98u8]
    } else if b == 12 {
        seq![92u8, 102u8]
    } else if b == 10 {
        seq![92u8, 110u8]
    } else if b == 13 {
        seq![92u8, 114u8]
    } else if b == 9 {
        seq![92u8, 116u8]
    } else if b < 32 {
        seq![92u8, 117u8, 48u8, 48u8, hex_digit(b / 16), hex_digit(b % 16)]
    } else {
        seq![b]
    }
}

/// One lower-case hexadecimal digit.
pub open spec fn hex_digit(x: u8) -> u8 {
    if x < 10 {
        (48 + x) as u8
    } else {
        (87 + x) as u8
    }
}

/// The body of a JSON string: every byte escaped.
pub open spec fn esc_all(s: Seq<u8>) -> Seq<u8>
    decreases s.len(),
{
    if s.len() == 0 {
        Seq::empty()
    } else {
        esc_byte(s[0]) + esc_all(s.drop_first())
    }
}

proof fn lemma_esc_all_push(s: Seq<u8>, b: u8)
    ensures
        esc_all(s.push(b)) == esc_all(s) + esc_byte(b),
    decreases s.len(),
{
    if s.len() == 0 {
        assert(s.push(b)[0] == b);
        assert(s.push(b).drop_first() =~= Seq::<u8>::empty());
        assert(esc_all(s) == Seq::<u8>::empty());
        assert(esc_all(s.push(b)) == esc_byte(b) + esc_all(s.push(b).drop_first()));
        assert(esc_all(s.push(b).drop_first()) == Seq::<u8>::empty());
        assert(esc_byte(b) + Seq::<u8>::empty() =~= Seq::<u8>::empty() + esc_byte(b));
    } else {
        lemma_esc_all_push(s.drop_first(), b);
        assert(s.push(b).drop_first() =~= s.drop_first().push(b));
        assert(esc_byte(s[0]) + (esc_all(s.drop_first()) + esc_byte(b)) =~= (esc_byte(s[0])
            + esc_all(s.drop_first())) + esc_byte(b));
    }
}

/// The JSON text of a value: `null`, a boolean word, the exact decimal of a
/// number, a quoted escaped string, a bracketed list, or a braced object.
pub open spec fn json_text(v: Val) -> Seq<u8>
    decreases v,
{
    match v {
        Val::Null => seq![110u8, 117u8, 108u8, 108u8],
        Val::Bool(b) => if b {
            seq![116u8, 114u8, 117u8, 101u8]
        } else {
            seq![102u8, 97u8, 108u8, 115u8, 101u8]
        },
        Val::Num { n, d } => if d >= 1 {
            num_text(n, d)
        } else {
            seq![48u8]
        },
        Val::Str(s) => seq![34u8] + esc_all(s) + seq![34u8],
        Val::List(items) => seq![91u8] + json_items_text(items) + seq![93u8],
        Val::Obj(entries) => seq![123u8] + json_entries_text(entries) + seq![125u8],
    }
}

/// The comma-separated JSON texts of list items.
pub open spec fn json_items_text(items: Seq<Val>) -> Seq<u8>
    decreases items,
{
    if items.len() == 0 {
        Seq::empty()
    } else if items.len() == 1 {
        json_text(items[0])
    } else {
        json_items_text(items.drop_last()) + seq![44u8] + json_text(items.last())
    }
}

/// The comma-separated JSON texts of object entries.
pub open spec fn json_entries_text(entries: Seq<(Seq<u8>, Val)>) -> Seq<u8>
    decreases entries,
{
    if entries.len() == 0 {
        Seq::empty()
    } else {
        let one = seq![34u8] + esc_all(entries.last().0) + seq![34u8, 58u8] + json_text(
            entries.last().1,
        );
        if entries.len() == 1 {
            one
        } else {
            json_entries_text(entries.drop_last()) + seq![44u8] + one
        }
    }
}

fn push_bytes(out: &mut Vec<u8>, s: &[u8])
    ensures
        final(out)@ == old(out)@ + s@,
{
    let mut i: usize = 0;
    #[verifier::loop_isolation(false)]
    while i < s.len()
        invariant
            0 <= i <= s@.len(),
            out@ == old(out)@ + s@.take(i as int),
        decreases s@.len() - i,
    {
        out.push(s[i]);
        proof {
            assert(s@.take(i + 1) =~= s@.take(i as int) + seq![s@[i as int]]);
        }
        i = i + 1;
    }
    proof {
        assert(s@.take(i as int) =~= s@);
    }
}

fn push_escaped(out: &mut Vec<u8>, s: &[u8])
    ensures
        final(out)@ == old(out)@ + esc_all(s@),
{
    let mut i: usize = 0;
    proof {
        assert(esc_all(s@.take(0)) =~= Seq::<u8>::empty());
        assert(out@ + esc_all(s@.take(0)) =~= out@);
    }
    #[verifier::loop_isolation(false)]
    while i < s.len()
        invariant
            0 <= i <= s@.len(),
            out@ == old(out)@ + esc_all(s@.take(i as int)),
        decreases s@.len() - i,
    {
        let b = s[i];
        let ghost pre = out@;
        if b == 34 {
            out.push(92);
            out.push(34);
        } else if b == 92 {
            out.push(92);
            out.push(92);
        } else if b == 8 {
            out.push(92);
            out.push(98);
        } else if b == 12 {
            out.push(92);
            out.push(102);
        } else if b == 10 {
            out.push(92);
            out.push(110);
        } else if b == 13 {
            out.push(92);
            out.push(114);
        } else if b == 9 {
            out.push(92);
            out.push(116);
        } else if b < 32 {
            out.push(92);
            out.push(117);
            out.push(48);
            out.push(48);
            let hi = b / 16;
            let lo = b % 16;
            out.push(if hi < 10 {
                48 + hi
            } else {
                87 + hi
            });
            out.push(if lo < 10 {
                48 + lo
            } else {
                87 + lo
            });
        } else {
            out.push(b);
        }
        proof {
            assert(out@ =~= pre + esc_byte(s@[i as int]));
            lemma_esc_all_push(s@.take(i as int), s@[i as int]);
            assert(s@.take(i + 1) =~= s@.take(i as int).push(s@[i as int]));
            assert(pre + esc_byte(s@[i as int]) =~= old(out)@ + esc_all(s@.take(i + 1)));
        }
        i = i + 1;
    }
    proof {
        assert(s@.take(i as int) =~= s@);
    }
}

/// Appends the JSON text of a value.
#[verifier::rlimit(100)]
pub fn push_json(out: &mut Vec<u8>, v: &Value)
    ensures
        final(out)@ == old(out)@ + json_text(v.model()),
    decreases *v,
{
    match v {
        Value::Null => {
            out.push(110);
            out.push(117);
            out.push(108);
            out.push(108);
            proof {
                assert(final(out)@ =~= old(out)@ + json_text(v.model()));
            }
        },
        Value::Bool(b) => {
            if *b {
                out.push(116);
                out.push(114);
                out.push(117);
                out.push(101);
            } else {
                out.push(102);
                out.push(97);
                out.push(108);
                out.push(115);
                out.push(101);
            }
            proof {
                assert(final(out)@ =~= old(out)@ + json_text(v.model()));
            }
        },
        Value::Num(x) => {
            let t = x.to_text_total();
            push_bytes(out, t.as_slice());
        },
        Value::Str(s) => {
            out.push(34);
            push_escaped(out, s.as_slice());
            out.push(34);
            proof {
                assert(final(out)@ =~= old(out)@ + json_text(v.model()));
            }
        },
        Value::List(items) => {
            out.push(91);
            let ghost m = models_of(items@);
            proof {
                lemma_models_of(items@);
                assert(json_items_text(m.take(0)) =~= Seq::<u8>::empty());
            }
            let mut i: usize = 0;
            let ghost base = out@;
            proof {
                assert(out@ =~= base + json_items_text(m.take(0)));
            }
            #[verifier::loop_isolation(false)]
            while i < items.len()
                invariant
                    0 <= i <= items@.len(),
                    m.len() == items@.len(),
                    out@ == base + json_items_text(m.take(i as int)),
                decreases items@.len() - i,
            {
                let ghost pre = out@;
                if i > 0 {
                    out.push(44);
                }
                push_json(out, &items[i]);
                proof {
                    assert(m.take(i + 1).drop_last() =~= m.take(i as int));
                    assert(m.take(i + 1).last() == m[i as int]);
                    if i == 0 {
                        assert(out@ =~= base + json_items_text(m.take(1)));
                    } else {
                        assert(out@ =~= (base + json_items_text(m.take(i as int))) + seq![44u8]
                            + json_text(m[i as int]));
                        assert((base + json_items_text(m.take(i as int))) + seq![44u8] + json_text(
                            m[i as int],
                        ) =~= base + (json_items_text(m.take(i as int)) + seq![44u8] + json_text(
                            m[i as int],
                        )));
                    }
                }
                i = i + 1;
            }
            out.push(93);
            proof {
                assert(m.take(i as int) =~= m);
                assert(final(out)@ =~= old(out)@ + json_text(v.model()));
            }
        },
        Value::Obj(entries) => {
            out.push(123);
            let ghost m = entry_models_of(entries@);
            proof {
                lemma_entry_models_of(entries@);
                assert(json_entries_text(m.take(0)) =~= Seq::<u8>::empty());
            }
            let mut i: usize = 0;
            let ghost base = out@;
            proof {
                assert(out@ =~= base + json_entries_text(m.take(0)));
            }
            #[verifier::loop_isolation(false)]
            while i < entries.len()
                invariant
                    0 <= i <= entries@.len(),
                    m.len() == entries@.len(),
                    out@ == base + json_entries_text(m.take(i as int)),
                decreases entries@.len() - i,
            {
                let ghost pre = out@;
                if i > 0 {
                    out.push(44);
                }
                out.push(34);
                push_escaped(out, entries[i].0.as_slice());
                out.push(34);
                out.push(58);
                push_json(out, &entries[i].1);
                proof {
                    let one = seq![34u8] + esc_all(m[i as int].0) + seq![34u8, 58u8] + json_text(
                        m[i as int].1,
                    );
                    assert(m.take(i + 1).drop_last() =~= m.take(i as int));
                    assert(m.take(i + 1).last() == m[i as int]);
                    if i == 0 {
                        assert(out@ =~= base + json_entries_text(m.take(1)));
                    } else {
                        assert(out@ =~= base + (json_entries_text(m.take(i as int)) + seq![44u8]
                            + one));
                    }
                }
                i = i + 1;
            }
            out.push(125);
            proof {
                assert(m.take(i as int) =~= m);
                assert(final(out)@ =~= old(out)@ + json_text(v.model()));
            }
        },
    }
}

/// The JSON text of a value.
pub fn to_json(v: &Value) -> (r: Vec<u8>)
    ensures
        r@ == json_text(v.model()),
{
    let mut out: Vec<u8> = Vec::new();
    push_json(&mut out, v);
    out
}

} // verus!
