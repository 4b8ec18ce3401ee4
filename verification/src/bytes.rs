use vstd::prelude::*;

verus! {

/// Horizontal whitespace inside a line: space, tab, carriage return.
pub open spec fn is_ws(b: u8) -> bool {
    b == 32 || b == 9 || b == 13
}

pub fn ws_byte(b: u8) -> (r: bool)
    ensures
        r == is_ws(b),
{
    b == 32 || b == 9 || b == 13
}

/// The line without its leading whitespace.
pub open spec fn trim_start_spec(s: Seq<u8>) -> Seq<u8>
    decreases s.len(),
{
    if s.len() == 0 {
        s
    } else if is_ws(s[0]) {
        trim_start_spec(s.drop_first())
    } else {
        s
    }
}

/// The line without its trailing whitespace.
pub open spec fn trim_end_spec(s: Seq<u8>) -> Seq<u8>
    decreases s.len(),
{
    if s.len() == 0 {
        s
    } else if is_ws(s.last()) {
        trim_end_spec(s.drop_last())
    } else {
        s
    }
}

/// The line without leading or trailing whitespace.
pub open spec fn trim_spec(s: Seq<u8>) -> Seq<u8> {
    trim_end_spec(trim_start_spec(s))
}

pub proof fn lemma_trim_start_skip(s: Seq<u8>, i: int)
    requires
        0 <= i <= s.len(),
        forall|j: int| 0 <= j < i ==> is_ws(s[j]),
        i == s.len() || !is_ws(s[i]),
    ensures
        trim_start_spec(s) == s.skip(i),
    decreases i,
{
    if i == 0 {
        assert(s.skip(0) =~= s);
    } else {
        lemma_trim_start_skip(s.drop_first(), i - 1);
        assert(s.drop_first().skip(i - 1) =~= s.skip(i));
    }
}

pub proof fn lemma_trim_end_take(s: Seq<u8>, i: int)
    requires
        0 <= i <= s.len(),
        forall|j: int| i <= j < s.len() ==> is_ws(s[j]),
        i == 0 || !is_ws(s[i - 1]),
    ensures
        trim_end_spec(s) == s.take(i),
    decreases s.len() - i,
{
    if i == s.len() {
        assert(s.take(i) =~= s);
    } else {
        lemma_trim_end_take(s.drop_last(), i);
        assert(s.drop_last().take(i) =~= s.take(i));
    }
}

pub fn copy_range(s: &[u8], a: usize, b: usize) -> (r: Vec<u8>)
    requires
        a <= b <= s@.len(),
    ensures
        r@ == s@.subrange(a as int, b as int),
{
    let mut out: Vec<u8> = Vec::new();
    let mut i: usize = a;
    #[verifier::loop_isolation(false)]
    while i < b
        invariant
            a <= i <= b,
            out@ == s@.subrange(a as int, i as int),
        decreases b - i,
    {
        out.push(s[i]);
        proof {
            assert(s@.subrange(a as int, i + 1) =~= s@.subrange(a as int, i as int) + seq![
                s@[i as int],
            ]);
        }
        i = i + 1;
    }
    out
}

/// Index of the first byte that is not horizontal whitespace.
pub fn leading_ws(s: &[u8]) -> (r: usize)
    ensures
        0 <= r <= s@.len(),
        forall|j: int| 0 <= j < r ==> is_ws(s@[j]),
        r < s@.len() ==> !is_ws(s@[r as int]),
{
    let mut i: usize = 0;
    #[verifier::loop_isolation(false)]
    while i < s.len() && ws_byte(s[i])
        invariant
            0 <= i <= s@.len(),
            forall|j: int| 0 <= j < i ==> is_ws(s@[j]),
        decreases s@.len() - i,
    {
        i = i + 1;
    }
    i
}

pub fn trim_start(s: &[u8]) -> (r: Vec<u8>)
    ensures
        r@ == trim_start_spec(s@),
{
    let i = leading_ws(s);
    let r = copy_range(s, i, s.len());
    proof {
        lemma_trim_start_skip(s@, i as int);
        assert(s@.skip(i as int) =~= s@.subrange(i as int, s@.len() as int));
    }
    r
}

pub fn trim_end(s: &[u8]) -> (r: Vec<u8>)
    ensures
        r@ == trim_end_spec(s@),
{
    let mut e: usize = s.len();
    #[verifier::loop_isolation(false)]
    while e > 0 && ws_byte(s[e - 1])
        invariant
            0 <= e <= s@.len(),
            forall|j: int| e <= j < s@.len() ==> is_ws(s@[j]),
        decreases e,
    {
        e = e - 1;
    }
    let r = copy_range(s, 0, e);
    proof {
        lemma_trim_end_take(s@, e as int);
        assert(s@.take(e as int) =~= s@.subrange(0, e as int));
    }
    r
}

pub fn trim(s: &[u8]) -> (r: Vec<u8>)
    ensures
        r@ == trim_spec(s@),
{
    let t = trim_start(s);
    trim_end(t.as_slice())
}

/// Index of the first occurrence of `c`, if any.
pub fn find_byte(s: &[u8], c: u8) -> (r: Option<usize>)
    ensures
        match r {
            Some(i) => 0 <= i < s@.len() && s@[i as int] == c && forall|j: int|
                0 <= j < i ==> s@[j] != c,
            None => forall|j: int| 0 <= j < s@.len() ==> s@[j] != c,
        },
{
    let mut i: usize = 0;
    #[verifier::loop_isolation(false)]
    while i < s.len()
        invariant
            0 <= i <= s@.len(),
            forall|j: int| 0 <= j < i ==> s@[j] != c,
        decreases s@.len() - i,
    {
        if s[i] == c {
            return Some(i);
        }
        i = i + 1;
    }
    None
}

/// The whitespace-separated tokens of a line, in order.
pub open spec fn ws_tokens(s: Seq<u8>) -> Seq<Seq<u8>>
    decreases s.len(),
    via ws_tokens_dec
{
    if s.len() == 0 {
        Seq::empty()
    } else if is_ws(s[0]) {
        ws_tokens(s.drop_first())
    } else {
        seq![s.take(token_len(s))] + ws_tokens(s.skip(token_len(s)))
    }
}

#[via_fn]
proof fn ws_tokens_dec(s: Seq<u8>) {
    lemma_token_len_bounds(s);
}

/// Length of the maximal leading run of non-whitespace bytes.
pub open spec fn token_len(s: Seq<u8>) -> int
    decreases s.len(),
{
    if s.len() == 0 || is_ws(s[0]) {
        0
    } else {
        1 + token_len(s.drop_first())
    }
}

proof fn lemma_token_len_bounds(s: Seq<u8>)
    ensures
        0 <= token_len(s) <= s.len(),
        forall|j: int| 0 <= j < token_len(s) ==> !is_ws(s[j]),
        token_len(s) < s.len() ==> is_ws(s[token_len(s)]),
    decreases s.len(),
{
    if s.len() > 0 && !is_ws(s[0]) {
        lemma_token_len_bounds(s.drop_first());
        assert forall|j: int| 0 <= j < token_len(s) implies !is_ws(s[j]) by {
            if j > 0 {
                assert(!is_ws(s.drop_first()[j - 1]));
            }
        }
    }
}

proof fn lemma_token_len_is(s: Seq<u8>, i: int)
    requires
        0 <= i <= s.len(),
        forall|j: int| 0 <= j < i ==> !is_ws(s[j]),
        i == s.len() || is_ws(s[i]),
    ensures
        token_len(s) == i,
    decreases i,
{
    if i > 0 {
        lemma_token_len_is(s.drop_first(), i - 1);
    }
}

proof fn lemma_ws_tokens_skip_ws(s: Seq<u8>, i: int)
    requires
        0 <= i <= s.len(),
        forall|j: int| 0 <= j < i ==> is_ws(s[j]),
    ensures
        ws_tokens(s) == ws_tokens(s.skip(i)),
    decreases i,
{
    if i == 0 {
        assert(s.skip(0) =~= s);
    } else {
        lemma_ws_tokens_skip_ws(s.drop_first(), i - 1);
        assert(s.drop_first().skip(i - 1) =~= s.skip(i));
    }
}

/// Splits a line on whitespace.
pub fn split_ws(s: &[u8]) -> (r: Vec<Vec<u8>>)
    ensures
        r.deep_view() == ws_tokens(s@),
{
    let mut out: Vec<Vec<u8>> = Vec::new();
    let mut i: usize = 0;
    proof {
        assert(s@.skip(0) =~= s@);
        assert(out.deep_view() + ws_tokens(s@) =~= ws_tokens(s@));
    }
    #[verifier::loop_isolation(false)]
    while i < s.len()
        invariant
            0 <= i <= s@.len(),
            ws_tokens(s@) == out.deep_view() + ws_tokens(s@.skip(i as int)),
        decreases s@.len() - i,
    {
        if ws_byte(s[i]) {
            proof {
                assert(s@.skip(i as int).drop_first() =~= s@.skip(i + 1));
            }
            i = i + 1;
        } else {
            let start = i;
            #[verifier::loop_isolation(false)]
            while i < s.len() && !ws_byte(s[i])
                invariant
                    start <= i <= s@.len(),
                    forall|j: int| start <= j < i ==> !is_ws(s@[j]),
                decreases s@.len() - i,
            {
                i = i + 1;
            }
            let tok = copy_range(s, start, i);
            let ghost pre = out.deep_view();
            out.push(tok);
            proof {
                let rest = s@.skip(start as int);
                lemma_token_len_is(rest, i - start);
                assert(rest.take(i - start) =~= s@.subrange(start as int, i as int));
                assert(rest.skip(i - start) =~= s@.skip(i as int));
                assert(out.deep_view() =~~= pre + seq![tok@]);
                assert(ws_tokens(rest) == seq![tok@] + ws_tokens(s@.skip(i as int)));
                assert((pre + seq![tok@]) + ws_tokens(s@.skip(i as int)) =~= pre + (seq![tok@]
                    + ws_tokens(s@.skip(i as int))));
            }
        }
    }
    proof {
        assert(ws_tokens(s@.skip(i as int)) =~= Seq::<Seq<u8>>::empty());
        assert(out.deep_view() + Seq::<Seq<u8>>::empty() =~= out.deep_view());
    }
    out
}

/// The input split at every newline, each line without a trailing carriage
/// return: the lines of the text, top to bottom.
pub open spec fn lines_spec(s: Seq<u8>) -> Seq<Seq<u8>>
    decreases s.len(),
    via lines_spec_dec
{
    if s.len() == 0 {
        Seq::empty()
    } else {
        let n = line_len(s);
        if n == s.len() {
            seq![strip_cr(s)]
        } else {
            seq![strip_cr(s.take(n))] + lines_spec(s.skip(n + 1))
        }
    }
}

#[via_fn]
proof fn lines_spec_dec(s: Seq<u8>) {
    lemma_line_len_bounds(s);
}

/// Length of the first line: index of the first newline, or the whole text.
pub open spec fn line_len(s: Seq<u8>) -> int
    decreases s.len(),
{
    if s.len() == 0 || s[0] == 10 {
        0
    } else {
        1 + line_len(s.drop_first())
    }
}

/// The line without a trailing carriage return.
pub open spec fn strip_cr(s: Seq<u8>) -> Seq<u8> {
    if s.len() > 0 && s.last() == 13 {
        s.drop_last()
    } else {
        s
    }
}

proof fn lemma_line_len_bounds(s: Seq<u8>)
    ensures
        0 <= line_len(s) <= s.len(),
        forall|j: int| 0 <= j < line_len(s) ==> s[j] != 10,
        line_len(s) < s.len() ==> s[line_len(s)] == 10,
    decreases s.len(),
{
    if s.len() > 0 && s[0] != 10 {
        lemma_line_len_bounds(s.drop_first());
        assert forall|j: int| 0 <= j < line_len(s) implies s[j] != 10 by {
            if j > 0 {
                assert(s.drop_first()[j - 1] != 10);
            }
        }
    }
}

proof fn lemma_line_len_is(s: Seq<u8>, i: int)
    requires
        0 <= i <= s.len(),
        forall|j: int| 0 <= j < i ==> s[j] != 10,
        i == s.len() || s[i] == 10,
    ensures
        line_len(s) == i,
    decreases i,
{
    if i > 0 {
        lemma_line_len_is(s.drop_first(), i - 1);
    }
}

/// Splits the text into its lines.
pub fn split_lines(s: &[u8]) -> (r: Vec<Vec<u8>>)
    ensures
        r.deep_view() == lines_spec(s@),
{
    let mut out: Vec<Vec<u8>> = Vec::new();
    let mut i: usize = 0;
    proof {
        assert(s@.skip(0) =~= s@);
        assert(out.deep_view() + lines_spec(s@) =~= lines_spec(s@));
    }
    #[verifier::loop_isolation(false)]
    while i < s.len()
        invariant
            0 <= i <= s@.len(),
            lines_spec(s@) == out.deep_view() + lines_spec(s@.skip(i as int)),
        decreases s@.len() - i,
    {
        let start = i;
        #[verifier::loop_isolation(false)]
        while i < s.len() && s[i] != 10
            invariant
                start <= i <= s@.len(),
                forall|j: int| start <= j < i ==> s@[j] != 10,
            decreases s@.len() - i,
        {
            i = i + 1;
        }
        let stop = if i > start && s[i - 1] == 13 {
            i - 1
        } else {
            i
        };
        let line = copy_range(s, start, stop);
        let ghost pre = out.deep_view();
        let last = i >= s.len();
        out.push(line);
        proof {
            let rest = s@.skip(start as int);
            lemma_line_len_is(rest, i - start);
            assert(rest.take(i - start) =~= s@.subrange(start as int, i as int));
            assert(out.deep_view() =~~= pre + seq![line@]);
            if i - start == rest.len() {
                assert(strip_cr(rest) =~= line@);
                assert(lines_spec(rest) == seq![line@]);
                assert(pre + seq![line@] =~= lines_spec(s@));
            } else {
                assert(strip_cr(rest.take(i - start)) =~= line@);
                assert(rest.skip(i - start + 1) =~= s@.skip(i + 1));
                assert(lines_spec(rest) == seq![line@] + lines_spec(s@.skip(i + 1)));
                assert((pre + seq![line@]) + lines_spec(s@.skip(i + 1)) =~= pre + (seq![line@]
                    + lines_spec(s@.skip(i + 1))));
            }
        }
        if last {
            return out;
        }
        i = i + 1;
    }
    proof {
        assert(lines_spec(s@.skip(i as int)) =~= Seq::<Seq<u8>>::empty());
        assert(out.deep_view() + Seq::<Seq<u8>>::empty() =~= out.deep_view());
    }
    out
}

} // verus!
