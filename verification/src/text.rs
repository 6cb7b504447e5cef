//! Splitting byte strings at a separator, and decimal numbers in text.

use vstd::prelude::*;

verus! {

/// Whether two byte strings hold the same bytes.
pub fn bytes_eq(a: &[u8], b: &[u8]) -> (same: bool)
    ensures
        same == (a@ == b@),
{
    if a.len() != b.len() {
        return false;
    }
    let mut i: usize = 0;
    while i < a.len()
        invariant
            i <= a@.len(),
            a@.len() == b@.len(),
            forall|j: int| 0 <= j < i ==> a@[j] == b@[j],
        decreases a@.len() - i,
    {
        if a[i] != b[i] {
            return false;
        }
        i += 1;
    }
    assert(a@ =~= b@);
    true
}

/// A copy of `s[from..to]`.
pub fn copy_range(s: &[u8], from: usize, to: usize) -> (out: Vec<u8>)
    requires
        from <= to <= s@.len(),
    ensures
        out@ == s@.subrange(from as int, to as int),
{
    let mut out: Vec<u8> = Vec::new();
    let mut i: usize = from;
    while i < to
        invariant
            from <= i <= to <= s@.len(),
            out@ == s@.subrange(from as int, i as int),
        decreases to - i,
    {
        out.push(s[i]);
        i += 1;
        assert(out@ =~= s@.subrange(from as int, i as int));
    }
    out
}

/// Whether `i` is where `x` first occurs in `s`, or the length of `s` where
/// `x` does not occur.
pub open spec fn is_first_index(s: Seq<u8>, x: u8, i: int) -> bool {
    &&& 0 <= i <= s.len()
    &&& i < s.len() ==> s[i] == x
    &&& forall|j: int| 0 <= j < i ==> s[j] != x
}

/// Where `x` first occurs in `s`; the length of `s` where it does not occur.
pub open spec fn first_index(s: Seq<u8>, x: u8) -> nat
    decreases s.len(),
{
    if s.len() == 0 {
        0
    } else if s[0] == x {
        0
    } else {
        1 + first_index(s.skip(1), x)
    }
}

/// `first_index` is the one index that `is_first_index` accepts.
pub proof fn lemma_first_index(s: Seq<u8>, x: u8)
    ensures
        is_first_index(s, x, first_index(s, x) as int),
        forall|i: int| is_first_index(s, x, i) ==> i == first_index(s, x),
    decreases s.len(),
{
    if s.len() > 0 && s[0] != x {
        lemma_first_index(s.skip(1), x);
        let f = first_index(s, x) as int;
        assert forall|j: int| 0 <= j < f implies s[j] != x by {
            if j > 0 {
                assert(s.skip(1)[j - 1] == s[j]);
            }
        }
        assert(f < s.len() ==> s[f] == s.skip(1)[f - 1]);
    }
    let f = first_index(s, x) as int;
    assert forall|i: int| is_first_index(s, x, i) implies i == f by {
        if i < f {
            assert(s[i] != x);
        } else if f < i {
            assert(s[f] != x);
        }
    }
}

/// Finds where `x` first occurs in `s` at or after `from`.
pub fn find(s: &[u8], from: usize, x: u8) -> (at: usize)
    requires
        from <= s@.len(),
    ensures
        from <= at <= s@.len(),
        at - from == first_index(s@.skip(from as int), x),
{
    let mut i: usize = from;
    while i < s.len() && s[i] != x
        invariant
            from <= i <= s@.len(),
            forall|j: int| from <= j < i ==> s@[j] != x,
        decreases s@.len() - i,
    {
        i += 1;
    }
    proof {
        let t = s@.skip(from as int);
        assert(is_first_index(t, x, i - from));
        lemma_first_index(t, x);
    }
    i
}

/// The pieces of `s` between occurrences of `sep`, without the empty ones.
pub open spec fn tokens(s: Seq<u8>, sep: u8) -> Seq<Seq<u8>>
    decreases s.len(),
{
    if s.len() == 0 {
        Seq::empty()
    } else {
        let n = first_index(s, sep) as int;
        let rest = if n < s.len() {
            tokens(s.skip(n + 1), sep)
        } else {
            Seq::empty()
        };
        if n == 0 {
            rest
        } else {
            seq![s.take(n)] + rest
        }
    }
}

/// The contents of each of `v`.
pub open spec fn views(v: Seq<Vec<u8>>) -> Seq<Seq<u8>> {
    Seq::new(v.len(), |i: int| v[i]@)
}

/// No token is empty, and none holds the separator.
pub proof fn lemma_tokens(s: Seq<u8>, sep: u8)
    ensures
        forall|k: int|
            0 <= k < tokens(s, sep).len() ==> {
                &&& (#[trigger] tokens(s, sep)[k]).len() > 0
                &&& !tokens(s, sep)[k].contains(sep)
                &&& forall|b: u8| tokens(s, sep)[k].contains(b) ==> s.contains(b)
            },
    decreases s.len(),
{
    if s.len() > 0 {
        let n = first_index(s, sep) as int;
        lemma_first_index(s, sep);
        let ts = tokens(s, sep);
        if n < s.len() {
            lemma_tokens(s.skip(n + 1), sep);
        }
        assert forall|k: int| 0 <= k < ts.len() implies {
            &&& (#[trigger] ts[k]).len() > 0
            &&& !ts[k].contains(sep)
            &&& forall|b: u8| ts[k].contains(b) ==> s.contains(b)
        } by {
            if n > 0 && k == 0 {
                assert(ts[0] == s.take(n));
                assert forall|b: u8| ts[0].contains(b) implies s.contains(b) by {
                    let j = choose|j: int| 0 <= j < ts[0].len() && ts[0][j] == b;
                    assert(s[j] == b);
                }
                if ts[0].contains(sep) {
                    let j = choose|j: int| 0 <= j < ts[0].len() && ts[0][j] == sep;
                    assert(s[j] == sep);
                }
            } else {
                let r = s.skip(n + 1);
                let kk = if n > 0 {
                    k - 1
                } else {
                    k
                };
                assert(ts[k] == tokens(r, sep)[kk]);
                assert forall|b: u8| ts[k].contains(b) implies s.contains(b) by {
                    assert(r.contains(b));
                    let j = choose|j: int| 0 <= j < r.len() && r[j] == b;
                    assert(s[j + n + 1] == b);
                }
            }
        }
    }
}

/// Where the first part is empty or ends with the separator, the tokens of
/// two parts joined are the tokens of the one, then those of the other.
pub proof fn lemma_tokens_concat(a: Seq<u8>, b: Seq<u8>, sep: u8)
    requires
        a.len() == 0 || a.last() == sep,
    ensures
        tokens(a + b, sep) == tokens(a, sep) + tokens(b, sep),
    decreases a.len(),
{
    if a.len() == 0 {
        assert(a + b =~= b);
        assert(tokens(a, sep) + tokens(b, sep) =~= tokens(b, sep));
    } else {
        let n = first_index(a, sep) as int;
        lemma_first_index(a, sep);
        assert(n < a.len());
        assert(is_first_index(a + b, sep, n));
        lemma_first_index(a + b, sep);
        let ra = a.skip(n + 1);
        assert((a + b).skip(n + 1) =~= ra + b);
        assert((a + b).take(n) =~= a.take(n));
        assert(ra.len() == 0 || ra.last() == sep) by {
            if ra.len() > 0 {
                assert(ra.last() == a.last());
            }
        }
        lemma_tokens_concat(ra, b, sep);
        assert(tokens(a + b, sep) =~= tokens(a, sep) + tokens(b, sep));
    }
}

/// A piece without the separator, followed by the separator, is one token;
/// or none, where the piece is empty.
pub proof fn lemma_tokens_single(t: Seq<u8>, sep: u8)
    requires
        !t.contains(sep),
    ensures
        tokens(t + seq![sep], sep) == if t.len() == 0 {
            Seq::<Seq<u8>>::empty()
        } else {
            seq![t]
        },
{
    let s = t + seq![sep];
    assert forall|j: int| 0 <= j < t.len() implies s[j] != sep by {
        assert(t.contains(t[j]));
    }
    assert(is_first_index(s, sep, t.len() as int));
    lemma_first_index(s, sep);
    assert(s.skip(t.len() as int + 1) =~= Seq::<u8>::empty());
    assert(tokens(s.skip(t.len() as int + 1), sep) =~= Seq::<Seq<u8>>::empty());
    assert(s.take(t.len() as int) =~= t);
    assert(tokens(s, sep) =~= if t.len() == 0 {
        Seq::<Seq<u8>>::empty()
    } else {
        seq![t]
    });
}

/// Splits `s` at each `sep` and returns the pieces that are not empty.
pub fn tokenize(s: &[u8], sep: u8) -> (out: Vec<Vec<u8>>)
    ensures
        views(out@) == tokens(s@, sep),
{
    let mut out: Vec<Vec<u8>> = Vec::new();
    let mut pos: usize = 0;
    assert(views(out@) + tokens(s@.skip(0), sep) =~= tokens(s@, sep)) by {
        assert(s@.skip(0) =~= s@);
    }
    while pos < s.len()
        invariant
            pos <= s@.len(),
            views(out@) + tokens(s@.skip(pos as int), sep) == tokens(s@, sep),
        decreases s@.len() - pos,
    {
        let end = find(s, pos, sep);
        let ghost rest = s@.skip(pos as int);
        let ghost before = views(out@);
        if end > pos {
            let token = copy_range(s, pos, end);
            out.push(token);
            assert(token@ =~= rest.take(end - pos));
            assert(views(out@) =~= before + seq![rest.take(end - pos)]);
        }
        if end < s.len() {
            assert(rest.skip(end - pos + 1) =~= s@.skip(end + 1));
            pos = end + 1;
        } else {
            pos = end;
            assert(tokens(s@.skip(pos as int), sep) =~= Seq::<Seq<u8>>::empty());
        }
        assert(views(out@) + tokens(s@.skip(pos as int), sep) =~= tokens(s@, sep));
    }
    assert(views(out@) =~= tokens(s@, sep));
    out
}

/// The value of the ASCII digit `b`.
pub open spec fn digit_value(b: u8) -> nat {
    (b - 48) as nat
}

/// Whether `b` is an ASCII digit.
pub open spec fn is_digit(b: u8) -> bool {
    48 <= b <= 57
}

/// Whether `d` holds ASCII digits only.
pub open spec fn is_digits(d: Seq<u8>) -> bool {
    forall|i: int| 0 <= i < d.len() ==> is_digit(#[trigger] d[i])
}

/// The number that the digits `d` spell in base ten.
pub open spec fn decimal_value(d: Seq<u8>) -> nat
    decreases d.len(),
{
    if d.len() == 0 {
        0
    } else {
        decimal_value(d.drop_last()) * 10 + digit_value(d.last())
    }
}

/// The `u32` that `d` spells: `d` has to be one or more ASCII digits, and the
/// number has to fit.
pub open spec fn parse_decimal(d: Seq<u8>) -> Option<u32> {
    if d.len() > 0 && is_digits(d) && decimal_value(d) <= u32::MAX {
        Some(decimal_value(d) as u32)
    } else {
        None
    }
}

/// The digits of `v` in base ten, without leading zeros.
pub open spec fn decimal(v: nat) -> Seq<u8>
    decreases v,
{
    if v < 10 {
        seq![(48 + v) as u8]
    } else {
        decimal(v / 10).push((48 + v % 10) as u8)
    }
}

/// The digits of a number spell that number.
pub proof fn lemma_decimal(v: nat)
    ensures
        decimal(v).len() > 0,
        is_digits(decimal(v)),
        decimal_value(decimal(v)) == v,
    decreases v,
{
    if v < 10 {
        let d = decimal(v);
        assert(d.drop_last() =~= Seq::<u8>::empty());
        assert(decimal_value(d.drop_last()) == 0);
    } else {
        lemma_decimal(v / 10);
        let d = decimal(v);
        assert(d.drop_last() =~= decimal(v / 10));
    }
}

/// Reading the digits of a `u32` gives the `u32` back.
pub proof fn lemma_decimal_round_trip(v: u32)
    ensures
        parse_decimal(decimal(v as nat)) == Some(v),
{
    lemma_decimal(v as nat);
}

/// A longer run of digits spells no smaller number than a prefix of it.
pub proof fn lemma_decimal_value_prefix(d: Seq<u8>, k: int)
    requires
        0 <= k <= d.len(),
    ensures
        decimal_value(d.take(k)) <= decimal_value(d),
    decreases d.len(),
{
    if k < d.len() {
        lemma_decimal_value_prefix(d.drop_last(), k);
        assert(d.drop_last().take(k) =~= d.take(k));
    } else {
        assert(d.take(k) =~= d);
    }
}

/// Reads a `u32` from ASCII digits.
pub fn read_decimal(d: &[u8]) -> (value: Option<u32>)
    ensures
        value == parse_decimal(d@),
{
    if d.len() == 0 {
        return None;
    }
    let mut acc: u64 = 0;
    let mut i: usize = 0;
    while i < d.len()
        invariant
            i <= d@.len(),
            is_digits(d@.take(i as int)),
            acc == decimal_value(d@.take(i as int)),
            acc <= u32::MAX,
        decreases d@.len() - i,
    {
        let b = d[i];
        if b < 48 || b > 57 {
            assert(!is_digit(d@[i as int]));
            return None;
        }
        assert(d@.take(i + 1).drop_last() =~= d@.take(i as int));
        acc = acc * 10 + (b - 48) as u64;
        i += 1;
        assert(is_digits(d@.take(i as int))) by {
            assert forall|j: int| 0 <= j < i implies is_digit(#[trigger] d@.take(i as int)[j]) by {
                if j < i - 1 {
                    assert(d@.take(i as int)[j] == d@.take(i - 1)[j]);
                }
            }
        }
        if acc > 0xffff_ffff {
            proof {
                lemma_decimal_value_prefix(d@, i as int);
            }
            return None;
        }
    }
    assert(d@.take(i as int) =~= d@);
    Some(acc as u32)
}

/// Appends the digits of `v` to `out`.
pub fn push_decimal(out: &mut Vec<u8>, v: u32)
    ensures
        final(out)@ == old(out)@ + decimal(v as nat),
    decreases v,
{
    if v >= 10 {
        push_decimal(out, v / 10);
    }
    out.push(48 + (v % 10) as u8);
    assert(out@ =~= old(out)@ + decimal(v as nat));
}

} // verus!
