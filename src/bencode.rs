//! The bencode codec: byte strings, integers, lists and dictionaries whose
//! keys keep the order in which they were read.

use vstd::prelude::*;
use vstd::slice::{slice_subrange, slice_to_vec};

verus! {

/// A decoded bencode value.
#[derive(Debug)]
pub enum Value {
    Bytes(Vec<u8>),
    Int(i64),
    List(Vec<Value>),
    Dict(Vec<(Vec<u8>, Value)>),
}

/// The mathematical form of a bencode value.
pub enum BValue {
    Bytes(Seq<u8>),
    Int(int),
    List(Seq<BValue>),
    Dict(Seq<(Seq<u8>, BValue)>),
}

pub open spec fn view_value(v: Value) -> BValue
    decreases v,
{
    match v {
        Value::Bytes(b) => BValue::Bytes(b@),
        Value::Int(i) => BValue::Int(i as int),
        Value::List(items) => BValue::List(view_list(items@)),
        Value::Dict(entries) => BValue::Dict(view_dict(entries@)),
    }
}

pub open spec fn view_list(items: Seq<Value>) -> Seq<BValue>
    decreases items,
{
    if items.len() == 0 {
        Seq::empty()
    } else {
        view_list(items.subrange(0, items.len() - 1)).push(view_value(items[items.len() - 1]))
    }
}

pub open spec fn view_dict(entries: Seq<(Vec<u8>, Value)>) -> Seq<(Seq<u8>, BValue)>
    decreases entries,
{
    if entries.len() == 0 {
        Seq::empty()
    } else {
        view_dict(entries.subrange(0, entries.len() - 1)).push(
            (entries[entries.len() - 1].0@, view_value(entries[entries.len() - 1].1)),
        )
    }
}

impl View for Value {
    type V = BValue;

    open spec fn view(&self) -> BValue {
        view_value(*self)
    }
}

pub open spec fn is_digit(b: u8) -> bool {
    48 <= b <= 57
}

/// `b` can start an encoded value: a digit, `i`, `l` or `d`.
pub open spec fn starts_value(b: u8) -> bool {
    is_digit(b) || b == 105 || b == 108 || b == 100
}

/// Decimal digits of `n`, without leading zeros.
pub open spec fn decimal(n: nat) -> Seq<u8>
    decreases n,
{
    if n < 10 {
        seq![(48 + n) as u8]
    } else {
        decimal(n / 10).push((48 + n % 10) as u8)
    }
}

/// The number that a run of decimal digits stands for.
pub open spec fn digits_value(s: Seq<u8>) -> nat
    decreases s.len(),
{
    if s.len() == 0 {
        0
    } else {
        digits_value(s.drop_last()) * 10 + (s.last() - 48) as nat
    }
}

pub open spec fn enc_int(i: int) -> Seq<u8> {
    if i >= 0 {
        seq![105u8] + decimal(i as nat) + seq![101u8]
    } else {
        seq![105u8, 45u8] + decimal((-i) as nat) + seq![101u8]
    }
}

pub open spec fn enc_bytes(b: Seq<u8>) -> Seq<u8> {
    decimal(b.len()) + seq![58u8] + b
}

/// The bencoding of a value.
pub open spec fn enc(v: BValue) -> Seq<u8>
    decreases v,
{
    match v {
        BValue::Bytes(b) => enc_bytes(b),
        BValue::Int(i) => enc_int(i),
        BValue::List(items) => seq![108u8] + enc_list(items) + seq![101u8],
        BValue::Dict(entries) => seq![100u8] + enc_dict(entries) + seq![101u8],
    }
}

/// The encodings of `items`, one after the other.
pub open spec fn enc_list(items: Seq<BValue>) -> Seq<u8>
    decreases items,
{
    if items.len() == 0 {
        Seq::empty()
    } else {
        enc(items[0]) + enc_list(items.subrange(1, items.len() as int))
    }
}

/// Each key's encoding followed by its value's, entry after entry.
pub open spec fn enc_dict(entries: Seq<(Seq<u8>, BValue)>) -> Seq<u8>
    decreases entries,
{
    if entries.len() == 0 {
        Seq::empty()
    } else {
        enc_bytes(entries[0].0) + enc(entries[0].1) + enc_dict(entries.subrange(1, entries.len() as int))
    }
}

pub proof fn lemma_decimal(n: nat)
    ensures
        decimal(n).len() >= 1,
        forall|k: int| 0 <= k < decimal(n).len() ==> is_digit(#[trigger] decimal(n)[k]),
        decimal(n)[0] == 48 ==> n == 0,
        digits_value(decimal(n)) == n,
    decreases n,
{
    reveal_with_fuel(digits_value, 2);
    if n < 10 {
        assert(decimal(n).drop_last() =~= Seq::<u8>::empty());
    } else {
        lemma_decimal(n / 10);
        let d = decimal(n / 10);
        assert(decimal(n).drop_last() =~= d);
        assert(decimal(n).last() == (48 + n % 10) as u8);
        assert(n == (n / 10) * 10 + n % 10);
        assert(decimal(n)[0] == d[0]);
    }
}

proof fn lemma_enc_list_push(items: Seq<BValue>, x: BValue)
    ensures
        enc_list(items.push(x)) == enc_list(items) + enc(x),
    decreases items.len(),
{
    reveal_with_fuel(enc_list, 2);
    assert(items.push(x)[0] == if items.len() == 0 { x } else { items[0] });
    if items.len() == 0 {
        assert(items.push(x).subrange(1, 1) =~= Seq::<BValue>::empty());
        assert(enc_list(items.push(x)) =~= enc_list(items) + enc(x));
    } else {
        let tail = items.subrange(1, items.len() as int);
        lemma_enc_list_push(tail, x);
        assert(items.push(x).subrange(1, items.len() + 1int) =~= tail.push(x));
        assert(enc_list(items.push(x)) =~= enc_list(items) + enc(x));
    }
}

proof fn lemma_enc_dict_push(entries: Seq<(Seq<u8>, BValue)>, e: (Seq<u8>, BValue))
    ensures
        enc_dict(entries.push(e)) == enc_dict(entries) + enc_bytes(e.0) + enc(e.1),
    decreases entries.len(),
{
    reveal_with_fuel(enc_dict, 2);
    assert(entries.push(e)[0] == if entries.len() == 0 { e } else { entries[0] });
    if entries.len() == 0 {
        assert(entries.push(e).subrange(1, 1) =~= Seq::<(Seq<u8>, BValue)>::empty());
        assert(enc_dict(entries.push(e)) =~= enc_dict(entries) + enc_bytes(e.0) + enc(e.1));
    } else {
        let tail = entries.subrange(1, entries.len() as int);
        lemma_enc_dict_push(tail, e);
        assert(entries.push(e).subrange(1, entries.len() + 1int) =~= tail.push(e));
        assert(enc_dict(entries.push(e)) =~= enc_dict(entries) + enc_bytes(e.0) + enc(e.1));
    }
}

proof fn lemma_view_list_prefix(items: Seq<Value>, i: int)
    requires
        0 <= i < items.len(),
    ensures
        view_list(items.subrange(0, i + 1)) == view_list(items.subrange(0, i)).push(view_value(items[i])),
{
    assert(items.subrange(0, i + 1).subrange(0, i) =~= items.subrange(0, i));
}

proof fn lemma_view_dict_prefix(entries: Seq<(Vec<u8>, Value)>, i: int)
    requires
        0 <= i < entries.len(),
    ensures
        view_dict(entries.subrange(0, i + 1)) == view_dict(entries.subrange(0, i)).push(
            (entries[i].0@, view_value(entries[i].1)),
        ),
{
    assert(entries.subrange(0, i + 1).subrange(0, i) =~= entries.subrange(0, i));
}

fn push_decimal(dst: &mut Vec<u8>, n: u64)
    ensures
        final(dst)@ == old(dst)@ + decimal(n as nat),
    decreases n,
{
    if n < 10 {
        dst.push((48 + n) as u8);
        assert(final(dst)@ =~= old(dst)@ + decimal(n as nat));
    } else {
        push_decimal(dst, n / 10);
        dst.push((48 + n % 10) as u8);
        assert(final(dst)@ =~= old(dst)@ + decimal(n as nat));
    }
}

fn push_bytes(dst: &mut Vec<u8>, b: &[u8])
    ensures
        final(dst)@ == old(dst)@ + enc_bytes(b@),
{
    let ghost d0 = dst@;
    push_decimal(dst, b.len() as u64);
    dst.push(58u8);
    let mut i: usize = 0;
    while i < b.len()
        invariant
            i <= b@.len(),
            dst@ == d0 + decimal(b@.len()) + seq![58u8] + b@.subrange(0, i as int),
        decreases b@.len() - i,
    {
        dst.push(b[i]);
        i = i + 1;
        assert(dst@ =~= d0 + decimal(b@.len()) + seq![58u8] + b@.subrange(0, i as int));
    }
    assert(b@.subrange(0, i as int) =~= b@);
    assert(dst@ =~= d0 + enc_bytes(b@));
}

fn push_int(dst: &mut Vec<u8>, i: i64)
    ensures
        final(dst)@ == old(dst)@ + enc_int(i as int),
{
    let ghost d0 = dst@;
    dst.push(105u8);
    if i >= 0 {
        push_decimal(dst, i as u64);
    } else {
        dst.push(45u8);
        let mag: u64 = ((-(i + 1)) as u64) + 1;
        push_decimal(dst, mag);
    }
    dst.push(101u8);
    assert(dst@ =~= d0 + enc_int(i as int));
}

/// Appends the bencoding of `v` to `dst`.
pub fn encode_into(v: &Value, dst: &mut Vec<u8>)
    ensures
        final(dst)@ == old(dst)@ + enc(v@),
    decreases v,
{
    match v {
        Value::Bytes(b) => {
            push_bytes(dst, b.as_slice());
        },
        Value::Int(i) => {
            push_int(dst, *i);
        },
        Value::List(items) => {
            let ghost d0 = dst@;
            dst.push(108u8);
            let mut i: usize = 0;
            assert(view_list(items@.subrange(0, 0)) =~= Seq::<BValue>::empty());
            while i < items.len()
                invariant
                    *v == Value::List(*items),
                    i <= items@.len(),
                    dst@ == d0 + seq![108u8] + enc_list(view_list(items@.subrange(0, i as int))),
                decreases items@.len() - i,
            {
                let ghost before = view_list(items@.subrange(0, i as int));
                proof {
                    assert(decreases_to!(*v => (*v)->List_0));
                    assert(decreases_to!(*items => items@));
                    assert(decreases_to!(items@ => items@[i as int]));
                }
                encode_into(&items[i], dst);
                proof {
                    lemma_view_list_prefix(items@, i as int);
                    lemma_enc_list_push(before, view_value(items@[i as int]));
                }
                i = i + 1;
            }
            dst.push(101u8);
            assert(items@.subrange(0, i as int) =~= items@);
            assert(dst@ =~= d0 + enc(v@));
        },
        Value::Dict(entries) => {
            let ghost d0 = dst@;
            dst.push(100u8);
            let mut i: usize = 0;
            assert(view_dict(entries@.subrange(0, 0)) =~= Seq::<(Seq<u8>, BValue)>::empty());
            while i < entries.len()
                invariant
                    *v == Value::Dict(*entries),
                    i <= entries@.len(),
                    dst@ == d0 + seq![100u8] + enc_dict(view_dict(entries@.subrange(0, i as int))),
                decreases entries@.len() - i,
            {
                let ghost before = view_dict(entries@.subrange(0, i as int));
                proof {
                    assert(decreases_to!(*v => (*v)->Dict_0));
                    assert(decreases_to!(*entries => entries@));
                    assert(decreases_to!(entries@ => entries@[i as int]));
                    assert(decreases_to!(entries@[i as int] => entries@[i as int].1));
                }
                push_bytes(dst, entries[i].0.as_slice());
                encode_into(&entries[i].1, dst);
                proof {
                    lemma_view_dict_prefix(entries@, i as int);
                    lemma_enc_dict_push(before, (entries@[i as int].0@, view_value(entries@[i as int].1)));
                }
                i = i + 1;
            }
            dst.push(101u8);
            assert(entries@.subrange(0, i as int) =~= entries@);
            assert(dst@ =~= d0 + enc(v@));
        },
    }
}

/// The bencoding of `v`.
pub fn encode(v: &Value) -> (r: Vec<u8>)
    ensures
        r@ == enc(v@),
{
    let mut r: Vec<u8> = Vec::new();
    encode_into(v, &mut r);
    assert(r@ =~= enc(v@));
    r
}

/// `d` stands in `s` at `pos` and is followed by a byte that is no digit, or by the end.
pub open spec fn digits_at(s: Seq<u8>, pos: int, d: Seq<u8>) -> bool {
    &&& 0 <= pos
    &&& pos + d.len() <= s.len()
    &&& s.subrange(pos, pos + d.len()) == d
    &&& (pos + d.len() == s.len() || !is_digit(s[pos + d.len()]))
}

pub open spec fn all_digits(t: Seq<u8>) -> bool {
    forall|k: int| 0 <= k < t.len() ==> is_digit(#[trigger] t[k])
}

proof fn lemma_digits_positive(t: Seq<u8>)
    requires
        t.len() >= 1,
        all_digits(t),
        t[0] != 48,
    ensures
        digits_value(t) >= 1,
    decreases t.len(),
{
    if t.len() > 1 {
        lemma_digits_positive(t.drop_last());
    } else {
        assert(t.drop_last() =~= Seq::<u8>::empty());
    }
}

proof fn lemma_decimal_of_digits(t: Seq<u8>)
    requires
        t.len() >= 1,
        all_digits(t),
        t[0] != 48 || t.len() == 1,
    ensures
        decimal(digits_value(t)) == t,
    decreases t.len(),
{
    let p = t.drop_last();
    if t.len() == 1 {
        assert(p =~= Seq::<u8>::empty());
        assert(decimal(digits_value(t)) =~= t);
    } else {
        lemma_digits_positive(p);
        lemma_decimal_of_digits(p);
        let n = digits_value(t);
        assert(n == digits_value(p) * 10 + (t.last() - 48) as nat);
        assert(n / 10 == digits_value(p));
        assert(n % 10 == (t.last() - 48) as nat);
        assert(decimal(n) =~= t);
    }
}

proof fn lemma_digits_prefix_le(t: Seq<u8>, k: int)
    requires
        0 <= k <= t.len(),
        all_digits(t),
    ensures
        digits_value(t.subrange(0, k)) <= digits_value(t),
    decreases t.len(),
{
    if k < t.len() {
        let p = t.drop_last();
        lemma_digits_prefix_le(p, k);
        assert(p.subrange(0, k) =~= t.subrange(0, k));
    } else {
        assert(t.subrange(0, k) =~= t);
    }
}

fn is_digit_byte(b: u8) -> (r: bool)
    ensures
        r == is_digit(b),
{
    48 <= b && b <= 57
}

/// Reads the decimal number that starts at `pos`: digits without a leading
/// zero, at most `bound`. `None` when no such number stands there.
fn read_nat(s: &[u8], pos: usize, bound: u64) -> (r: Option<(u64, usize)>)
    requires
        pos <= s@.len(),
    ensures
        r matches Some((n, end)) ==> n <= bound && end == pos + decimal(n as nat).len() && digits_at(
            s@,
            pos as int,
            decimal(n as nat),
        ),
        r is None ==> forall|m: nat| m <= bound ==> !digits_at(s@, pos as int, #[trigger] decimal(m)),
{
    if pos >= s.len() || !is_digit_byte(s[pos]) {
        assert forall|m: nat| m <= bound implies !digits_at(s@, pos as int, #[trigger] decimal(m)) by {
            lemma_decimal(m);
            if digits_at(s@, pos as int, decimal(m)) {
                assert(s@.subrange(pos as int, pos + decimal(m).len())[0] == s@[pos as int]);
            }
        }
        return None;
    }
    if s[pos] == 48 {
        if pos + 1 < s.len() && is_digit_byte(s[pos + 1]) {
            assert forall|m: nat| m <= bound implies !digits_at(s@, pos as int, #[trigger] decimal(m)) by {
                lemma_decimal(m);
                if digits_at(s@, pos as int, decimal(m)) {
                    assert(s@.subrange(pos as int, pos + decimal(m).len())[0] == s@[pos as int]);
                    assert(decimal(0) =~= seq![48u8]);
                }
            }
            return None;
        }
        assert(s@.subrange(pos as int, pos + 1) =~= decimal(0));
        return Some((0, pos + 1));
    }
    let mut acc: u64 = (s[pos] - 48) as u64;
    let mut i: usize = pos + 1;
    proof {
        let t = s@.subrange(pos as int, i as int);
        assert(t.drop_last() =~= Seq::<u8>::empty());
        reveal_with_fuel(digits_value, 2);
    }
    if acc > bound {
        assert forall|m: nat| m <= bound implies !digits_at(s@, pos as int, #[trigger] decimal(m)) by {
            lemma_decimal(m);
            if digits_at(s@, pos as int, decimal(m)) {
                let d = decimal(m);
                assert(all_digits(d));
                lemma_digits_prefix_le(d, 1);
                assert(d.subrange(0, 1) =~= s@.subrange(pos as int, i as int));
            }
        }
        return None;
    }
    while i < s.len() && is_digit_byte(s[i])
        invariant
            pos < i <= s@.len(),
            all_digits(s@.subrange(pos as int, i as int)),
            s@[pos as int] != 48,
            acc == digits_value(s@.subrange(pos as int, i as int)),
            acc <= bound,
        decreases s@.len() - i,
    {
        let d: u64 = (s[i] - 48) as u64;
        let ghost t = s@.subrange(pos as int, i + 1);
        assert(t.drop_last() =~= s@.subrange(pos as int, i as int));
        assert(digits_value(t) == acc * 10 + d);
        if d > bound || acc > (bound - d) / 10 {
            assert(acc * 10 + d > bound) by (nonlinear_arith)
                requires
                    d > bound || acc > (bound - d) / 10,
            ;
            assert forall|m: nat| m <= bound implies !digits_at(s@, pos as int, #[trigger] decimal(m)) by {
                lemma_decimal(m);
                let dm = decimal(m);
                if digits_at(s@, pos as int, dm) {
                    if dm.len() <= i - pos {
                        assert(s@.subrange(pos as int, i as int)[dm.len() as int] == s@[pos + dm.len()]);
                    } else {
                        assert(all_digits(dm));
                        lemma_digits_prefix_le(dm, i + 1 - pos);
                        assert(dm.subrange(0, i + 1 - pos) =~= t);
                    }
                }
            }
            return None;
        }
        assert(acc * 10 + d <= bound) by (nonlinear_arith)
            requires
                d <= bound,
                acc <= (bound - d) / 10,
        ;
        acc = acc * 10 + d;
        i = i + 1;
        assert(all_digits(s@.subrange(pos as int, i as int)));
    }
    proof {
        lemma_decimal_of_digits(s@.subrange(pos as int, i as int));
    }
    Some((acc, i))
}

/// Every integer in `v` fits in 64 signed bits: the values that decoding can give.
pub open spec fn valid(v: BValue) -> bool
    decreases v,
{
    match v {
        BValue::Bytes(_) => true,
        BValue::Int(i) => i64::MIN <= i <= i64::MAX,
        BValue::List(items) => forall|k: int| 0 <= k < items.len() ==> valid(#[trigger] items[k]),
        BValue::Dict(entries) => forall|k: int| 0 <= k < entries.len() ==> valid(#[trigger] entries[k].1),
    }
}

/// No valid value is encoded at `pos` of `s`.
pub open spec fn no_value_at(s: Seq<u8>, pos: int) -> bool {
    forall|w: BValue| valid(w) ==> !prefix_at(s, pos, #[trigger] enc(w))
}

spec fn list_at(s: Seq<u8>, pos: int, xs: Seq<BValue>) -> bool {
    &&& forall|k: int| 0 <= k < xs.len() ==> valid(#[trigger] xs[k])
    &&& prefix_at(s, pos, seq![108u8] + enc_list(xs) + seq![101u8])
}

spec fn dict_at(s: Seq<u8>, pos: int, xs: Seq<(Seq<u8>, BValue)>) -> bool {
    &&& forall|k: int| 0 <= k < xs.len() ==> valid(#[trigger] xs[k].1)
    &&& prefix_at(s, pos, seq![100u8] + enc_dict(xs) + seq![101u8])
}

proof fn lemma_enc_list_split(xs: Seq<BValue>, k: int)
    requires
        0 <= k < xs.len(),
    ensures
        enc_list(xs) == enc_list(xs.subrange(0, k)) + enc(xs[k]) + enc_list(xs.subrange(k + 1, xs.len() as int)),
    decreases k,
{
    let tail = xs.subrange(1, xs.len() as int);
    if k == 0 {
        assert(xs.subrange(0, 0) =~= Seq::<BValue>::empty());
        assert(xs.subrange(1, xs.len() as int) =~= tail);
        assert(enc_list(xs) =~= enc_list(xs.subrange(0, k)) + enc(xs[k]) + enc_list(tail));
    } else {
        lemma_enc_list_split(tail, k - 1);
        let pre = xs.subrange(0, k);
        assert(pre[0] == xs[0]);
        assert(pre.subrange(1, pre.len() as int) =~= tail.subrange(0, k - 1));
        assert(tail.subrange(k, tail.len() as int) =~= xs.subrange(k + 1, xs.len() as int));
        assert(enc_list(pre) == enc(xs[0]) + enc_list(tail.subrange(0, k - 1)));
        assert(enc_list(xs) =~= enc_list(pre) + enc(xs[k]) + enc_list(xs.subrange(k + 1, xs.len() as int)));
    }
}

proof fn lemma_enc_dict_split(xs: Seq<(Seq<u8>, BValue)>, k: int)
    requires
        0 <= k < xs.len(),
    ensures
        enc_dict(xs) == enc_dict(xs.subrange(0, k)) + enc_bytes(xs[k].0) + enc(xs[k].1) + enc_dict(
            xs.subrange(k + 1, xs.len() as int),
        ),
    decreases k,
{
    let tail = xs.subrange(1, xs.len() as int);
    if k == 0 {
        assert(xs.subrange(0, 0) =~= Seq::<(Seq<u8>, BValue)>::empty());
        assert(enc_dict(xs) =~= enc_dict(xs.subrange(0, k)) + enc_bytes(xs[k].0) + enc(xs[k].1) + enc_dict(tail));
    } else {
        lemma_enc_dict_split(tail, k - 1);
        let pre = xs.subrange(0, k);
        assert(pre[0] == xs[0]);
        assert(pre.subrange(1, pre.len() as int) =~= tail.subrange(0, k - 1));
        assert(tail.subrange(k, tail.len() as int) =~= xs.subrange(k + 1, xs.len() as int));
        assert(enc_dict(pre) == enc_bytes(xs[0].0) + enc(xs[0].1) + enc_dict(tail.subrange(0, k - 1)));
        assert(enc_dict(xs) =~= enc_dict(pre) + enc_bytes(xs[k].0) + enc(xs[k].1) + enc_dict(
            xs.subrange(k + 1, xs.len() as int),
        ));
    }
}

/// A decimal followed by the non-digit `c` at `p`, and a maximal digit run
/// read at `p`, are the same number.
proof fn lemma_same_number(s: Seq<u8>, p: int, m: nat, n: nat, c: u8)
    requires
        !is_digit(c),
        prefix_at(s, p, decimal(m) + seq![c]),
        digits_at(s, p, decimal(n)),
    ensures
        m == n,
        digits_at(s, p, decimal(m)),
{
    lemma_decimal(m);
    lemma_decimal(n);
    let t = s.subrange(p, s.len() as int);
    let dm = decimal(m);
    let dn = decimal(n);
    let w = s.subrange(p, p + (dm + seq![c]).len());
    assert(w[dm.len() as int] == c);
    assert(t[dm.len() as int] == c);
    assert(t.subrange(0, dm.len() as int) =~= w.subrange(0, dm.len() as int));
    assert(w.subrange(0, dm.len() as int) =~= dm);
    assert(t.subrange(0, dn.len() as int) =~= s.subrange(p, p + dn.len()));
    if p + dn.len() < s.len() {
        assert(t[dn.len() as int] == s[p + dn.len()]);
        lemma_digit_runs(dm, dn, t);
    } else {
        if dm.len() < dn.len() {
            assert(t.subrange(0, dn.len() as int)[dm.len() as int] == t[dm.len() as int]);
        }
        assert(false);
    }
    assert(s.subrange(p, p + dm.len()) =~= dm);
    assert(s[p + dm.len()] == t[dm.len() as int]);
}

/// Why bytes could not be decoded.
#[derive(Debug, Clone, Copy, PartialEq, Eq, Structural)]
pub enum DecodeError {
    /// A byte that starts no value, or input that ends inside a list or dictionary.
    MalformedValue,
    /// A byte string's length is no decimal number followed by `:`.
    MalformedLength,
    /// Fewer bytes remain than a byte string declares.
    Truncated,
    /// An integer is no decimal number between `i` and `e`, or does not fit in 64 bits.
    MalformedInteger,
    /// A dictionary key is not a byte string.
    NonStringKey,
}

/// `e` stands in `s` at `pos`.
pub open spec fn prefix_at(s: Seq<u8>, pos: int, e: Seq<u8>) -> bool {
    0 <= pos && pos + e.len() <= s.len() && s.subrange(pos, pos + e.len()) == e
}

proof fn lemma_view_list_push(items: Seq<Value>, v: Value)
    ensures
        view_list(items.push(v)) == view_list(items).push(view_value(v)),
{
    assert(items.push(v).subrange(0, items.len() as int) =~= items);
}

proof fn lemma_view_dict_push(entries: Seq<(Vec<u8>, Value)>, e: (Vec<u8>, Value))
    ensures
        view_dict(entries.push(e)) == view_dict(entries).push((e.0@, view_value(e.1))),
{
    assert(entries.push(e).subrange(0, entries.len() as int) =~= entries);
}

proof fn lemma_shift_prefix(s: Seq<u8>, pos: int, e: Seq<u8>)
    requires
        0 <= pos <= s.len(),
        prefix_at(s.subrange(pos, s.len() as int), 0, e),
    ensures
        prefix_at(s, pos, e),
{
    assert(s.subrange(pos, s.len() as int).subrange(0, e.len() as int) =~= s.subrange(pos, pos + e.len()));
}

proof fn lemma_unshift_prefix(s: Seq<u8>, pos: int, e: Seq<u8>)
    requires
        prefix_at(s, pos, e),
    ensures
        prefix_at(s.subrange(pos, s.len() as int), 0, e),
{
    assert(s.subrange(pos, s.len() as int).subrange(0, e.len() as int) =~= s.subrange(pos, pos + e.len()));
}

/// A decimal followed by a non-digit is a maximal digit run.
proof fn lemma_digits_followed(s: Seq<u8>, pos: int, m: nat, c: u8)
    requires
        !is_digit(c),
        prefix_at(s, pos, decimal(m) + seq![c]),
    ensures
        digits_at(s, pos, decimal(m)),
{
    let dm = decimal(m);
    let w = s.subrange(pos, pos + dm.len() + 1);
    assert(w[dm.len() as int] == c);
    assert(s.subrange(pos, pos + dm.len()) =~= w.subrange(0, dm.len() as int));
    assert(w.subrange(0, dm.len() as int) =~= dm);
}

/// At `pos` stands the length header `m:` of a byte string.
pub open spec fn declares(s: Seq<u8>, pos: int, m: nat) -> bool {
    &&& digits_at(s, pos, decimal(m))
    &&& pos + decimal(m).len() < s.len()
    &&& s[pos + decimal(m).len()] == 58
}

/// At `pos` stands a length header that declares more bytes than follow it.
pub open spec fn truncated_at(s: Seq<u8>, pos: int) -> bool {
    exists|m: nat| m <= u64::MAX && #[trigger] declares(s, pos, m) && pos + decimal(m).len() + 1 + m > s.len()
}

proof fn lemma_digits_at_unique(s: Seq<u8>, p: int, m: nat, n: nat)
    requires
        digits_at(s, p, decimal(m)),
        digits_at(s, p, decimal(n)),
    ensures
        m == n,
{
    lemma_decimal(m);
    lemma_decimal(n);
    let dm = decimal(m);
    let dn = decimal(n);
    if dm.len() < dn.len() {
        assert(s.subrange(p, p + dn.len())[dm.len() as int] == s[p + dm.len()]);
    } else if dn.len() < dm.len() {
        assert(s.subrange(p, p + dm.len())[dn.len() as int] == s[p + dn.len()]);
    }
    assert(dm =~= dn);
}

const MAX_MAGNITUDE: u64 = 0x7FFF_FFFF_FFFF_FFFF;

fn decode_bytes(s: &[u8], pos: usize) -> (r: Result<(Vec<u8>, usize), DecodeError>)
    requires
        pos <= s@.len(),
    ensures
        r matches Ok((b, end)) ==> pos < end <= s@.len() && s@.subrange(pos as int, end as int)
            == enc_bytes(b@),
        r is Err ==> forall|x: Seq<u8>| !prefix_at(s@, pos as int, #[trigger] enc_bytes(x)),
        r is Err ==> r == Err::<(Vec<u8>, usize), DecodeError>(DecodeError::MalformedLength) || r == Err::<
            (Vec<u8>, usize),
            DecodeError,
        >(DecodeError::Truncated),
        r == Err::<(Vec<u8>, usize), DecodeError>(DecodeError::Truncated) <==> truncated_at(s@, pos as int),
{
    let len = s.len();
    let (n, end) = match read_nat(s, pos, u64::MAX) {
        None => {
            assert forall|x: Seq<u8>| !prefix_at(s@, pos as int, #[trigger] enc_bytes(x)) by {
                if prefix_at(s@, pos as int, enc_bytes(x)) {
                    lemma_unshift_prefix(s@, pos as int, enc_bytes(x));
                    lemma_unshift_prefix(s@, pos as int, enc_bytes(x));
                lemma_prefix_split(s@.subrange(pos as int, s@.len() as int), decimal(x.len()) + seq![58u8], x);
                    lemma_shift_prefix(s@, pos as int, decimal(x.len()) + seq![58u8]);
                    lemma_digits_followed(s@, pos as int, x.len(), 58u8);
                }
            }
            assert(!truncated_at(s@, pos as int));
            return Err(DecodeError::MalformedLength);
        },
        Some(x) => x,
    };
    assert forall|m: nat| m <= u64::MAX && #[trigger] declares(s@, pos as int, m) implies m == n by {
        lemma_digits_at_unique(s@, pos as int, m, n as nat);
    }
    if end >= s.len() || s[end] != 58 {
        assert forall|x: Seq<u8>| !prefix_at(s@, pos as int, #[trigger] enc_bytes(x)) by {
            if prefix_at(s@, pos as int, enc_bytes(x)) {
                lemma_unshift_prefix(s@, pos as int, enc_bytes(x));
                lemma_prefix_split(s@.subrange(pos as int, s@.len() as int), decimal(x.len()) + seq![58u8], x);
                lemma_shift_prefix(s@, pos as int, decimal(x.len()) + seq![58u8]);
                lemma_same_number(s@, pos as int, x.len(), n as nat, 58u8);
                let w = s@.subrange(pos as int, pos + decimal(x.len()).len() + 1);
                assert(w[decimal(x.len()).len() as int] == 58u8);
            }
        }
        assert(!truncated_at(s@, pos as int));
        return Err(DecodeError::MalformedLength);
    }
    let start = end + 1;
    assert(declares(s@, pos as int, n as nat));
    if n > (s.len() - start) as u64 {
        assert forall|x: Seq<u8>| !prefix_at(s@, pos as int, #[trigger] enc_bytes(x)) by {
            if prefix_at(s@, pos as int, enc_bytes(x)) {
                lemma_unshift_prefix(s@, pos as int, enc_bytes(x));
                lemma_prefix_split(s@.subrange(pos as int, s@.len() as int), decimal(x.len()) + seq![58u8], x);
                lemma_shift_prefix(s@, pos as int, decimal(x.len()) + seq![58u8]);
                lemma_same_number(s@, pos as int, x.len(), n as nat, 58u8);
            }
        }
        assert(truncated_at(s@, pos as int));
        return Err(DecodeError::Truncated);
    }
    assert(!truncated_at(s@, pos as int));
    let stop = start + n as usize;
    let b = slice_to_vec(slice_subrange(s, start, stop));
    assert(s@.subrange(pos as int, stop as int) =~= enc_bytes(b@));
    Ok((b, stop))
}

proof fn lemma_int_parts(s: Seq<u8>, pos: int, i: int)
    requires
        prefix_at(s, pos, enc_int(i)),
    ensures
        pos + 1 < s.len(),
        s[pos] == 105,
        i >= 0 ==> s[pos + 1] != 45 && prefix_at(s, pos + 1, decimal(i as nat) + seq![101u8]),
        i < 0 ==> s[pos + 1] == 45 && prefix_at(s, pos + 2, decimal((-i) as nat) + seq![101u8]),
{
    let e = enc_int(i);
    let w = s.subrange(pos, pos + e.len());
    assert(w[0] == s[pos]);
    assert(w[1] == s[pos + 1]);
    if i >= 0 {
        lemma_decimal(i as nat);
        let d = decimal(i as nat) + seq![101u8];
        assert(e =~= seq![105u8] + d);
        assert(w == e);
        assert(e.subrange(1, e.len() as int) =~= d);
        assert(e[1] == decimal(i as nat)[0]);
        assert(s.subrange(pos + 1, pos + 1 + d.len()) =~= w.subrange(1, e.len() as int));
    } else {
        let d = decimal((-i) as nat) + seq![101u8];
        assert(e =~= seq![105u8, 45u8] + d);
        assert(w == e);
        assert(e.subrange(2, e.len() as int) =~= d);
        assert(s.subrange(pos + 2, pos + 2 + d.len()) =~= w.subrange(2, e.len() as int));
    }
}

fn decode_int(s: &[u8], pos: usize) -> (r: Result<(i64, usize), DecodeError>)
    requires
        pos < s@.len(),
        s@[pos as int] == 105,
    ensures
        r matches Ok((i, end)) ==> pos < end <= s@.len() && s@.subrange(pos as int, end as int)
            == enc_int(i as int),
        r is Err ==> forall|i: int| i64::MIN <= i <= i64::MAX ==> !prefix_at(s@, pos as int, #[trigger] enc_int(i)),
        r is Err ==> r == Err::<(i64, usize), DecodeError>(DecodeError::MalformedInteger),
{
    let len = s.len();
    let mut p = pos + 1;
    assert(p <= len);
    let neg = p < s.len() && s[p] == 45;
    if neg {
        p = p + 1;
    }
    let bound: u64 = if neg { MAX_MAGNITUDE + 1 } else { MAX_MAGNITUDE };
    let (n, end) = match read_nat(s, p, bound) {
        None => {
            assert forall|i: int| i64::MIN <= i <= i64::MAX implies !prefix_at(s@, pos as int, #[trigger] enc_int(i)) by {
                if prefix_at(s@, pos as int, enc_int(i)) {
                    lemma_int_parts(s@, pos as int, i);
                    if i >= 0 {
                        lemma_digits_followed(s@, p as int, i as nat, 101u8);
                    } else {
                        lemma_digits_followed(s@, p as int, (-i) as nat, 101u8);
                    }
                }
            }
            return Err(DecodeError::MalformedInteger);
        },
        Some(x) => x,
    };
    if end >= s.len() || s[end] != 101 || (neg && n == 0) {
        assert forall|i: int| i64::MIN <= i <= i64::MAX implies !prefix_at(s@, pos as int, #[trigger] enc_int(i)) by {
            if prefix_at(s@, pos as int, enc_int(i)) {
                lemma_int_parts(s@, pos as int, i);
                let m: nat = if i >= 0 { i as nat } else { (-i) as nat };
                lemma_same_number(s@, p as int, m, n as nat, 101u8);
                let w = s@.subrange(p as int, p + decimal(m).len() + 1);
                assert(w[decimal(m).len() as int] == 101u8);
            }
        }
        return Err(DecodeError::MalformedInteger);
    }
    let val: i64 = if neg {
        if n == MAX_MAGNITUDE + 1 {
            i64::MIN
        } else {
            -(n as i64)
        }
    } else {
        n as i64
    };
    assert(s@.subrange(pos as int, end + 1) =~= enc_int(val as int));
    Ok((val, end + 1))
}

proof fn lemma_first_byte(s: Seq<u8>, pos: int, e: Seq<u8>)
    requires
        prefix_at(s, pos, e),
        e.len() >= 1,
    ensures
        s[pos] == e[0],
{
    assert(s.subrange(pos, pos + e.len())[0] == s[pos]);
}

/// Within a list that stands at `pos` and whose first `k` items end at `p`,
/// a byte other than `e` at `p` starts item `k`.
proof fn lemma_list_next(s: Seq<u8>, pos: int, p: int, xs: Seq<BValue>, k: int)
    requires
        list_at(s, pos, xs),
        0 <= k <= xs.len(),
        pos < p <= s.len(),
        s.subrange(pos + 1, p) == enc_list(xs.subrange(0, k)),
    ensures
        p + 1 <= s.len(),
        p < s.len() && s[p] != 101 ==> k < xs.len() && prefix_at(s, p, enc(xs[k])),
{
    let e = seq![108u8] + enc_list(xs) + seq![101u8];
    let w = s.subrange(pos, pos + e.len());
    assert(w == e);
    if k == xs.len() {
        assert(xs.subrange(0, k) =~= xs);
        assert(e[p - pos] == 101);
        assert(w[p - pos] == s[p]);
    } else {
        lemma_enc_list_split(xs, k);
        let a = enc_list(xs.subrange(0, k));
        let c = enc(xs[k]);
        let b = enc_list(xs.subrange(k + 1, xs.len() as int));
        assert(e =~= seq![108u8] + a + c + b + seq![101u8]);
        lemma_enc_first(xs[k]);
        assert(s.subrange(p, p + c.len()) =~= w.subrange(1int + a.len(), 1int + a.len() + c.len()));
        assert(w.subrange(1int + a.len(), 1int + a.len() + c.len()) =~= c);
    }
}

proof fn lemma_dict_next(s: Seq<u8>, pos: int, p: int, xs: Seq<(Seq<u8>, BValue)>, k: int)
    requires
        dict_at(s, pos, xs),
        0 <= k <= xs.len(),
        pos < p <= s.len(),
        s.subrange(pos + 1, p) == enc_dict(xs.subrange(0, k)),
    ensures
        p + 1 <= s.len(),
        p < s.len() && s[p] != 101 ==> k < xs.len() && prefix_at(s, p, enc_bytes(xs[k].0)) && prefix_at(
            s,
            p + enc_bytes(xs[k].0).len(),
            enc(xs[k].1),
        ),
{
    let e = seq![100u8] + enc_dict(xs) + seq![101u8];
    let w = s.subrange(pos, pos + e.len());
    assert(w == e);
    if k == xs.len() {
        assert(xs.subrange(0, k) =~= xs);
        assert(e[p - pos] == 101);
        assert(w[p - pos] == s[p]);
    } else {
        lemma_enc_dict_split(xs, k);
        let a = enc_dict(xs.subrange(0, k));
        let kb = enc_bytes(xs[k].0);
        let c = enc(xs[k].1);
        let b = enc_dict(xs.subrange(k + 1, xs.len() as int));
        assert(e =~= seq![100u8] + a + kb + c + b + seq![101u8]);
        lemma_enc_first(xs[k].1);
        assert(s.subrange(p, p + kb.len()) =~= w.subrange(1int + a.len(), 1int + a.len() + kb.len()));
        assert(w.subrange(1int + a.len(), 1int + a.len() + kb.len()) =~= kb);
        let q = p + kb.len();
        assert(s.subrange(q, q + c.len()) =~= w.subrange(1int + a.len() + kb.len(), 1int + a.len() + kb.len() + c.len()));
        assert(w.subrange(1int + a.len() + kb.len(), 1int + a.len() + kb.len() + c.len()) =~= c);
    }
}

fn decode_list(s: &[u8], pos: usize) -> (r: Result<(Value, usize), DecodeError>)
    requires
        pos < s@.len(),
        s@[pos as int] == 108,
    ensures
        r matches Ok((v, end)) ==> pos < end <= s@.len() && s@.subrange(pos as int, end as int)
            == enc(v@),
        r is Err ==> forall|xs: Seq<BValue>| !#[trigger] list_at(s@, pos as int, xs),
    decreases s@.len() - pos, 0int,
{
    let mut items: Vec<Value> = Vec::new();
    let len = s.len();
    let mut p = pos + 1;
    assert(p <= len);
    assert(s@.subrange(pos + 1, p as int) =~= enc_list(view_list(items@)));
    assert forall|xs: Seq<BValue>| #[trigger] list_at(s@, pos as int, xs) implies items@.len() <= xs.len()
        && xs.subrange(0, items@.len() as int) == view_list(items@) by {
        assert(xs.subrange(0, 0) =~= view_list(items@));
    }
    while p < s.len() && s[p] != 101
        invariant
            pos < p <= s@.len(),
            s@[pos as int] == 108,
            s@.subrange(pos + 1, p as int) == enc_list(view_list(items@)),
            forall|xs: Seq<BValue>| #[trigger] list_at(s@, pos as int, xs) ==> items@.len() <= xs.len()
                && xs.subrange(0, items@.len() as int) == view_list(items@),
        decreases s@.len() - p,
    {
        let (v, q) = match decode_at(s, p) {
            Err(e) => {
                assert forall|xs: Seq<BValue>| !#[trigger] list_at(s@, pos as int, xs) by {
                    if list_at(s@, pos as int, xs) {
                        lemma_list_next(s@, pos as int, p as int, xs, items@.len() as int);
                        assert(valid(xs[items@.len() as int]));
                    }
                }
                return Err(e);
            },
            Ok(x) => x,
        };
        proof {
            assert forall|xs: Seq<BValue>| #[trigger] list_at(s@, pos as int, xs) implies items@.len() + 1
                <= xs.len() && xs.subrange(0, items@.len() + 1int) == view_list(items@.push(v)) by {
                let k = items@.len() as int;
                lemma_list_next(s@, pos as int, p as int, xs, k);
                lemma_unshift_prefix(s@, p as int, enc(xs[k]));
                lemma_unshift_prefix(s@, p as int, enc(v@));
                lemma_enc_unique(xs[k], v@, s@.subrange(p as int, s@.len() as int));
                lemma_view_list_push(items@, v);
                assert(xs.subrange(0, k + 1) =~= xs.subrange(0, k).push(xs[k]));
            }
            lemma_view_list_push(items@, v);
            lemma_enc_list_push(view_list(items@), v@);
            assert(s@.subrange(pos + 1, q as int) =~= s@.subrange(pos + 1, p as int) + s@.subrange(p as int, q as int));
        }
        items.push(v);
        p = q;
    }
    if p >= s.len() {
        assert forall|xs: Seq<BValue>| !#[trigger] list_at(s@, pos as int, xs) by {
            if list_at(s@, pos as int, xs) {
                lemma_list_next(s@, pos as int, p as int, xs, items@.len() as int);
            }
        }
        return Err(DecodeError::MalformedValue);
    }
    let v = Value::List(items);
    assert(s@.subrange(pos as int, p + 1) =~= enc(v@));
    Ok((v, p + 1))
}

fn decode_dict(s: &[u8], pos: usize) -> (r: Result<(Value, usize), DecodeError>)
    requires
        pos < s@.len(),
        s@[pos as int] == 100,
    ensures
        r matches Ok((v, end)) ==> pos < end <= s@.len() && s@.subrange(pos as int, end as int)
            == enc(v@),
        r is Err ==> forall|xs: Seq<(Seq<u8>, BValue)>| !#[trigger] dict_at(s@, pos as int, xs),
    decreases s@.len() - pos, 0int,
{
    let mut entries: Vec<(Vec<u8>, Value)> = Vec::new();
    let len = s.len();
    let mut p = pos + 1;
    assert(p <= len);
    assert(s@.subrange(pos + 1, p as int) =~= enc_dict(view_dict(entries@)));
    assert forall|xs: Seq<(Seq<u8>, BValue)>| #[trigger] dict_at(s@, pos as int, xs) implies entries@.len()
        <= xs.len() && xs.subrange(0, entries@.len() as int) == view_dict(entries@) by {
        assert(xs.subrange(0, 0) =~= view_dict(entries@));
    }
    while p < s.len() && s[p] != 101
        invariant
            pos < p <= s@.len(),
            s@[pos as int] == 100,
            s@.subrange(pos + 1, p as int) == enc_dict(view_dict(entries@)),
            forall|xs: Seq<(Seq<u8>, BValue)>| #[trigger] dict_at(s@, pos as int, xs) ==> entries@.len()
                <= xs.len() && xs.subrange(0, entries@.len() as int) == view_dict(entries@),
        decreases s@.len() - p,
    {
        let ghost n = entries@.len() as int;
        if !is_digit_byte(s[p]) {
            assert forall|xs: Seq<(Seq<u8>, BValue)>| !#[trigger] dict_at(s@, pos as int, xs) by {
                if dict_at(s@, pos as int, xs) {
                    lemma_dict_next(s@, pos as int, p as int, xs, n);
                    lemma_decimal(xs[n].0.len());
                    lemma_first_byte(s@, p as int, enc_bytes(xs[n].0));
                }
            }
            return Err(DecodeError::NonStringKey);
        }
        let (k, q) = match decode_bytes(s, p) {
            Err(e) => {
                assert forall|xs: Seq<(Seq<u8>, BValue)>| !#[trigger] dict_at(s@, pos as int, xs) by {
                    if dict_at(s@, pos as int, xs) {
                        lemma_dict_next(s@, pos as int, p as int, xs, n);
                    }
                }
                return Err(e);
            },
            Ok(x) => x,
        };
        proof {
            assert forall|xs: Seq<(Seq<u8>, BValue)>| #[trigger] dict_at(s@, pos as int, xs) implies n < xs.len()
                && xs[n].0 == k@ && prefix_at(s@, q as int, enc(xs[n].1)) by {
                lemma_dict_next(s@, pos as int, p as int, xs, n);
                lemma_unshift_prefix(s@, p as int, enc_bytes(xs[n].0));
                assert(prefix_at(s@, p as int, enc_bytes(k@)));
                lemma_unshift_prefix(s@, p as int, enc_bytes(k@));
                lemma_bytes_unique(xs[n].0, k@, s@.subrange(p as int, s@.len() as int));
            }
        }
        if q >= s.len() {
            assert forall|xs: Seq<(Seq<u8>, BValue)>| !#[trigger] dict_at(s@, pos as int, xs) by {
                if dict_at(s@, pos as int, xs) {
                    lemma_enc_first(xs[n].1);
                }
            }
            return Err(DecodeError::MalformedValue);
        }
        let (v, q2) = match decode_at(s, q) {
            Err(e) => {
                assert forall|xs: Seq<(Seq<u8>, BValue)>| !#[trigger] dict_at(s@, pos as int, xs) by {
                    if dict_at(s@, pos as int, xs) {
                        assert(valid(xs[n].1));
                    }
                }
                return Err(e);
            },
            Ok(x) => x,
        };
        proof {
            assert forall|xs: Seq<(Seq<u8>, BValue)>| #[trigger] dict_at(s@, pos as int, xs) implies n + 1
                <= xs.len() && xs.subrange(0, n + 1) == view_dict(entries@.push((k, v))) by {
                lemma_unshift_prefix(s@, q as int, enc(xs[n].1));
                lemma_unshift_prefix(s@, q as int, enc(v@));
                lemma_enc_unique(xs[n].1, v@, s@.subrange(q as int, s@.len() as int));
                lemma_view_dict_push(entries@, (k, v));
                assert(xs.subrange(0, n + 1) =~= xs.subrange(0, n).push(xs[n]));
            }
            lemma_view_dict_push(entries@, (k, v));
            lemma_enc_dict_push(view_dict(entries@), (k@, v@));
            assert(s@.subrange(pos + 1, q2 as int) =~= s@.subrange(pos + 1, p as int) + s@.subrange(p as int, q as int) + s@.subrange(q as int, q2 as int));
        }
        entries.push((k, v));
        p = q2;
    }
    if p >= s.len() {
        assert forall|xs: Seq<(Seq<u8>, BValue)>| !#[trigger] dict_at(s@, pos as int, xs) by {
            if dict_at(s@, pos as int, xs) {
                lemma_dict_next(s@, pos as int, p as int, xs, entries@.len() as int);
            }
        }
        return Err(DecodeError::MalformedValue);
    }
    let v = Value::Dict(entries);
    assert(s@.subrange(pos as int, p + 1) =~= enc(v@));
    Ok((v, p + 1))
}

/// Decodes the value that starts at `pos`; on success also gives the
/// position just after it. Fails exactly when no valid value is encoded there.
fn decode_at(s: &[u8], pos: usize) -> (r: Result<(Value, usize), DecodeError>)
    requires
        pos <= s@.len(),
    ensures
        r matches Ok((v, end)) ==> pos < end <= s@.len() && s@.subrange(pos as int, end as int)
            == enc(v@),
        r is Err ==> no_value_at(s@, pos as int),
        pos == s@.len() || !starts_value(s@[pos as int]) ==> r == Err::<(Value, usize), DecodeError>(
            DecodeError::MalformedValue,
        ),
        pos < s@.len() && s@[pos as int] == 105 && r is Err ==> r == Err::<(Value, usize), DecodeError>(
            DecodeError::MalformedInteger,
        ),
        pos < s@.len() && is_digit(s@[pos as int]) && r is Err ==> r == Err::<(Value, usize), DecodeError>(
            DecodeError::MalformedLength,
        ) || r == Err::<(Value, usize), DecodeError>(DecodeError::Truncated),
        pos < s@.len() && is_digit(s@[pos as int]) ==> (r == Err::<(Value, usize), DecodeError>(
            DecodeError::Truncated,
        ) <==> truncated_at(s@, pos as int)),
    decreases s@.len() - pos, 1int,
{
    if pos >= s.len() {
        assert forall|w: BValue| valid(w) implies !prefix_at(s@, pos as int, #[trigger] enc(w)) by {
            lemma_enc_first(w);
        }
        return Err(DecodeError::MalformedValue);
    }
    let c = s[pos];
    proof {
        assert forall|w: BValue| valid(w) && prefix_at(s@, pos as int, #[trigger] enc(w)) implies
            (w is Bytes ==> is_digit(c)) && (w is Int ==> c == 105) && (w is List ==> c == 108)
            && (w is Dict ==> c == 100) by {
            lemma_enc_first(w);
            lemma_first_byte(s@, pos as int, enc(w));
        }
    }
    if is_digit_byte(c) {
        match decode_bytes(s, pos) {
            Err(e) => {
                assert forall|w: BValue| valid(w) implies !prefix_at(s@, pos as int, #[trigger] enc(w)) by {
                    if prefix_at(s@, pos as int, enc(w)) {
                        lemma_enc_first(w);
                        lemma_first_byte(s@, pos as int, enc(w));
                        lemma_absent_kind(s@, pos as int, w);
                    }
                }
                Err(e)
            },
            Ok((b, end)) => Ok((Value::Bytes(b), end)),
        }
    } else if c == 105 {
        match decode_int(s, pos) {
            Err(e) => {
                assert forall|w: BValue| valid(w) implies !prefix_at(s@, pos as int, #[trigger] enc(w)) by {
                    if prefix_at(s@, pos as int, enc(w)) {
                        lemma_enc_first(w);
                        lemma_first_byte(s@, pos as int, enc(w));
                        lemma_absent_kind(s@, pos as int, w);
                        if w is Int {
                            let i = w->Int_0;
                            assert(i64::MIN <= i <= i64::MAX);
                            assert(prefix_at(s@, pos as int, enc_int(i)));
                        }
                    }
                }
                Err(e)
            },
            Ok((i, end)) => Ok((Value::Int(i), end)),
        }
    } else if c == 108 {
        let r = decode_list(s, pos);
        assert forall|w: BValue| r is Err && valid(w) implies !prefix_at(s@, pos as int, #[trigger] enc(w)) by {
            if prefix_at(s@, pos as int, enc(w)) {
                lemma_enc_first(w);
                lemma_first_byte(s@, pos as int, enc(w));
                lemma_absent_kind(s@, pos as int, w);
            }
        }
        r
    } else if c == 100 {
        let r = decode_dict(s, pos);
        assert forall|w: BValue| r is Err && valid(w) implies !prefix_at(s@, pos as int, #[trigger] enc(w)) by {
            if prefix_at(s@, pos as int, enc(w)) {
                lemma_enc_first(w);
                lemma_first_byte(s@, pos as int, enc(w));
                lemma_absent_kind(s@, pos as int, w);
            }
        }
        r
    } else {
        Err(DecodeError::MalformedValue)
    }
}

/// What a valid value encoded at `pos` says of the matching kind of value there.
proof fn lemma_absent_kind(s: Seq<u8>, pos: int, w: BValue)
    requires
        valid(w),
        prefix_at(s, pos, enc(w)),
    ensures
        w matches BValue::Bytes(x) ==> prefix_at(s, pos, enc_bytes(x)),
        w matches BValue::Int(i) ==> i64::MIN <= i <= i64::MAX && prefix_at(s, pos, enc_int(i)),
        w matches BValue::List(xs) ==> list_at(s, pos, xs),
        w matches BValue::Dict(xs) ==> dict_at(s, pos, xs),
{
    match w {
        BValue::List(xs) => {
            assert(enc(w) == seq![108u8] + enc_list(xs) + seq![101u8]);
        },
        BValue::Dict(xs) => {
            assert(enc(w) == seq![100u8] + enc_dict(xs) + seq![101u8]);
        },
        _ => {},
    }
}

proof fn lemma_prefix_split(t: Seq<u8>, e1: Seq<u8>, e2: Seq<u8>)
    requires
        prefix_at(t, 0, e1 + e2),
    ensures
        prefix_at(t, 0, e1),
        prefix_at(t.subrange(e1.len() as int, t.len() as int), 0, e2),
{
    let w = t.subrange(0, (e1 + e2).len() as int);
    assert(w == e1 + e2);
    assert((e1 + e2).subrange(0, e1.len() as int) =~= e1);
    assert((e1 + e2).subrange(e1.len() as int, (e1 + e2).len() as int) =~= e2);
    assert(t.subrange(0, e1.len() as int) =~= w.subrange(0, e1.len() as int));
    assert(t.subrange(e1.len() as int, t.len() as int).subrange(0, e2.len() as int) =~= w.subrange(
        e1.len() as int,
        (e1 + e2).len() as int,
    ));
}

proof fn lemma_enc_first(v: BValue)
    ensures
        enc(v).len() >= 1,
        enc(v)[0] != 101,
        v is Bytes <==> is_digit(enc(v)[0]),
        v is Int <==> enc(v)[0] == 105,
        v is List <==> enc(v)[0] == 108,
        v is Dict <==> enc(v)[0] == 100,
{
    match v {
        BValue::Bytes(b) => {
            lemma_decimal(b.len());
        },
        BValue::Int(i) => {},
        BValue::List(items) => {},
        BValue::Dict(entries) => {},
    }
}

proof fn lemma_digit_runs(d1: Seq<u8>, d2: Seq<u8>, t: Seq<u8>)
    requires
        all_digits(d1),
        all_digits(d2),
        d1.len() < t.len(),
        d2.len() < t.len(),
        t.subrange(0, d1.len() as int) == d1,
        t.subrange(0, d2.len() as int) == d2,
        !is_digit(t[d1.len() as int]),
        !is_digit(t[d2.len() as int]),
    ensures
        d1 == d2,
{
    if d1.len() < d2.len() {
        assert(t.subrange(0, d2.len() as int)[d1.len() as int] == t[d1.len() as int]);
    } else if d2.len() < d1.len() {
        assert(t.subrange(0, d1.len() as int)[d2.len() as int] == t[d2.len() as int]);
    }
    assert(d1 =~= d2);
}

/// Two decimals followed by the same non-digit byte stand for the same number.
proof fn lemma_decimal_unique(m: nat, n: nat, t: Seq<u8>, c: u8)
    requires
        !is_digit(c),
        prefix_at(t, 0, decimal(m) + seq![c]),
        prefix_at(t, 0, decimal(n) + seq![c]),
    ensures
        m == n,
{
    lemma_decimal(m);
    lemma_decimal(n);
    lemma_prefix_split(t, decimal(m), seq![c]);
    lemma_prefix_split(t, decimal(n), seq![c]);
    assert(t.subrange(decimal(m).len() as int, t.len() as int)[0] == t[decimal(m).len() as int]);
    assert(t.subrange(decimal(n).len() as int, t.len() as int)[0] == t[decimal(n).len() as int]);
    assert(t.subrange(0, (decimal(m) + seq![c]).len() as int)[decimal(m).len() as int] == c);
    assert(t.subrange(0, (decimal(n) + seq![c]).len() as int)[decimal(n).len() as int] == c);
    lemma_digit_runs(decimal(m), decimal(n), t);
}

proof fn lemma_bytes_unique(x: Seq<u8>, y: Seq<u8>, t: Seq<u8>)
    requires
        prefix_at(t, 0, enc_bytes(x)),
        prefix_at(t, 0, enc_bytes(y)),
    ensures
        x == y,
{
    lemma_prefix_split(t, decimal(x.len()) + seq![58u8], x);
    lemma_prefix_split(t, decimal(y.len()) + seq![58u8], y);
    lemma_decimal_unique(x.len(), y.len(), t, 58u8);
    let l = (decimal(x.len()) + seq![58u8]).len() as int;
    assert(x =~= t.subrange(l, t.len() as int).subrange(0, x.len() as int));
    assert(x =~= y);
}

/// No bencoding is a proper prefix of another: two values whose encodings
/// both begin `t` are the same value.
pub proof fn lemma_enc_unique(a: BValue, b: BValue, t: Seq<u8>)
    requires
        prefix_at(t, 0, enc(a)),
        prefix_at(t, 0, enc(b)),
    ensures
        a == b,
    decreases a,
{
    lemma_enc_first(a);
    lemma_enc_first(b);
    assert(t.subrange(0, enc(a).len() as int)[0] == t[0]);
    assert(t.subrange(0, enc(b).len() as int)[0] == t[0]);
    match a {
        BValue::Bytes(x) => {
            lemma_bytes_unique(x, b->Bytes_0, t);
        },
        BValue::Int(i) => {
            let j = b->Int_0;
            let u = t.subrange(1, t.len() as int);
            if i >= 0 {
                lemma_decimal(i as nat);
                assert(enc(a) == seq![105u8] + (decimal(i as nat) + seq![101u8]));
                lemma_prefix_split(t, seq![105u8], decimal(i as nat) + seq![101u8]);
                assert(t.subrange(0, enc(a).len() as int)[1] == t[1]);
                if j < 0 {
                    assert(enc(b)[1] == 45);
                    assert(t.subrange(0, enc(b).len() as int)[1] == t[1]);
                    assert(false);
                }
                assert(enc(b) == seq![105u8] + (decimal(j as nat) + seq![101u8]));
                lemma_prefix_split(t, seq![105u8], decimal(j as nat) + seq![101u8]);
                lemma_decimal_unique(i as nat, j as nat, u, 101u8);
            } else {
                lemma_decimal((-i) as nat);
                assert(enc(a) == seq![105u8, 45u8] + (decimal((-i) as nat) + seq![101u8]));
                lemma_prefix_split(t, seq![105u8, 45u8], decimal((-i) as nat) + seq![101u8]);
                assert(t.subrange(0, enc(a).len() as int)[1] == t[1]);
                if j >= 0 {
                    lemma_decimal(j as nat);
                    assert(enc(b)[1] == decimal(j as nat)[0]);
                    assert(t.subrange(0, enc(b).len() as int)[1] == t[1]);
                    assert(false);
                }
                assert(enc(b) == seq![105u8, 45u8] + (decimal((-j) as nat) + seq![101u8]));
                lemma_prefix_split(t, seq![105u8, 45u8], decimal((-j) as nat) + seq![101u8]);
                lemma_decimal_unique((-i) as nat, (-j) as nat, t.subrange(2, t.len() as int), 101u8);
            }
        },
        BValue::List(xs) => {
            let ys = b->List_0;
            assert(enc(a) =~= seq![108u8] + (enc_list(xs) + seq![101u8]));
            assert(enc(b) =~= seq![108u8] + (enc_list(ys) + seq![101u8]));
            lemma_prefix_split(t, seq![108u8], enc_list(xs) + seq![101u8]);
            lemma_prefix_split(t, seq![108u8], enc_list(ys) + seq![101u8]);
            lemma_list_unique(xs, ys, t.subrange(1, t.len() as int));
        },
        BValue::Dict(xs) => {
            let ys = b->Dict_0;
            assert(enc(a) =~= seq![100u8] + (enc_dict(xs) + seq![101u8]));
            assert(enc(b) =~= seq![100u8] + (enc_dict(ys) + seq![101u8]));
            lemma_prefix_split(t, seq![100u8], enc_dict(xs) + seq![101u8]);
            lemma_prefix_split(t, seq![100u8], enc_dict(ys) + seq![101u8]);
            lemma_dict_unique(xs, ys, t.subrange(1, t.len() as int));
        },
    }
}

proof fn lemma_list_unique(xs: Seq<BValue>, ys: Seq<BValue>, t: Seq<u8>)
    requires
        prefix_at(t, 0, enc_list(xs) + seq![101u8]),
        prefix_at(t, 0, enc_list(ys) + seq![101u8]),
    ensures
        xs == ys,
    decreases xs,
{
    if xs.len() == 0 && ys.len() == 0 {
        assert(xs =~= ys);
    } else if xs.len() == 0 || ys.len() == 0 {
        let zs = if xs.len() == 0 { ys } else { xs };
        lemma_enc_first(zs[0]);
        assert(enc_list(Seq::<BValue>::empty()) + seq![101u8] =~= seq![101u8]);
        assert(t.subrange(0, 1)[0] == t[0]);
        assert(t.subrange(0, (enc_list(zs) + seq![101u8]).len() as int)[0] == t[0]);
        assert((enc_list(zs) + seq![101u8])[0] == enc(zs[0])[0]);
    } else {
        let xt = xs.subrange(1, xs.len() as int);
        let yt = ys.subrange(1, ys.len() as int);
        assert(enc_list(xs) + seq![101u8] =~= enc(xs[0]) + (enc_list(xt) + seq![101u8]));
        assert(enc_list(ys) + seq![101u8] =~= enc(ys[0]) + (enc_list(yt) + seq![101u8]));
        lemma_prefix_split(t, enc(xs[0]), enc_list(xt) + seq![101u8]);
        lemma_prefix_split(t, enc(ys[0]), enc_list(yt) + seq![101u8]);
        lemma_enc_unique(xs[0], ys[0], t);
        lemma_list_unique(xt, yt, t.subrange(enc(xs[0]).len() as int, t.len() as int));
        assert(xs =~= seq![xs[0]] + xt);
        assert(ys =~= seq![ys[0]] + yt);
    }
}

proof fn lemma_dict_unique(xs: Seq<(Seq<u8>, BValue)>, ys: Seq<(Seq<u8>, BValue)>, t: Seq<u8>)
    requires
        prefix_at(t, 0, enc_dict(xs) + seq![101u8]),
        prefix_at(t, 0, enc_dict(ys) + seq![101u8]),
    ensures
        xs == ys,
    decreases xs,
{
    if xs.len() == 0 && ys.len() == 0 {
        assert(xs =~= ys);
    } else if xs.len() == 0 || ys.len() == 0 {
        let zs = if xs.len() == 0 { ys } else { xs };
        lemma_enc_first(BValue::Bytes(zs[0].0));
        assert(enc_dict(Seq::<(Seq<u8>, BValue)>::empty()) + seq![101u8] =~= seq![101u8]);
        assert(t.subrange(0, 1)[0] == t[0]);
        assert(t.subrange(0, (enc_dict(zs) + seq![101u8]).len() as int)[0] == t[0]);
        assert((enc_dict(zs) + seq![101u8])[0] == enc_bytes(zs[0].0)[0]);
    } else {
        let xt = xs.subrange(1, xs.len() as int);
        let yt = ys.subrange(1, ys.len() as int);
        let (kx, vx) = xs[0];
        let (ky, vy) = ys[0];
        assert(enc_dict(xs) + seq![101u8] =~= enc_bytes(kx) + (enc(vx) + (enc_dict(xt) + seq![101u8])));
        assert(enc_dict(ys) + seq![101u8] =~= enc_bytes(ky) + (enc(vy) + (enc_dict(yt) + seq![101u8])));
        lemma_prefix_split(t, enc_bytes(kx), enc(vx) + (enc_dict(xt) + seq![101u8]));
        lemma_prefix_split(t, enc_bytes(ky), enc(vy) + (enc_dict(yt) + seq![101u8]));
        lemma_bytes_unique(kx, ky, t);
        let u = t.subrange(enc_bytes(kx).len() as int, t.len() as int);
        lemma_prefix_split(u, enc(vx), enc_dict(xt) + seq![101u8]);
        lemma_prefix_split(u, enc(vy), enc_dict(yt) + seq![101u8]);
        assert(decreases_to!(xs => xs[0]));
        assert(decreases_to!(xs[0] => xs[0].1));
        lemma_enc_unique(vx, vy, u);
        lemma_dict_unique(xt, yt, u.subrange(enc(vx).len() as int, u.len() as int));
        assert(xs =~= seq![xs[0]] + xt);
        assert(ys =~= seq![ys[0]] + yt);
    }
}

proof fn lemma_view_list_index(items: Seq<Value>)
    ensures
        view_list(items).len() == items.len(),
        forall|k: int| 0 <= k < items.len() ==> #[trigger] view_list(items)[k] == view_value(items[k]),
    decreases items.len(),
{
    if items.len() > 0 {
        lemma_view_list_index(items.subrange(0, items.len() - 1));
    }
}

proof fn lemma_view_dict_index(entries: Seq<(Vec<u8>, Value)>)
    ensures
        view_dict(entries).len() == entries.len(),
        forall|k: int| 0 <= k < entries.len() ==> #[trigger] view_dict(entries)[k] == (entries[k].0@, view_value(entries[k].1)),
    decreases entries.len(),
{
    if entries.len() > 0 {
        lemma_view_dict_index(entries.subrange(0, entries.len() - 1));
    }
}

/// Every value that the library holds is valid.
pub proof fn lemma_view_valid(v: Value)
    ensures
        valid(v@),
    decreases v,
{
    match v {
        Value::List(items) => {
            lemma_view_list_index(items@);
            assert forall|k: int| 0 <= k < view_list(items@).len() implies valid(#[trigger] view_list(items@)[k]) by {
                assert(decreases_to!(v => v->List_0));
                assert(decreases_to!(items => items@));
                assert(decreases_to!(items@ => items@[k]));
                lemma_view_valid(items@[k]);
            }
        },
        Value::Dict(entries) => {
            lemma_view_dict_index(entries@);
            assert forall|k: int| 0 <= k < view_dict(entries@).len() implies valid(#[trigger] view_dict(entries@)[k].1) by {
                assert(decreases_to!(v => v->Dict_0));
                assert(decreases_to!(entries => entries@));
                assert(decreases_to!(entries@ => entries@[k]));
                assert(decreases_to!(entries@[k] => entries@[k].1));
                lemma_view_valid(entries@[k].1);
            }
        },
        _ => {},
    }
}

/// Decodes the value at the start of `bytes` and gives the number of bytes
/// that it took; the rest is left to the caller. Fails exactly when no valid
/// value is encoded at the start of `bytes`.
pub fn decode(bytes: &[u8]) -> (r: Result<(Value, usize), DecodeError>)
    ensures
        r is Err <==> no_value_at(bytes@, 0),
        r matches Ok((v, n)) ==> 0 < n <= bytes@.len() && bytes@.subrange(0, n as int) == enc(v@),
        bytes@.len() == 0 || !starts_value(bytes@[0]) ==> r == Err::<(Value, usize), DecodeError>(
            DecodeError::MalformedValue,
        ),
        bytes@.len() > 0 && bytes@[0] == 105 && r is Err ==> r == Err::<(Value, usize), DecodeError>(
            DecodeError::MalformedInteger,
        ),
        bytes@.len() > 0 && is_digit(bytes@[0]) && r is Err ==> r == Err::<(Value, usize), DecodeError>(
            DecodeError::MalformedLength,
        ) || r == Err::<(Value, usize), DecodeError>(DecodeError::Truncated),
        bytes@.len() > 0 && is_digit(bytes@[0]) ==> (r == Err::<(Value, usize), DecodeError>(
            DecodeError::Truncated,
        ) <==> truncated_at(bytes@, 0)),
{
    let r = decode_at(bytes, 0);
    proof {
        if r is Ok {
            let v = r->Ok_0.0;
            lemma_view_valid(v);
            assert(prefix_at(bytes@, 0, enc(v@)));
        }
    }
    r
}

/// The round trip: decoding the encoding of a valid value succeeds, and the
/// value decoded is that value, whatever bytes follow.
pub proof fn lemma_round_trip(v: BValue, rest: Seq<u8>)
    requires
        valid(v),
    ensures
        !no_value_at(enc(v) + rest, 0),
        forall|w: BValue| #[trigger] prefix_at(enc(v) + rest, 0, enc(w)) ==> w == v,
{
    let s = enc(v) + rest;
    assert(s.subrange(0, enc(v).len() as int) =~= enc(v));
    assert(prefix_at(s, 0, enc(v)));
    assert forall|w: BValue| #[trigger] prefix_at(enc(v) + rest, 0, enc(w)) implies w == v by {
        lemma_enc_unique(w, v, s);
    }
}

} // verus!
