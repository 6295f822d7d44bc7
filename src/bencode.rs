use vstd::prelude::*;
use vstd::utf8::encode_utf8;

verus! {

broadcast use vstd::std_specs::vec::group_vec_axioms, vstd::seq::group_seq_axioms;

/// The mathematical form of a bencode value.
pub enum Bencode {
    Int(int),
    Bytes(Seq<u8>),
    List(Seq<Bencode>),
    Dict(Seq<Seq<u8>>, Seq<Bencode>),
}

/// A decoded bencode value. Dictionary entries are kept in the order in which they
/// were read; a well-formed dictionary has its keys in strictly ascending order.
#[derive(Debug, PartialEq, Eq)]
pub enum Value {
    Integer(i64),
    Bytes(Vec<u8>),
    List(Vec<Value>),
    Dict(Vec<(Vec<u8>, Value)>),
}

impl View for Value {
    type V = Bencode;

    open spec fn view(&self) -> Bencode
        decreases self,
    {
        match self {
            Value::Integer(n) => Bencode::Int(*n as int),
            Value::Bytes(b) => Bencode::Bytes(b@),
            Value::List(items) => Bencode::List(
                Seq::new(items.len() as nat, |i: int| if 0 <= i < items.len() { items[i].view() } else { Bencode::Int(0) },
            ),
            ),
            Value::Dict(es) => Bencode::Dict(
                Seq::new(es.len() as nat, |i: int| es[i].0@),
                Seq::new(es.len() as nat, |i: int| if 0 <= i < es.len() { es[i].1.view() } else { Bencode::Int(0) }),
            ),
        }
    }
}

pub open spec fn is_digit(b: u8) -> bool {
    48 <= b <= 57
}

/// The base-10 text of a natural number, without leading zeros.
pub open spec fn decimal(n: nat) -> Seq<u8>
    decreases n,
{
    if n < 10 {
        seq![(n + 48) as u8]
    } else {
        decimal(n / 10).push((n % 10 + 48) as u8)
    }
}

/// The number that a run of ASCII digits denotes.
pub open spec fn digits_value(ds: Seq<u8>) -> nat
    decreases ds.len(),
{
    if ds.len() == 0 {
        0
    } else {
        digits_value(ds.drop_last()) * 10 + (ds.last() - 48) as nat
    }
}

/// A non-empty run of digits that starts with `0` only when it is `0` itself.
pub open spec fn canonical_digits(ds: Seq<u8>) -> bool {
    &&& ds.len() > 0
    &&& forall|i: int| 0 <= i < ds.len() ==> is_digit(#[trigger] ds[i])
    &&& ds[0] == 48 ==> ds.len() == 1
}

/// The signed base-10 text of an integer.
pub open spec fn int_text(n: int) -> Seq<u8> {
    if n < 0 {
        seq![45u8] + decimal((-n) as nat)
    } else {
        decimal(n as nat)
    }
}

/// `<len>:<bytes>`
pub open spec fn encode_string(s: Seq<u8>) -> Seq<u8> {
    decimal(s.len()) + seq![58u8] + s
}

/// The bencode text of a value; dictionary entries come in the order they are held.
pub open spec fn encode_value(v: Bencode) -> Seq<u8>
    decreases v,
{
    match v {
        Bencode::Int(n) => seq![105u8] + int_text(n) + seq![101u8],
        Bencode::Bytes(s) => encode_string(s),
        Bencode::List(items) => seq![108u8] + encode_list(items) + seq![101u8],
        Bencode::Dict(keys, vals) => seq![100u8] + encode_dict(keys, vals) + seq![101u8],
    }
}

pub open spec fn encode_list(items: Seq<Bencode>) -> Seq<u8>
    decreases items,
{
    if items.len() == 0 {
        Seq::empty()
    } else {
        encode_list(items.drop_last()) + encode_value(items.last())
    }
}

pub open spec fn encode_dict(keys: Seq<Seq<u8>>, vals: Seq<Bencode>) -> Seq<u8>
    decreases vals,
{
    if vals.len() == 0 || keys.len() == 0 {
        Seq::empty()
    } else {
        encode_dict(keys.drop_last(), vals.drop_last()) + encode_string(keys.last())
            + encode_value(vals.last())
    }
}

/// Byte-wise lexicographic order.
pub open spec fn bytes_lt(a: Seq<u8>, b: Seq<u8>) -> bool
    decreases a.len(),
{
    if a.len() == 0 {
        b.len() > 0
    } else if b.len() == 0 {
        false
    } else if a[0] != b[0] {
        a[0] < b[0]
    } else {
        bytes_lt(a.drop_first(), b.drop_first())
    }
}

pub open spec fn keys_ascending(keys: Seq<Seq<u8>>) -> bool {
    forall|i: int| 0 <= i < keys.len() - 1 ==> bytes_lt(#[trigger] keys[i], keys[i + 1])
}

/// A value in canonical form: integers fit in 64 bits and every dictionary has its
/// keys in strictly ascending order.
pub open spec fn wf(v: Bencode) -> bool
    decreases v,
{
    match v {
        Bencode::Int(n) => i64::MIN <= n <= i64::MAX,
        Bencode::Bytes(_) => true,
        Bencode::List(items) => wf_list(items),
        Bencode::Dict(keys, vals) => {
            &&& keys.len() == vals.len()
            &&& keys_ascending(keys)
            &&& wf_list(vals)
        },
    }
}

pub open spec fn wf_list(items: Seq<Bencode>) -> bool
    decreases items,
{
    if items.len() == 0 {
        true
    } else {
        wf_list(items.drop_last()) && wf(items.last())
    }
}

pub proof fn lemma_wf_list(items: Seq<Bencode>)
    ensures
        wf_list(items) <==> forall|i: int| 0 <= i < items.len() ==> #[trigger] wf(items[i]),
    decreases items.len(),
{
    if items.len() > 0 {
        lemma_wf_list(items.drop_last());
        if wf_list(items) {
            assert forall|i: int| 0 <= i < items.len() implies #[trigger] wf(items[i]) by {
                if i < items.len() - 1 {
                    assert(items.drop_last()[i] == items[i]);
                }
            }
        }
        if forall|i: int| 0 <= i < items.len() ==> #[trigger] wf(items[i]) {
            assert forall|i: int| 0 <= i < items.drop_last().len() implies #[trigger] wf(items.drop_last()[i]) by {
                assert(items.drop_last()[i] == items[i]);
            }
            assert(wf(items[items.len() - 1]));
        }
    }
}

/// Appends the decimal text of `n`.
pub fn push_decimal(n: u64, out: &mut Vec<u8>)
    ensures
        final(out)@ == old(out)@ + decimal(n as nat),
    decreases n,
{
    if n >= 10 {
        push_decimal(n / 10, out);
    }
    out.push((n % 10) as u8 + 48);
    proof {
        assert(final(out)@ =~= old(out)@ + decimal(n as nat));
    }
}

/// Appends `<len>:<bytes>`.
fn push_string(s: &[u8], out: &mut Vec<u8>)
    ensures
        final(out)@ == old(out)@ + encode_string(s@),
{
    push_decimal(s.len() as u64, out);
    out.push(58u8);
    let mut i: usize = 0;
    while i < s.len()
        invariant
            i <= s@.len(),
            out@ == old(out)@ + decimal(s@.len()) + seq![58u8] + s@.take(i as int),
        decreases s@.len() - i,
    {
        out.push(s[i]);
        i = i + 1;
        proof {
            assert(s@.take(i as int) =~= s@.take(i - 1).push(s@[i - 1]));
        }
    }
    proof {
        assert(s@.take(i as int) =~= s@);
        assert(out@ =~= old(out)@ + encode_string(s@));
    }
}

/// Appends the bencode text of `v` to `out`.
pub fn encode_into(v: &Value, out: &mut Vec<u8>)
    ensures
        final(out)@ == old(out)@ + encode_value(v@),
    decreases v,
{
    match v {
        Value::Integer(n) => {
            out.push(105u8);
            if *n < 0 {
                out.push(45u8);
                let m: u64 = if *n == i64::MIN {
                    9223372036854775808u64
                } else {
                    (-*n) as u64
                };
                push_decimal(m, out);
            } else {
                push_decimal(*n as u64, out);
            }
            out.push(101u8);
            proof {
                assert(out@ =~= old(out)@ + encode_value(v@));
            }
        },
        Value::Bytes(b) => {
            push_string(b.as_slice(), out);
        },
        Value::List(items) => {
            let ghost vs = v@->List_0;
            out.push(108u8);
            let mut i: usize = 0;
            while i < items.len()
                invariant
                    i <= items@.len(),
                    *v == Value::List(*items),
                    vs.len() == items@.len(),
                    forall|j: int| 0 <= j < vs.len() ==> vs[j] == #[trigger] items@[j]@,
                    out@ == old(out)@ + seq![108u8] + encode_list(vs.take(i as int)),
                decreases items@.len() - i,
            {
                proof {
                    assert(decreases_to!(*v => v->List_0));
                    assert(decreases_to!(v->List_0 => v->List_0[i as int]));
                }
                encode_into(&items[i], out);
                i = i + 1;
                proof {
                    assert(vs.take(i as int).drop_last() =~= vs.take(i - 1));
                    assert(out@ =~= old(out)@ + seq![108u8] + encode_list(vs.take(i as int)));
                }
            }
            out.push(101u8);
            proof {
                assert(vs.take(i as int) =~= vs);
                assert(out@ =~= old(out)@ + encode_value(v@));
            }
        },
        Value::Dict(entries) => {
            let ghost keys = v@->Dict_0;
            let ghost vals = v@->Dict_1;
            out.push(100u8);
            let mut i: usize = 0;
            while i < entries.len()
                invariant
                    i <= entries@.len(),
                    *v == Value::Dict(*entries),
                    keys.len() == entries@.len(),
                    vals.len() == entries@.len(),
                    forall|j: int| 0 <= j < keys.len() ==> keys[j] == (#[trigger] entries@[j]).0@,
                    forall|j: int| 0 <= j < vals.len() ==> vals[j] == (#[trigger] entries@[j]).1@,
                    out@ == old(out)@ + seq![100u8] + encode_dict(
                        keys.take(i as int),
                        vals.take(i as int),
                    ),
                decreases entries@.len() - i,
            {
                push_string(entries[i].0.as_slice(), out);
                proof {
                    assert(decreases_to!(*v => v->Dict_0));
                    assert(decreases_to!(v->Dict_0 => v->Dict_0[i as int]));
                    assert(decreases_to!(v->Dict_0[i as int] => v->Dict_0[i as int].1));
                }
                encode_into(&entries[i].1, out);
                i = i + 1;
                proof {
                    assert(keys.take(i as int).drop_last() =~= keys.take(i - 1));
                    assert(vals.take(i as int).drop_last() =~= vals.take(i - 1));
                    assert(out@ =~= old(out)@ + seq![100u8] + encode_dict(
                        keys.take(i as int),
                        vals.take(i as int),
                    ));
                }
            }
            out.push(101u8);
            proof {
                assert(keys.take(i as int) =~= keys);
                assert(vals.take(i as int) =~= vals);
                assert(out@ =~= old(out)@ + encode_value(v@));
            }
        },
    }
}

/// The bencode text of `v`.
pub fn encode(v: &Value) -> (r: Vec<u8>)
    ensures
        r@ == encode_value(v@),
{
    let mut out: Vec<u8> = Vec::new();
    encode_into(v, &mut out);
    proof {
        assert(out@ =~= encode_value(v@));
    }
    out
}

/// `t` occurs in `s` starting at `i`.
pub open spec fn occurs_at(t: Seq<u8>, s: Seq<u8>, i: int) -> bool {
    0 <= i && i + t.len() <= s.len() && s.subrange(i, i + t.len()) == t
}

proof fn lemma_occurs_split(a: Seq<u8>, b: Seq<u8>, s: Seq<u8>, i: int)
    requires
        occurs_at(a + b, s, i),
    ensures
        occurs_at(a, s, i),
        occurs_at(b, s, i + a.len()),
{
    let w = s.subrange(i, i + (a + b).len());
    assert(w == a + b);
    assert(s.subrange(i, i + a.len()) =~= w.subrange(0, a.len() as int));
    assert(w.subrange(0, a.len() as int) =~= a);
    assert(s.subrange(i + a.len(), i + a.len() + b.len()) =~= w.subrange(
        a.len() as int,
        (a.len() + b.len()) as int,
    ));
    assert(w.subrange(a.len() as int, (a.len() + b.len()) as int) =~= b);
}

proof fn lemma_occurs_join(a: Seq<u8>, b: Seq<u8>, s: Seq<u8>, i: int)
    requires
        occurs_at(a, s, i),
        occurs_at(b, s, i + a.len()),
    ensures
        occurs_at(a + b, s, i),
{
    assert(s.subrange(i, i + a.len() + b.len()) =~= a + b);
}

pub proof fn lemma_decimal(n: nat)
    ensures
        canonical_digits(decimal(n)),
        digits_value(decimal(n)) == n,
    decreases n,
{
    assert(digits_value(Seq::<u8>::empty()) == 0);
    if n < 10 {
        assert(decimal(n).drop_last() =~= Seq::<u8>::empty());
        assert(decimal(n).last() == (n + 48) as u8);
    } else {
        lemma_decimal(n / 10);
        let d = decimal(n / 10);
        assert(decimal(n).drop_last() =~= d);
        assert(n == (n / 10) * 10 + n % 10);
        if d[0] == 48 {
            assert(d.len() == 1);
            assert(d.drop_last() =~= Seq::<u8>::empty());
            assert(d.last() == 48);
            assert(digits_value(d) == 0);
        }
        assert(decimal(n)[0] == d[0]);
        assert(decimal(n).last() == (n % 10 + 48) as u8);
    }
}

proof fn lemma_digits_positive(ds: Seq<u8>)
    requires
        ds.len() > 0,
        forall|i: int| 0 <= i < ds.len() ==> is_digit(#[trigger] ds[i]),
        ds[0] != 48,
    ensures
        digits_value(ds) >= 1,
    decreases ds.len(),
{
    if ds.len() > 1 {
        let pre = ds.drop_last();
        assert(pre[0] == ds[0]);
        lemma_digits_positive(pre);
    } else {
        assert(ds.drop_last() =~= Seq::<u8>::empty());
    }
}

proof fn lemma_canonical_decimal(ds: Seq<u8>)
    requires
        canonical_digits(ds),
    ensures
        decimal(digits_value(ds)) == ds,
    decreases ds.len(),
{
    let pre = ds.drop_last();
    if ds.len() == 1 {
        assert(pre =~= Seq::<u8>::empty());
        assert(decimal(digits_value(ds)) =~= ds);
    } else {
        assert(pre[0] == ds[0]);
        assert(canonical_digits(pre));
        lemma_canonical_decimal(pre);
        lemma_digits_positive(pre);
        let v = digits_value(ds);
        let d = (ds.last() - 48) as nat;
        assert(v == digits_value(pre) * 10 + d);
        assert(v / 10 == digits_value(pre) && v % 10 == d) by (nonlinear_arith)
            requires
                v == digits_value(pre) * 10 + d,
                d < 10,
        ;
        assert(decimal(v) =~= ds);
    }
}

proof fn lemma_digits_prefix_le(ds: Seq<u8>, j: int)
    requires
        0 <= j <= ds.len(),
    ensures
        digits_value(ds.take(j)) <= digits_value(ds),
    decreases ds.len(),
{
    if j < ds.len() {
        let pre = ds.drop_last();
        assert(pre.take(j) =~= ds.take(j));
        lemma_digits_prefix_le(pre, j);
    } else {
        assert(ds.take(j) =~= ds);
    }
}

/// What can go wrong while decoding bencode.
#[derive(Debug, Clone, Copy, PartialEq, Eq)]
pub enum DecodeError {
    UnexpectedEnd,
    InvalidInteger,
    InvalidLength,
    UnexpectedByte(usize),
    DictKeyOutOfOrder,
}

/// The premise under which `read_natural` must find `m`: its decimal text stands at
/// `start`, is not followed by another digit and `m` is within `limit`.
pub open spec fn natural_at(s: Seq<u8>, start: int, m: nat, limit: nat) -> bool {
    &&& m <= limit
    &&& occurs_at(decimal(m), s, start)
    &&& (start + decimal(m).len() == s.len() || !is_digit(s[start + decimal(m).len()]))
}

/// Reads a canonical run of decimal digits at `start` whose value does not exceed
/// `limit`.
fn read_natural(input: &[u8], start: usize, limit: u64) -> (r: Option<(u64, usize)>)
    requires
        start <= input@.len(),
    ensures
        r matches Some((n, end)) ==> {
            &&& start < end <= input@.len()
            &&& canonical_digits(input@.subrange(start as int, end as int))
            &&& digits_value(input@.subrange(start as int, end as int)) == n
            &&& n <= limit
        },
        forall|m: nat|
            #[trigger] natural_at(input@, start as int, m, limit as nat) ==> r == Some(
                (m as u64, (start + decimal(m).len()) as usize),
            ),
{
    let len = input.len();
    if start >= len || input[start] < 48 || input[start] > 57 {
        proof {
            assert forall|m: nat| #[trigger] natural_at(input@, start as int, m, limit as nat) implies false by {
                lemma_decimal(m);
                assert(input@[start as int] == decimal(m)[0]);
            }
        }
        return None;
    }
    if input[start] == 48 {
        if start + 1 < len && input[start + 1] >= 48 && input[start + 1] <= 57 {
            proof {
                assert forall|m: nat| #[trigger] natural_at(input@, start as int, m, limit as nat) implies false by {
                    lemma_decimal(m);
                    assert(input@[start as int] == decimal(m)[0]);
                    assert(decimal(m).len() == 1);
                }
            }
            return None;
        }
        proof {
            assert(input@.subrange(start as int, start + 1) =~= seq![48u8]);
            assert(seq![48u8].drop_last() =~= Seq::<u8>::empty());
            assert(digits_value(Seq::<u8>::empty()) == 0);
            assert(digits_value(seq![48u8]) == 0);
            assert forall|m: nat| #[trigger] natural_at(input@, start as int, m, limit as nat) implies m == 0 && decimal(m).len() == 1 by {
                lemma_decimal(m);
                assert(input@[start as int] == decimal(m)[0]);
                assert(decimal(m).len() == 1);
                assert(decimal(m) =~= seq![48u8]);
                lemma_decimal(m);
            }
        }
        return Some((0, start + 1));
    }
    let mut p: usize = start;
    let mut acc: u64 = 0;
    while p < len && input[p] >= 48 && input[p] <= 57
        invariant
            start <= p <= len,
            len == input@.len(),
            input@[start as int] != 48,
            is_digit(input@[start as int]),
            forall|i: int| start <= i < p ==> is_digit(#[trigger] input@[i]),
            acc == digits_value(input@.subrange(start as int, p as int)),
            acc <= limit,
            forall|m: nat| #[trigger]
                natural_at(input@, start as int, m, limit as nat) ==> p <= start + decimal(m).len(),
        decreases len - p,
    {
        let d: u64 = (input[p] - 48) as u64;
        proof {
            assert(input@.subrange(start as int, p + 1).drop_last() =~= input@.subrange(
                start as int,
                p as int,
            ));
            assert forall|m: nat| #[trigger] natural_at(input@, start as int, m, limit as nat) implies p + 1 <= start + decimal(m).len() && digits_value(input@.subrange(start as int, p + 1)) <= m by {
                lemma_decimal(m);
                let k = decimal(m).len();
                if p == start + k {
                    assert(!is_digit(input@[p as int]));
                }
                assert(input@.subrange(start as int, p + 1) =~= decimal(m).take(p + 1 - start));
                lemma_digits_prefix_le(decimal(m), p + 1 - start);
            }
        }
        if acc > limit / 10 {
            proof {
                assert(acc * 10 + d > limit) by (nonlinear_arith)
                    requires
                        acc > limit / 10,
                ;
            }
            return None;
        }
        proof {
            assert(acc * 10 <= limit) by (nonlinear_arith)
                requires
                    acc <= limit / 10,
            ;
        }
        let t: u64 = acc * 10;
        if limit - t < d {
            return None;
        }
        acc = t + d;
        p = p + 1;
    }
    proof {
        let ds = input@.subrange(start as int, p as int);
        assert(ds[0] == input@[start as int]);
        assert(canonical_digits(ds));
        assert forall|m: nat| #[trigger] natural_at(input@, start as int, m, limit as nat) implies acc == m && p == start + decimal(m).len() by {
            lemma_decimal(m);
            let k = decimal(m).len();
            if p < start + k {
                assert(input@[p as int] == decimal(m)[p - start]);
            }
            assert(ds =~= decimal(m));
        }
    }
    Some((acc, p))
}

proof fn lemma_occurs_sub(t: Seq<u8>, s: Seq<u8>, i: int, a: int, b: int)
    requires
        occurs_at(t, s, i),
        0 <= a <= b <= t.len(),
    ensures
        occurs_at(t.subrange(a, b), s, i + a),
{
    assert(s.subrange(i + a, i + b) =~= s.subrange(i, i + t.len()).subrange(a, b));
}

proof fn lemma_first_byte(w: Bencode)
    ensures
        encode_value(w).len() > 0,
        w is Int <==> encode_value(w)[0] == 105,
        w is List <==> encode_value(w)[0] == 108,
        w is Dict <==> encode_value(w)[0] == 100,
        w is Bytes <==> is_digit(encode_value(w)[0]),
        encode_value(w)[0] != 101,
{
    if let Bencode::Bytes(t) = w {
        lemma_decimal(t.len());
        assert(encode_value(w)[0] == decimal(t.len())[0]);
    }
}

proof fn lemma_list_prefix(items: Seq<Bencode>, j: int)
    requires
        0 <= j <= items.len(),
    ensures
        encode_list(items.take(j)).len() <= encode_list(items).len(),
        encode_list(items).subrange(0, encode_list(items.take(j)).len() as int) == encode_list(
            items.take(j),
        ),
    decreases items.len(),
{
    if j == items.len() {
        assert(items.take(j) =~= items);
        assert(encode_list(items).subrange(0, encode_list(items).len() as int) =~= encode_list(items));
    } else {
        let pre = items.drop_last();
        assert(pre.take(j) =~= items.take(j));
        lemma_list_prefix(pre, j);
        assert(encode_list(items).subrange(0, encode_list(items.take(j)).len() as int) =~= encode_list(pre).subrange(0, encode_list(items.take(j)).len() as int));
    }
}

proof fn lemma_dict_prefix(keys: Seq<Seq<u8>>, vals: Seq<Bencode>, j: int)
    requires
        0 <= j <= vals.len(),
        keys.len() == vals.len(),
    ensures
        encode_dict(keys.take(j), vals.take(j)).len() <= encode_dict(keys, vals).len(),
        encode_dict(keys, vals).subrange(0, encode_dict(keys.take(j), vals.take(j)).len() as int)
            == encode_dict(keys.take(j), vals.take(j)),
    decreases vals.len(),
{
    if j == vals.len() {
        assert(keys.take(j) =~= keys);
        assert(vals.take(j) =~= vals);
        assert(encode_dict(keys, vals).subrange(0, encode_dict(keys, vals).len() as int) =~= encode_dict(keys, vals));
    } else {
        assert(keys.drop_last().take(j) =~= keys.take(j));
        assert(vals.drop_last().take(j) =~= vals.take(j));
        lemma_dict_prefix(keys.drop_last(), vals.drop_last(), j);
        let n = encode_dict(keys.take(j), vals.take(j)).len() as int;
        assert(encode_dict(keys, vals).subrange(0, n) =~= encode_dict(keys.drop_last(), vals.drop_last()).subrange(0, n));
    }
}

/// Reads `<len>:<bytes>` at `start`.
fn read_string(input: &[u8], start: usize) -> (r: Result<(Vec<u8>, usize), DecodeError>)
    requires
        start <= input@.len(),
    ensures
        r matches Ok((t, end)) ==> occurs_at(encode_string(t@), input@, start as int) && end
            == start + encode_string(t@).len(),
        forall|t: Seq<u8>| #[trigger]
            occurs_at(encode_string(t), input@, start as int) ==> (r matches Ok((u, end)) && u@ == t
                && end == start + encode_string(t).len()),
{
    let len = input.len();
    let rn = read_natural(input, start, 0xffff_ffff_ffff_ffffu64);
    proof {
        assert forall|t: Seq<u8>| #[trigger] occurs_at(encode_string(t), input@, start as int) implies rn == Some(
            (t.len() as u64, (start + decimal(t.len()).len()) as usize),
        ) && input@[start + decimal(t.len()).len()] == 58 by {
            lemma_occurs_split(decimal(t.len()) + seq![58u8], t, input@, start as int);
            lemma_occurs_split(decimal(t.len()), seq![58u8], input@, start as int);
            let k = decimal(t.len()).len();
            assert(input@.subrange(start + k, start + k + 1)[0] == input@[start + k]);
            assert(input@[start + decimal(t.len()).len()] == 58);
            assert(natural_at(input@, start as int, t.len(), 0xffff_ffff_ffff_ffffu64 as nat));
        }
    }
    match rn {
        None => Err(DecodeError::InvalidLength),
        Some((n, q)) => {
            if q >= len {
                return Err(DecodeError::UnexpectedEnd);
            }
            if input[q] != 58 {
                return Err(DecodeError::UnexpectedByte(q));
            }
            if n > (len - (q + 1)) as u64 {
                return Err(DecodeError::UnexpectedEnd);
            }
            let n = n as usize;
            let mut out: Vec<u8> = Vec::new();
            let mut i: usize = q + 1;
            while i < q + 1 + n
                invariant
                    q + 1 <= i <= q + 1 + n <= len,
                    len == input@.len(),
                    out@ == input@.subrange(q + 1, i as int),
                decreases q + 1 + n - i,
            {
                out.push(input[i]);
                i = i + 1;
                proof {
                    assert(out@ =~= input@.subrange(q + 1, i as int));
                }
            }
            proof {
                let ds = input@.subrange(start as int, q as int);
                lemma_canonical_decimal(ds);
                assert(input@.subrange(start as int, q + 1 + n) =~= ds + seq![58u8] + out@);
                assert(out@.len() == n);
                assert forall|t: Seq<u8>| #[trigger] occurs_at(encode_string(t), input@, start as int) implies out@ == t by {
                    lemma_occurs_split(decimal(t.len()) + seq![58u8], t, input@, start as int);
                    assert(out@ =~= t);
                }
            }
            Ok((out, q + 1 + n))
        },
    }
}

/// Decodes the bencode value that starts at `index` and returns it with the position
/// just past it. Only the canonical form is accepted: integers without leading zeros
/// or `-0` that fit in 64 bits, lengths without leading zeros, and dictionaries with
/// strictly ascending keys. When the canonical text of some value starts at `index`,
/// that value is returned.
pub fn decode_bencoded_value(input: &[u8], index: usize) -> (r: Result<(Value, usize), DecodeError>)
    ensures
        r matches Ok((v, end)) ==> {
            &&& wf(v@)
            &&& occurs_at(encode_value(v@), input@, index as int)
            &&& end == index + encode_value(v@).len()
        },
        forall|w: Bencode|
            wf(w) && #[trigger] occurs_at(encode_value(w), input@, index as int) ==> (r matches Ok(
                (v, end),
            ) && v@ == w && end == index + encode_value(w).len()),
        index >= input@.len() ==> r == Err::<(Value, usize), DecodeError>(DecodeError::UnexpectedEnd),
    decreases input@.len() - index, 1nat,
{
    let len = input.len();
    if index >= len {
        proof {
            assert forall|w: Bencode| wf(w) && #[trigger] occurs_at(encode_value(w), input@, index as int) implies false by {
                lemma_first_byte(w);
            }
        }
        return Err(DecodeError::UnexpectedEnd);
    }
    let b = input[index];
    proof {
        assert forall|w: Bencode| wf(w) && #[trigger] occurs_at(encode_value(w), input@, index as int) implies encode_value(w)[0] == b by {
            lemma_first_byte(w);
            assert(input@.subrange(index as int, index + encode_value(w).len())[0] == input@[index as int]);
        }
    }
    if b == 105 {
        decode_integer(input, index)
    } else if b >= 48 && b <= 57 {
        match read_string(input, index) {
            Ok((t, end)) => {
                proof {
                    assert forall|w: Bencode| wf(w) && #[trigger] occurs_at(encode_value(w), input@, index as int) implies Value::Bytes(t)@ == w by {
                        lemma_first_byte(w);
                    }
                }
                Ok((Value::Bytes(t), end))
            },
            Err(e) => {
                proof {
                    assert forall|w: Bencode| wf(w) && #[trigger] occurs_at(encode_value(w), input@, index as int) implies false by {
                        lemma_first_byte(w);
                    }
                }
                Err(e)
            },
        }
    } else if b == 108 {
        decode_list(input, index)
    } else if b == 100 {
        decode_dict(input, index)
    } else {
        proof {
            assert forall|w: Bencode| wf(w) && #[trigger] occurs_at(encode_value(w), input@, index as int) implies false by {
                lemma_first_byte(w);
            }
        }
        Err(DecodeError::UnexpectedByte(index))
    }
}

fn decode_integer(input: &[u8], index: usize) -> (r: Result<(Value, usize), DecodeError>)
    requires
        index < input@.len(),
        input@[index as int] == 105,
    ensures
        r matches Ok((v, end)) ==> {
            &&& wf(v@)
            &&& occurs_at(encode_value(v@), input@, index as int)
            &&& end == index + encode_value(v@).len()
        },
        forall|w: Bencode|
            wf(w) && #[trigger] occurs_at(encode_value(w), input@, index as int) ==> (r matches Ok(
                (v, end),
            ) && v@ == w && end == index + encode_value(w).len()),
{
    let len = input.len();
    let mut p = index + 1;
    let neg = p < len && input[p] == 45;
    if neg {
        p = p + 1;
    }
    let limit: u64 = if neg {
        9223372036854775808u64
    } else {
        9223372036854775807u64
    };
    let rn = read_natural(input, p, limit);
    proof {
        assert forall|w: Bencode| wf(w) && #[trigger] occurs_at(encode_value(w), input@, index as int) implies ({
            let n = w->Int_0;
            let m = if n < 0 { -n } else { n };
            &&& w is Int
            &&& neg == (n < 0)
            &&& rn == Some((m as u64, (p + decimal(m as nat).len()) as usize))
            &&& input@[p + decimal(m as nat).len()] == 101
        }) by {
            lemma_first_byte(w);
            assert(w is Int);
            let n = w->Int_0;
            let m = if n < 0 { -n } else { n };
            let d = decimal(m as nat);
            lemma_decimal(m as nat);
            lemma_occurs_split(seq![105u8] + int_text(n), seq![101u8], input@, index as int);
            lemma_occurs_split(seq![105u8], int_text(n), input@, index as int);
            if n < 0 {
                lemma_occurs_split(seq![45u8], d, input@, index + 1);
                assert(input@.subrange(index + 1, index + 2)[0] == input@[index + 1]);
            } else {
                assert(input@.subrange(index + 1, index + 1 + d.len())[0] == input@[index + 1]);
            }
            let k = p + d.len();
            assert(input@.subrange(k, k + 1)[0] == input@[k]);
            assert(natural_at(input@, p as int, m as nat, limit as nat));
        }
    }
    match rn {
        None => Err(DecodeError::InvalidInteger),
        Some((m, q)) => {
            if q >= len {
                return Err(DecodeError::UnexpectedEnd);
            }
            if input[q] != 101 || (neg && m == 0) {
                return Err(DecodeError::InvalidInteger);
            }
            let n: i64 = if neg {
                if m == 9223372036854775808u64 {
                    i64::MIN
                } else {
                    -(m as i64)
                }
            } else {
                m as i64
            };
            proof {
                let ds = input@.subrange(p as int, q as int);
                lemma_canonical_decimal(ds);
                if neg {
                    assert(input@.subrange(index as int, q + 1) =~= seq![105u8] + (seq![45u8] + ds) + seq![101u8]);
                } else {
                    assert(input@.subrange(index as int, q + 1) =~= seq![105u8] + ds + seq![101u8]);
                }
            }
            Ok((Value::Integer(n), q + 1))
        },
    }
}

/// Whether `a` comes strictly before `b` in byte-wise lexicographic order.
pub fn bytes_less(a: &[u8], b: &[u8]) -> (r: bool)
    ensures
        r == bytes_lt(a@, b@),
{
    let mut i: usize = 0;
    proof {
        assert(a@.skip(0) =~= a@);
        assert(b@.skip(0) =~= b@);
    }
    while i < a.len() && i < b.len()
        invariant
            i <= a@.len(),
            i <= b@.len(),
            bytes_lt(a@, b@) == bytes_lt(a@.skip(i as int), b@.skip(i as int)),
        decreases a@.len() - i,
    {
        if a[i] != b[i] {
            return a[i] < b[i];
        }
        proof {
            assert(a@.skip(i as int).drop_first() =~= a@.skip(i + 1));
            assert(b@.skip(i as int).drop_first() =~= b@.skip(i + 1));
        }
        i = i + 1;
    }
    i < b.len()
}

proof fn lemma_list_step(w: Bencode, vs: Seq<Bencode>, input: Seq<u8>, index: int)
    requires
        w is List,
        wf(w),
        occurs_at(encode_value(w), input, index),
        vs.len() <= w->List_0.len(),
        vs == w->List_0.take(vs.len() as int),
    ensures
        ({
            let ws = w->List_0;
            let k = vs.len() as int;
            let p = index + 1 + encode_list(vs).len();
            &&& p < input.len()
            &&& k < ws.len() ==> {
                &&& occurs_at(encode_value(ws[k]), input, p)
                &&& wf(ws[k])
                &&& input[p] != 101
            }
            &&& k == ws.len() ==> input[p] == 101 && vs == ws
        }),
{
    let ws = w->List_0;
    let k = vs.len() as int;
    let e = encode_value(w);
    let el = encode_list(ws);
    let elk = encode_list(vs);
    let p = index + 1 + elk.len();
    let a: int = 1 + elk.len() as int;
    let c: int = 1 + el.len() as int;
    lemma_list_prefix(ws, k);
    assert(e =~= seq![108u8] + el + seq![101u8]);
    if k < ws.len() {
        lemma_list_prefix(ws, k + 1);
        assert(ws.take(k + 1).drop_last() =~= ws.take(k));
        let elk1 = encode_list(ws.take(k + 1));
        let b: int = 1 + elk1.len() as int;
        assert(elk1 == elk + encode_value(ws[k]));
        assert(e.subrange(a, b) =~= encode_value(ws[k])) by {
            assert(e.subrange(a, b) =~= el.subrange(0, elk1.len() as int).subrange(elk.len() as int, elk1.len() as int));
        }
        lemma_occurs_sub(e, input, index, a, b);
        lemma_first_byte(ws[k]);
        assert(occurs_at(encode_value(ws[k]), input, p));
        assert(input.subrange(p, p + encode_value(ws[k]).len())[0] == input[p]);
        assert(p < input.len());
        lemma_wf_list(ws);
    } else {
        assert(ws.take(k) =~= ws);
        assert(e[c] == 101);
        assert(input.subrange(index, index + e.len())[c] == input[p]);
    }
}

fn decode_list(input: &[u8], index: usize) -> (r: Result<(Value, usize), DecodeError>)
    requires
        index < input@.len(),
        input@[index as int] == 108,
    ensures
        r matches Ok((v, end)) ==> {
            &&& wf(v@)
            &&& occurs_at(encode_value(v@), input@, index as int)
            &&& end == index + encode_value(v@).len()
        },
        forall|w: Bencode|
            wf(w) && #[trigger] occurs_at(encode_value(w), input@, index as int) ==> (r matches Ok(
                (v, end),
            ) && v@ == w && end == index + encode_value(w).len()),
    decreases input@.len() - index, 0nat,
{
    let len = input.len();
    let mut items: Vec<Value> = Vec::new();
    let ghost mut vs: Seq<Bencode> = Seq::empty();
    let mut p: usize = index + 1;
    proof {
        assert(encode_list(vs) =~= Seq::<u8>::empty());
        assert(input@.subrange(index as int, index + 1) =~= seq![108u8] + encode_list(vs));
        assert forall|w: Bencode| wf(w) && #[trigger] occurs_at(encode_value(w), input@, index as int) implies w is List && vs == w->List_0.take(0) by {
            lemma_first_byte(w);
            assert(input@.subrange(index as int, index + encode_value(w).len())[0] == input@[index as int]);
            assert(w->List_0.take(0) =~= vs);
        }
    }
    loop
        invariant
            index < p <= len,
            len == input@.len(),
            vs.len() == items@.len(),
            forall|j: int| 0 <= j < vs.len() ==> vs[j] == (#[trigger] items@[j])@,
            forall|j: int| 0 <= j < vs.len() ==> wf(#[trigger] vs[j]),
            occurs_at(seq![108u8] + encode_list(vs), input@, index as int),
            p == index + 1 + encode_list(vs).len(),
            forall|w: Bencode|
                wf(w) && #[trigger] occurs_at(encode_value(w), input@, index as int) ==> (w is List
                    && vs.len() <= w->List_0.len() && vs == w->List_0.take(vs.len() as int)),
        ensures
            p < len,
            input@[p as int] == 101,
        decreases len - p,
    {
        if p >= len {
            proof {
                assert forall|w: Bencode| wf(w) && #[trigger] occurs_at(encode_value(w), input@, index as int) implies false by {
                    lemma_list_step(w, vs, input@, index as int);
                }
            }
            return Err(DecodeError::UnexpectedEnd);
        }
        if input[p] == 101 {
            break;
        }
        match decode_bencoded_value(input, p) {
            Ok((item, q)) => {
                proof {
                    assert(vs.push(item@).drop_last() =~= vs);
                    lemma_occurs_join(seq![108u8] + encode_list(vs), encode_value(item@), input@, index as int);
                    assert(seq![108u8] + encode_list(vs.push(item@)) =~= seq![108u8] + encode_list(vs) + encode_value(item@));
                    assert forall|w: Bencode| wf(w) && #[trigger] occurs_at(encode_value(w), input@, index as int) implies
                        vs.push(item@).len() <= w->List_0.len() && vs.push(item@) == w->List_0.take(vs.len() + 1int) by {
                        lemma_list_step(w, vs, input@, index as int);
                        assert(w->List_0.take(vs.len() + 1int) =~= vs.push(item@));
                    }
                }
                items.push(item);
                proof {
                    vs = vs.push(item@);
                }
                p = q;
            },
            Err(e) => {
                proof {
                    assert forall|w: Bencode| wf(w) && #[trigger] occurs_at(encode_value(w), input@, index as int) implies false by {
                        lemma_list_step(w, vs, input@, index as int);
                    }
                }
                return Err(e);
            },
        }
    }
    let v = Value::List(items);
    proof {
        assert(v@->List_0 =~= vs);
        assert(p < len);
        assert(input@.subrange(p as int, p + 1) =~= seq![101u8]);
        lemma_occurs_join(seq![108u8] + encode_list(vs), seq![101u8], input@, index as int);
        assert forall|w: Bencode| wf(w) && #[trigger] occurs_at(encode_value(w), input@, index as int) implies v@ == w by {
            lemma_list_step(w, vs, input@, index as int);
        }
        lemma_wf_list(vs);
    }
    Ok((v, p + 1))
}

proof fn lemma_dict_step(
    w: Bencode,
    ks: Seq<Seq<u8>>,
    vs: Seq<Bencode>,
    input: Seq<u8>,
    index: int,
)
    requires
        w is Dict,
        wf(w),
        occurs_at(encode_value(w), input, index),
        ks.len() == vs.len(),
        vs.len() <= w->Dict_1.len(),
        ks == w->Dict_0.take(ks.len() as int),
        vs == w->Dict_1.take(vs.len() as int),
    ensures
        ({
            let kk = w->Dict_0;
            let ww = w->Dict_1;
            let k = vs.len() as int;
            let p = index + 1 + encode_dict(ks, vs).len();
            &&& p < input.len()
            &&& k < ww.len() ==> {
                &&& occurs_at(encode_string(kk[k]), input, p)
                &&& occurs_at(encode_value(ww[k]), input, p + encode_string(kk[k]).len())
                &&& wf(ww[k])
                &&& is_digit(input[p])
                &&& k > 0 ==> bytes_lt(kk[k - 1], kk[k])
            }
            &&& k == ww.len() ==> input[p] == 101 && ks == kk && vs == ww
        }),
{
    let kk = w->Dict_0;
    let ww = w->Dict_1;
    let k = vs.len() as int;
    let e = encode_value(w);
    let ed = encode_dict(kk, ww);
    let edk = encode_dict(ks, vs);
    let p = index + 1 + edk.len();
    let a: int = 1 + edk.len() as int;
    let c: int = 1 + ed.len() as int;
    lemma_dict_prefix(kk, ww, k);
    assert(e =~= seq![100u8] + ed + seq![101u8]);
    if k < ww.len() {
        lemma_dict_prefix(kk, ww, k + 1);
        assert(kk.take(k + 1).drop_last() =~= kk.take(k));
        assert(ww.take(k + 1).drop_last() =~= ww.take(k));
        let edk1 = encode_dict(kk.take(k + 1), ww.take(k + 1));
        let es = encode_string(kk[k]);
        let m: int = a + es.len() as int;
        let b: int = 1 + edk1.len() as int;
        assert(edk1 == edk + es + encode_value(ww[k]));
        assert(e.subrange(a, m) =~= es) by {
            assert(e.subrange(a, m) =~= ed.subrange(0, edk1.len() as int).subrange(edk.len() as int, (edk.len() + es.len()) as int));
        }
        assert(e.subrange(m, b) =~= encode_value(ww[k])) by {
            assert(e.subrange(m, b) =~= ed.subrange(0, edk1.len() as int).subrange((edk.len() + es.len()) as int, edk1.len() as int));
        }
        lemma_occurs_sub(e, input, index, a, m);
        lemma_occurs_sub(e, input, index, m, b);
        lemma_decimal(kk[k].len());
        assert(es[0] == decimal(kk[k].len())[0]);
        assert(input.subrange(p, p + es.len())[0] == input[p]);
        lemma_wf_list(ww);
        if k > 0 {
            assert(bytes_lt(kk[k - 1], kk[k - 1 + 1]));
        }
    } else {
        assert(kk.take(k) =~= kk);
        assert(ww.take(k) =~= ww);
        assert(e[c] == 101);
        assert(input.subrange(index, index + e.len())[c] == input[p]);
    }
}

fn decode_dict(input: &[u8], index: usize) -> (r: Result<(Value, usize), DecodeError>)
    requires
        index < input@.len(),
        input@[index as int] == 100,
    ensures
        r matches Ok((v, end)) ==> {
            &&& wf(v@)
            &&& occurs_at(encode_value(v@), input@, index as int)
            &&& end == index + encode_value(v@).len()
        },
        forall|w: Bencode|
            wf(w) && #[trigger] occurs_at(encode_value(w), input@, index as int) ==> (r matches Ok(
                (v, end),
            ) && v@ == w && end == index + encode_value(w).len()),
    decreases input@.len() - index, 0nat,
{
    let len = input.len();
    let mut entries: Vec<(Vec<u8>, Value)> = Vec::new();
    let ghost mut ks: Seq<Seq<u8>> = Seq::empty();
    let ghost mut vs: Seq<Bencode> = Seq::empty();
    let mut p: usize = index + 1;
    proof {
        assert(encode_dict(ks, vs) =~= Seq::<u8>::empty());
        assert(input@.subrange(index as int, index + 1) =~= seq![100u8] + encode_dict(ks, vs));
        assert forall|w: Bencode| wf(w) && #[trigger] occurs_at(encode_value(w), input@, index as int) implies w is Dict && ks == w->Dict_0.take(0) && vs == w->Dict_1.take(0) by {
            lemma_first_byte(w);
            assert(input@.subrange(index as int, index + encode_value(w).len())[0] == input@[index as int]);
            assert(w->Dict_0.take(0) =~= ks);
            assert(w->Dict_1.take(0) =~= vs);
        }
    }
    loop
        invariant
            index < p <= len,
            len == input@.len(),
            ks.len() == entries@.len(),
            vs.len() == entries@.len(),
            forall|j: int| 0 <= j < ks.len() ==> ks[j] == (#[trigger] entries@[j]).0@,
            forall|j: int| 0 <= j < vs.len() ==> vs[j] == (#[trigger] entries@[j]).1@,
            keys_ascending(ks),
            forall|j: int| 0 <= j < vs.len() ==> wf(#[trigger] vs[j]),
            occurs_at(seq![100u8] + encode_dict(ks, vs), input@, index as int),
            p == index + 1 + encode_dict(ks, vs).len(),
            forall|w: Bencode|
                wf(w) && #[trigger] occurs_at(encode_value(w), input@, index as int) ==> (w is Dict
                    && vs.len() <= w->Dict_1.len() && ks == w->Dict_0.take(ks.len() as int) && vs
                    == w->Dict_1.take(vs.len() as int)),
        ensures
            p < len,
            input@[p as int] == 101,
        decreases len - p,
    {
        if p >= len {
            proof {
                assert forall|w: Bencode| wf(w) && #[trigger] occurs_at(encode_value(w), input@, index as int) implies false by {
                    lemma_dict_step(w, ks, vs, input@, index as int);
                }
            }
            return Err(DecodeError::UnexpectedEnd);
        }
        if input[p] == 101 {
            break;
        }
        if input[p] < 48 || input[p] > 57 {
            proof {
                assert forall|w: Bencode| wf(w) && #[trigger] occurs_at(encode_value(w), input@, index as int) implies false by {
                    lemma_dict_step(w, ks, vs, input@, index as int);
                }
            }
            return Err(DecodeError::UnexpectedByte(p));
        }
        let rk = read_string(input, p);
        proof {
            assert forall|w: Bencode| wf(w) && #[trigger] occurs_at(encode_value(w), input@, index as int) implies
                (rk matches Ok((key, q)) && key@ == w->Dict_0[ks.len() as int] && q == p + encode_string(key@).len()) by {
                lemma_dict_step(w, ks, vs, input@, index as int);
            }
        }
        match rk {
            Err(e) => {
                return Err(e);
            },
            Ok((key, q)) => {
                let n = entries.len();
                if n > 0 && !bytes_less(entries[n - 1].0.as_slice(), key.as_slice()) {
                    proof {
                        assert forall|w: Bencode| wf(w) && #[trigger] occurs_at(encode_value(w), input@, index as int) implies false by {
                            lemma_dict_step(w, ks, vs, input@, index as int);
                            assert(ks[n - 1] == w->Dict_0[n - 1]);
                        }
                    }
                    return Err(DecodeError::DictKeyOutOfOrder);
                }
                match decode_bencoded_value(input, q) {
                    Err(e) => {
                        proof {
                            assert forall|w: Bencode| wf(w) && #[trigger] occurs_at(encode_value(w), input@, index as int) implies false by {
                                lemma_dict_step(w, ks, vs, input@, index as int);
                            }
                        }
                        return Err(e);
                    },
                    Ok((val, r)) => {
                        proof {
                            let ks2 = ks.push(key@);
                            let vs2 = vs.push(val@);
                            assert(ks2.drop_last() =~= ks);
                            assert(vs2.drop_last() =~= vs);
                            lemma_occurs_join(seq![100u8] + encode_dict(ks, vs), encode_string(key@), input@, index as int);
                            lemma_occurs_join(seq![100u8] + encode_dict(ks, vs) + encode_string(key@), encode_value(val@), input@, index as int);
                            assert(seq![100u8] + encode_dict(ks2, vs2) =~= seq![100u8] + encode_dict(ks, vs) + encode_string(key@) + encode_value(val@));
                            assert forall|w: Bencode| wf(w) && #[trigger] occurs_at(encode_value(w), input@, index as int) implies
                                vs2.len() <= w->Dict_1.len() && ks2 == w->Dict_0.take(ks.len() + 1int) && vs2 == w->Dict_1.take(vs.len() + 1int) by {
                                lemma_dict_step(w, ks, vs, input@, index as int);
                                assert(w->Dict_0.take(ks.len() + 1int) =~= ks2);
                                assert(w->Dict_1.take(vs.len() + 1int) =~= vs2);
                            }
                            assert forall|i: int| 0 <= i < ks2.len() - 1 implies bytes_lt(#[trigger] ks2[i], ks2[i + 1]) by {
                                if i < ks.len() - 1 {
                                    assert(bytes_lt(ks[i], ks[i + 1]));
                                }
                            }
                        }
                        entries.push((key, val));
                        proof {
                            ks = ks.push(entries@[n as int].0@);
                            vs = vs.push(entries@[n as int].1@);
                        }
                        p = r;
                    },
                }
            },
        }
    }
    let v = Value::Dict(entries);
    proof {
        assert(v@->Dict_0 =~= ks);
        assert(v@->Dict_1 =~= vs);
        assert(input@.subrange(p as int, p + 1) =~= seq![101u8]);
        lemma_occurs_join(seq![100u8] + encode_dict(ks, vs), seq![101u8], input@, index as int);
        assert forall|w: Bencode| wf(w) && #[trigger] occurs_at(encode_value(w), input@, index as int) implies v@ == w by {
            lemma_dict_step(w, ks, vs, input@, index as int);
        }
        lemma_wf_list(vs);
    }
    Ok((v, p + 1))
}

/// Decodes a whole byte string as one bencode value. When `input` is the canonical
/// text of a value, that value is returned; anything else is an error.
pub fn decode(input: &[u8]) -> (r: Result<Value, DecodeError>)
    ensures
        r matches Ok(v) ==> wf(v@) && encode_value(v@) == input@,
        forall|w: Bencode| wf(w) && encode_value(w) == input@ ==> (r matches Ok(v) && v@ == w),
{
    let r0 = decode_bencoded_value(input, 0);
    proof {
        assert forall|w: Bencode| wf(w) && encode_value(w) == input@ implies (r0 matches Ok((v, end)) && v@ == w && end == input@.len()) by {
            assert(input@.subrange(0, input@.len() as int) =~= input@);
            assert(occurs_at(encode_value(w), input@, 0usize as int));
        }
    }
    match r0 {
        Ok((v, end)) => {
            if end != input.len() {
                return Err(DecodeError::UnexpectedByte(end));
            }
            proof {
                assert(input@.subrange(0, end as int) =~= input@);
            }
            Ok(v)
        },
        Err(e) => Err(e),
    }
}

/// The value that a dictionary holds under `k` (its last entry with that key).
pub open spec fn dict_get(keys: Seq<Seq<u8>>, vals: Seq<Bencode>, k: Seq<u8>) -> Option<Bencode>
    decreases keys.len(),
{
    if keys.len() == 0 || vals.len() == 0 {
        None
    } else if keys.last() == k {
        Some(vals.last())
    } else {
        dict_get(keys.drop_last(), vals.drop_last(), k)
    }
}

/// The value under `k` when `v` is a dictionary.
pub open spec fn lookup(v: Bencode, k: Seq<u8>) -> Option<Bencode> {
    match v {
        Bencode::Dict(keys, vals) => dict_get(keys, vals, k),
        _ => None,
    }
}

/// Whether two byte strings are equal.
pub fn bytes_equal(a: &[u8], b: &[u8]) -> (r: bool)
    ensures
        r == (a@ == b@),
{
    if a.len() != b.len() {
        return false;
    }
    let mut i: usize = 0;
    while i < a.len()
        invariant
            i <= a@.len(),
            a@.len() == b@.len(),
            a@.take(i as int) == b@.take(i as int),
        decreases a@.len() - i,
    {
        if a[i] != b[i] {
            return false;
        }
        i = i + 1;
        proof {
            assert(a@.take(i as int) =~= a@.take(i - 1).push(a@[i - 1]));
            assert(b@.take(i as int) =~= b@.take(i - 1).push(b@[i - 1]));
        }
    }
    proof {
        assert(a@.take(i as int) =~= a@);
        assert(b@.take(i as int) =~= b@);
    }
    true
}

/// The value under `key` when `v` is a dictionary.
pub fn dict_lookup<'a>(v: &'a Value, key: &[u8]) -> (r: Option<&'a Value>)
    ensures
        r matches Some(x) ==> lookup(v@, key@) == Some(x@),
        r is None ==> lookup(v@, key@) is None,
{
    match v {
        Value::Dict(entries) => {
            let ghost keys = v@->Dict_0;
            let ghost vals = v@->Dict_1;
            let mut i: usize = entries.len();
            proof {
                assert(keys.take(i as int) =~= keys);
                assert(vals.take(i as int) =~= vals);
            }
            while i > 0
                invariant
                    i <= entries@.len(),
                    keys.len() == entries@.len(),
                    vals.len() == entries@.len(),
                    forall|j: int| 0 <= j < keys.len() ==> keys[j] == (#[trigger] entries@[j]).0@,
                    forall|j: int| 0 <= j < vals.len() ==> vals[j] == (#[trigger] entries@[j]).1@,
                    lookup(v@, key@) == dict_get(keys.take(i as int), vals.take(i as int), key@),
                    v@ == Bencode::Dict(keys, vals),
                decreases i,
            {
                proof {
                    assert(keys.take(i as int).drop_last() =~= keys.take(i - 1));
                    assert(vals.take(i as int).drop_last() =~= vals.take(i - 1));
                }
                if bytes_equal(entries[i - 1].0.as_slice(), key) {
                    return Some(&entries[i - 1].1);
                }
                i = i - 1;
            }
            None
        },
        _ => None,
    }
}

proof fn lemma_decimal_unique(m1: nat, m2: nat, s: Seq<u8>, j: int)
    requires
        occurs_at(decimal(m1), s, j),
        occurs_at(decimal(m2), s, j),
        j + decimal(m1).len() < s.len() && !is_digit(s[j + decimal(m1).len()]),
        j + decimal(m2).len() < s.len() && !is_digit(s[j + decimal(m2).len()]),
    ensures
        m1 == m2,
{
    lemma_decimal(m1);
    lemma_decimal(m2);
    let k1 = decimal(m1).len() as int;
    let k2 = decimal(m2).len() as int;
    if k1 < k2 {
        assert(s.subrange(j, j + k2)[k1] == s[j + k1]);
        assert(is_digit(decimal(m2)[k1]));
    } else if k2 < k1 {
        assert(s.subrange(j, j + k1)[k2] == s[j + k2]);
        assert(is_digit(decimal(m1)[k2]));
    } else {
        assert(decimal(m1) == decimal(m2));
    }
}

proof fn lemma_string_unique(t1: Seq<u8>, t2: Seq<u8>, s: Seq<u8>, j: int)
    requires
        occurs_at(encode_string(t1), s, j),
        occurs_at(encode_string(t2), s, j),
    ensures
        t1 == t2,
{
    let d1 = decimal(t1.len());
    let d2 = decimal(t2.len());
    lemma_occurs_split(d1 + seq![58u8], t1, s, j);
    lemma_occurs_split(d1, seq![58u8], s, j);
    lemma_occurs_split(d2 + seq![58u8], t2, s, j);
    lemma_occurs_split(d2, seq![58u8], s, j);
    assert(s.subrange(j + d1.len(), j + d1.len() + 1)[0] == s[j + d1.len()]);
    assert(s.subrange(j + d2.len(), j + d2.len() + 1)[0] == s[j + d2.len()]);
    lemma_decimal_unique(t1.len(), t2.len(), s, j);
    assert(t1 =~= t2);
}

/// Canonical bencode text is unambiguous: when the texts of two canonical values both
/// start at the same position of a byte string, the values are the same. Together with
/// the contract of `decode`, decoding the encoding of a canonical value gives that
/// value back.
pub proof fn lemma_encoding_unique(w1: Bencode, w2: Bencode, s: Seq<u8>, i: int)
    requires
        wf(w1),
        wf(w2),
        occurs_at(encode_value(w1), s, i),
        occurs_at(encode_value(w2), s, i),
    ensures
        w1 == w2,
    decreases w1, 1int, 0int,
{
    lemma_first_byte(w1);
    lemma_first_byte(w2);
    assert(s.subrange(i, i + encode_value(w1).len())[0] == s[i]);
    assert(s.subrange(i, i + encode_value(w2).len())[0] == s[i]);
    match w1 {
        Bencode::Int(n1) => {
            let n2 = w2->Int_0;
            lemma_int_unique(n1, n2, s, i);
        },
        Bencode::Bytes(t1) => {
            lemma_string_unique(t1, w2->Bytes_0, s, i);
        },
        Bencode::List(a) => {
            let b = w2->List_0;
            let n = if a.len() < b.len() { a.len() } else { b.len() };
            lemma_items_unique(w1, w2, s, i, n as int);
            lemma_list_step(w1, a.take(n as int), s, i);
            lemma_list_step(w2, a.take(n as int), s, i);
            assert(a.take(n as int) =~= a);
            assert(b.take(n as int) =~= b);
        },
        Bencode::Dict(ka, va) => {
            let kb = w2->Dict_0;
            let vb = w2->Dict_1;
            let n = if va.len() < vb.len() { va.len() } else { vb.len() };
            lemma_entries_unique(w1, w2, s, i, n as int);
            lemma_dict_step(w1, ka.take(n as int), va.take(n as int), s, i);
            lemma_dict_step(w2, ka.take(n as int), va.take(n as int), s, i);
            assert(ka.take(n as int) =~= ka);
            assert(va.take(n as int) =~= va);
            assert(kb.take(n as int) =~= kb);
            assert(vb.take(n as int) =~= vb);
        },
    }
}

proof fn lemma_int_unique(n1: int, n2: int, s: Seq<u8>, i: int)
    requires
        occurs_at(encode_value(Bencode::Int(n1)), s, i),
        occurs_at(encode_value(Bencode::Int(n2)), s, i),
    ensures
        n1 == n2,
{
    let m1 = (if n1 < 0 { -n1 } else { n1 }) as nat;
    let m2 = (if n2 < 0 { -n2 } else { n2 }) as nat;
    lemma_decimal(m1);
    lemma_decimal(m2);
    lemma_occurs_split(seq![105u8] + int_text(n1), seq![101u8], s, i);
    lemma_occurs_split(seq![105u8], int_text(n1), s, i);
    lemma_occurs_split(seq![105u8] + int_text(n2), seq![101u8], s, i);
    lemma_occurs_split(seq![105u8], int_text(n2), s, i);
    let e1 = i + 1 + int_text(n1).len();
    let e2 = i + 1 + int_text(n2).len();
    assert(s.subrange(e1, e1 + 1)[0] == s[e1]);
    assert(s.subrange(e2, e2 + 1)[0] == s[e2]);
    assert(s.subrange(i + 1, i + 1 + int_text(n1).len())[0] == s[i + 1]);
    assert(s.subrange(i + 1, i + 1 + int_text(n2).len())[0] == s[i + 1]);
    if n1 < 0 {
        lemma_occurs_split(seq![45u8], decimal(m1), s, i + 1);
    }
    if n2 < 0 {
        lemma_occurs_split(seq![45u8], decimal(m2), s, i + 1);
    }
    if (n1 < 0) != (n2 < 0) {
        assert(int_text(n1)[0] != int_text(n2)[0]);
    } else {
        let j = if n1 < 0 { i + 2 } else { i + 1 };
        lemma_decimal_unique(m1, m2, s, j);
    }
}

proof fn lemma_items_unique(w1: Bencode, w2: Bencode, s: Seq<u8>, i: int, k: int)
    requires
        w1 is List,
        w2 is List,
        wf(w1),
        wf(w2),
        occurs_at(encode_value(w1), s, i),
        occurs_at(encode_value(w2), s, i),
        0 <= k <= w1->List_0.len(),
        k <= w2->List_0.len(),
    ensures
        w1->List_0.take(k) == w2->List_0.take(k),
    decreases w1, 0int, k,
{
    let a = w1->List_0;
    let b = w2->List_0;
    if k == 0 {
        assert(a.take(0) =~= b.take(0));
    } else {
        lemma_items_unique(w1, w2, s, i, k - 1);
        let vs = a.take(k - 1);
        lemma_list_step(w1, vs, s, i);
        lemma_list_step(w2, vs, s, i);
        assert(decreases_to!(w1 => a));
        assert(decreases_to!(a => a[k - 1]));
        lemma_encoding_unique(a[k - 1], b[k - 1], s, i + 1 + encode_list(vs).len());
        assert(a.take(k) =~= a.take(k - 1).push(a[k - 1]));
        assert(b.take(k) =~= b.take(k - 1).push(b[k - 1]));
    }
}

proof fn lemma_entries_unique(w1: Bencode, w2: Bencode, s: Seq<u8>, i: int, k: int)
    requires
        w1 is Dict,
        w2 is Dict,
        wf(w1),
        wf(w2),
        occurs_at(encode_value(w1), s, i),
        occurs_at(encode_value(w2), s, i),
        0 <= k <= w1->Dict_1.len(),
        k <= w2->Dict_1.len(),
    ensures
        w1->Dict_0.take(k) == w2->Dict_0.take(k),
        w1->Dict_1.take(k) == w2->Dict_1.take(k),
    decreases w1, 0int, k,
{
    let ka = w1->Dict_0;
    let va = w1->Dict_1;
    let kb = w2->Dict_0;
    let vb = w2->Dict_1;
    if k == 0 {
        assert(ka.take(0) =~= kb.take(0));
        assert(va.take(0) =~= vb.take(0));
    } else {
        lemma_entries_unique(w1, w2, s, i, k - 1);
        let ks = ka.take(k - 1);
        let vs = va.take(k - 1);
        lemma_dict_step(w1, ks, vs, s, i);
        lemma_dict_step(w2, ks, vs, s, i);
        let p = i + 1 + encode_dict(ks, vs).len();
        lemma_string_unique(ka[k - 1], kb[k - 1], s, p);
        assert(decreases_to!(w1 => va));
        assert(decreases_to!(va => va[k - 1]));
        lemma_encoding_unique(va[k - 1], vb[k - 1], s, p + encode_string(ka[k - 1]).len());
        assert(ka.take(k) =~= ka.take(k - 1).push(ka[k - 1]));
        assert(kb.take(k) =~= kb.take(k - 1).push(kb[k - 1]));
        assert(va.take(k) =~= va.take(k - 1).push(va[k - 1]));
        assert(vb.take(k) =~= vb.take(k - 1).push(vb[k - 1]));
    }
}

/// Decoding the encoding of a canonical value gives that value back: `decode` returns a
/// canonical value whose encoding is its input, and only `w` is such a value for the
/// input `encode_value(w)`.
pub proof fn lemma_round_trip(w: Bencode, v: Bencode)
    requires
        wf(w),
        wf(v),
        encode_value(v) == encode_value(w),
    ensures
        v == w,
{
    let s = encode_value(w);
    assert(s.subrange(0, s.len() as int) =~= s);
    lemma_encoding_unique(w, v, s, 0);
}

proof fn lemma_bytes_lt_total(a: Seq<u8>, b: Seq<u8>)
    ensures
        a != b && !bytes_lt(a, b) ==> bytes_lt(b, a),
        !(bytes_lt(a, b) && bytes_lt(b, a)),
        !bytes_lt(a, a),
    decreases a.len(),
{
    if a.len() > 0 && b.len() > 0 {
        lemma_bytes_lt_total(a.drop_first(), b.drop_first());
        if a[0] == b[0] && a.drop_first() == b.drop_first() {
            assert(a =~= seq![a[0]] + a.drop_first());
            assert(b =~= seq![b[0]] + b.drop_first());
        }
    } else if a.len() == 0 && b.len() == 0 {
        assert(a =~= b);
    }
    if a.len() > 0 {
        lemma_bytes_lt_total(a.drop_first(), a.drop_first());
    }
}

/// The keys of a list of dictionary entries.
pub open spec fn entry_keys(e: Seq<(Vec<u8>, Value)>) -> Seq<Seq<u8>> {
    Seq::new(e.len(), |i: int| e[i].0@)
}

/// The values of a list of dictionary entries.
pub open spec fn entry_vals(e: Seq<(Vec<u8>, Value)>) -> Seq<Bencode> {
    Seq::new(e.len(), |i: int| e[i].1@)
}

/// Puts `key` and `value` into dictionary entries kept in ascending key order: the
/// entry goes where its key belongs, and replaces the value of an equal key.
pub fn dict_insert(entries: &mut Vec<(Vec<u8>, Value)>, key: Vec<u8>, value: Value) -> (j: usize)
    requires
        keys_ascending(entry_keys(old(entries)@)),
    ensures
        keys_ascending(entry_keys(final(entries)@)),
        j <= old(entries)@.len(),
        forall|m: int| 0 <= m < j ==> bytes_lt(#[trigger] entry_keys(old(entries)@)[m], key@),
        j < old(entries)@.len() ==> !bytes_lt(entry_keys(old(entries)@)[j as int], key@),
        j < old(entries)@.len() && entry_keys(old(entries)@)[j as int] == key@ ==> {
            &&& entry_keys(final(entries)@) == entry_keys(old(entries)@)
            &&& entry_vals(final(entries)@) == entry_vals(old(entries)@).update(j as int, value@)
        },
        !(j < old(entries)@.len() && entry_keys(old(entries)@)[j as int] == key@) ==> {
            &&& entry_keys(final(entries)@) == entry_keys(old(entries)@).insert(j as int, key@)
            &&& entry_vals(final(entries)@) == entry_vals(old(entries)@).insert(j as int, value@)
        },
{
    let ghost ks = entry_keys(entries@);
    let ghost vs = entry_vals(entries@);
    let n = entries.len();
    let mut j: usize = 0;
    let mut done = false;
    while j < n && !done
        invariant
            j <= n,
            n == entries@.len(),
            ks == entry_keys(entries@),
            forall|m: int| 0 <= m < j ==> bytes_lt(#[trigger] ks[m], key@),
            done ==> j < n && !bytes_lt(ks[j as int], key@),
        decreases n - j + if done { 0int } else { 1int },
    {
        if bytes_less(entries[j].0.as_slice(), key.as_slice()) {
            j = j + 1;
        } else {
            done = true;
        }
    }
    assert(j < n ==> !bytes_lt(ks[j as int], key@));
    let ghost kv = value@;
    if j < n && bytes_equal(entries[j].0.as_slice(), key.as_slice()) {
        entries.set(j, (key, value));
        proof {
            assert(entry_keys(entries@) =~= ks);
            assert(entry_vals(entries@) =~= vs.update(j as int, kv));
        }
    } else {
        let ghost kk = key@;
        entries.insert(j, (key, value));
        proof {
            let nk = entry_keys(entries@);
            assert(nk =~= ks.insert(j as int, kk));
            assert(entry_vals(entries@) =~= vs.insert(j as int, kv));
            if j < n {
                lemma_bytes_lt_total(ks[j as int], kk);
            }
            assert forall|i: int| 0 <= i < nk.len() - 1 implies bytes_lt(#[trigger] nk[i], nk[i + 1]) by {
                if i < j - 1 {
                    assert(bytes_lt(ks[i], ks[i + 1]));
                } else if i > j {
                    assert(bytes_lt(ks[i - 1], ks[i]));
                }
            }
        }
    }
    j
}

/// How a byte changes the nesting depth when scanning bencode text by markers: `e`
/// closes, `l`, `d` and `i` open.
pub open spec fn nesting_delta(b: u8) -> int {
    if b == 101u8 {
        -1
    } else if b == 108u8 || b == 100u8 || b == 105u8 {
        1
    } else {
        0
    }
}

/// The depth after scanning the bytes after `index` up to and including `j`, starting
/// from depth one.
pub open spec fn depth_after(s: Seq<u8>, index: int, j: int) -> int
    decreases j - index,
{
    if j <= index {
        1
    } else {
        depth_after(s, index, j - 1) + nesting_delta(s[j])
    }
}

/// The position of the `e` that closes the item opened at byte `index` of `text`,
/// found by counting markers only (the bytes of strings are not skipped); 0 when the
/// depth never drops to zero.
pub fn find_e_for_index(text: &str, index: usize) -> (r: usize)
    ensures
        r == 0 ==> forall|j: int|
            index < j < encode_utf8(text@).len() ==> #[trigger] depth_after(encode_utf8(text@), index as int, j) != 0,
        r != 0 ==> {
            &&& index < r < encode_utf8(text@).len()
            &&& depth_after(encode_utf8(text@), index as int, r as int) == 0
            &&& forall|j: int| index < j < r ==> #[trigger] depth_after(encode_utf8(text@), index as int, j) != 0
        },
{
    find_closing(text.as_bytes(), index)
}

fn find_closing(s: &[u8], index: usize) -> (r: usize)
    ensures
        r == 0 ==> forall|j: int| index < j < s@.len() ==> #[trigger] depth_after(s@, index as int, j) != 0,
        r != 0 ==> {
            &&& index < r < s@.len()
            &&& depth_after(s@, index as int, r as int) == 0
            &&& forall|j: int| index < j < r ==> #[trigger] depth_after(s@, index as int, j) != 0
        },
{
    if index >= s.len() {
        return 0;
    }
    let mut count: usize = 1;
    let mut j: usize = index + 1;
    while j < s.len()
        invariant
            index < j <= s@.len(),
            count >= 1,
            count <= j - index,
            count == depth_after(s@, index as int, j - 1),
            forall|k: int| index < k < j ==> #[trigger] depth_after(s@, index as int, k) != 0,
        decreases s@.len() - j,
    {
        let b = s[j];
        if b == 101u8 {
            count = count - 1;
        } else if b == 108u8 || b == 100u8 || b == 105u8 {
            count = count + 1;
        }
        if count == 0 {
            return j;
        }
        j = j + 1;
    }
    0
}

} // verus!
