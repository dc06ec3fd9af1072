//! The bencode codec: the four wire kinds (byte string, integer, list,
//! dictionary), a decoder that consumes exactly one value and records the
//! byte offset of any failure, and a canonical encoder that emits dictionary
//! entries in ascending byte-wise key order.
use vstd::prelude::*;

use crate::BtError;

verus! {

/// ASCII ':'
pub const COLON: u8 = 58;

/// ASCII 'i'
pub const MARK_INT: u8 = 105;

/// ASCII 'e'
pub const MARK_END: u8 = 101;

/// ASCII 'l'
pub const MARK_LIST: u8 = 108;

/// ASCII 'd'
pub const MARK_DICT: u8 = 100;

/// ASCII '-'
pub const MINUS: u8 = 45;

/// ASCII '0'
pub const DIGIT_ZERO: u8 = 48;

/// A decoded bencode value. Dictionary entries keep the order in which they
/// were read; the canonical encoder is what sorts them.
#[derive(Debug)]
pub enum Bencode {
    Bytes(Vec<u8>),
    Int(i64),
    List(Vec<Bencode>),
    Dict(Vec<(Vec<u8>, Bencode)>),
}

// ---------------------------------------------------------------------------
// Height measures, used as decreases metrics by the functions that walk a
// value in an order other than plain structural recursion.
// ---------------------------------------------------------------------------

pub open spec fn bheight(v: Bencode) -> nat
    decreases v,
{
    match v {
        Bencode::Bytes(_) => 1,
        Bencode::Int(_) => 1,
        Bencode::List(items) => 1 + bheight_list(items@),
        Bencode::Dict(entries) => 1 + bheight_entries(entries@),
    }
}

pub open spec fn bheight_list(items: Seq<Bencode>) -> nat
    decreases items,
{
    if items.len() == 0 {
        0
    } else {
        1 + bheight(items[0]) + bheight_list(items.drop_first())
    }
}

pub open spec fn bheight_entries(es: Seq<(Vec<u8>, Bencode)>) -> nat
    decreases es,
{
    if es.len() == 0 {
        0
    } else {
        1 + bheight(es[0].1) + bheight_entries(es.drop_first())
    }
}

/// Each list element sits strictly below the whole list's height.
pub proof fn lemma_bheight_list_elem(items: Seq<Bencode>, i: int)
    requires
        0 <= i < items.len(),
    ensures
        bheight(items[i]) < bheight_list(items),
    decreases items.len(),
{
    if i > 0 {
        lemma_bheight_list_elem(items.drop_first(), i - 1);
    }
}

/// Each dictionary value sits strictly below the whole entry run's height.
pub proof fn lemma_bheight_entries_elem(es: Seq<(Vec<u8>, Bencode)>, i: int)
    requires
        0 <= i < es.len(),
    ensures
        bheight(es[i].1) < bheight_entries(es),
    decreases es.len(),
{
    if i > 0 {
        lemma_bheight_entries_elem(es.drop_first(), i - 1);
    }
}

/// Removing an entry strictly shrinks the entry run's height.
pub proof fn lemma_bheight_entries_remove(es: Seq<(Vec<u8>, Bencode)>, i: int)
    requires
        0 <= i < es.len(),
    ensures
        bheight_entries(es.remove(i)) < bheight_entries(es),
    decreases es.len(),
{
    if i == 0 {
        assert(es.remove(0) =~= es.drop_first());
    } else {
        lemma_bheight_entries_remove(es.drop_first(), i - 1);
        assert(es.remove(i).drop_first() =~= es.drop_first().remove(i - 1));
        assert(es.remove(i)[0] == es[0]);
    }
}

// ---------------------------------------------------------------------------
// Byte-wise lexicographic order on keys.
// ---------------------------------------------------------------------------

/// `a` is lexicographically at or before `b`, comparing bytes.
pub open spec fn lex_leq(a: Seq<u8>, b: Seq<u8>) -> bool
    decreases a.len(),
{
    if a.len() == 0 {
        true
    } else if b.len() == 0 {
        false
    } else if a[0] < b[0] {
        true
    } else if a[0] > b[0] {
        false
    } else {
        lex_leq(a.drop_first(), b.drop_first())
    }
}

/// `a` is strictly before `b`.
pub open spec fn lex_lt(a: Seq<u8>, b: Seq<u8>) -> bool {
    lex_leq(a, b) && a != b
}

pub proof fn lemma_lex_total(a: Seq<u8>, b: Seq<u8>)
    ensures
        lex_leq(a, b) || lex_leq(b, a),
    decreases a.len(),
{
    if a.len() > 0 && b.len() > 0 && a[0] == b[0] {
        lemma_lex_total(a.drop_first(), b.drop_first());
    }
}

pub proof fn lemma_lex_antisym(a: Seq<u8>, b: Seq<u8>)
    requires
        lex_leq(a, b),
        lex_leq(b, a),
    ensures
        a == b,
    decreases a.len(),
{
    if a.len() == 0 {
        assert(b.len() == 0);
        assert(a =~= b);
    } else {
        lemma_lex_antisym(a.drop_first(), b.drop_first());
        assert(a =~= seq![a[0]] + a.drop_first());
        assert(b =~= seq![b[0]] + b.drop_first());
    }
}

pub proof fn lemma_lex_trans(a: Seq<u8>, b: Seq<u8>, c: Seq<u8>)
    requires
        lex_leq(a, b),
        lex_leq(b, c),
    ensures
        lex_leq(a, c),
    decreases a.len(),
{
    if a.len() > 0 && b.len() > 0 && c.len() > 0 && a[0] == b[0] && b[0] == c[0] {
        lemma_lex_trans(a.drop_first(), b.drop_first(), c.drop_first());
    }
}

// ---------------------------------------------------------------------------
// The wire encoding, with dictionary entries in stored order. The decoder's
// contract speaks of this form: the bytes it consumes are exactly `enc` of
// the value it returns.
// ---------------------------------------------------------------------------

/// Decimal digits of `n`, most significant first, with no leading zeros.
pub open spec fn dec_digits(n: nat) -> Seq<u8>
    decreases n,
{
    if n < 10 {
        seq![(DIGIT_ZERO + n) as u8]
    } else {
        dec_digits(n / 10).push((DIGIT_ZERO + n % 10) as u8)
    }
}

/// The bencode integer body: an optional minus sign, then minimal digits.
pub open spec fn int_bytes(i: int) -> Seq<u8> {
    if i < 0 {
        seq![MINUS] + dec_digits((-i) as nat)
    } else {
        dec_digits(i as nat)
    }
}

/// The wire form of a byte string: `<len>:<bytes>`.
pub open spec fn bstr_bytes(b: Seq<u8>) -> Seq<u8> {
    dec_digits(b.len()) + seq![COLON] + b
}

/// The wire bytes of a value, emitting dictionary entries in stored order.
pub open spec fn enc(v: Bencode) -> Seq<u8>
    decreases v,
{
    match v {
        Bencode::Bytes(b) => bstr_bytes(b@),
        Bencode::Int(i) => seq![MARK_INT] + int_bytes(i as int) + seq![MARK_END],
        Bencode::List(items) => seq![MARK_LIST] + enc_list(items@) + seq![MARK_END],
        Bencode::Dict(entries) => seq![MARK_DICT] + enc_entries(entries@) + seq![MARK_END],
    }
}

pub open spec fn enc_list(items: Seq<Bencode>) -> Seq<u8>
    decreases items,
{
    if items.len() == 0 {
        Seq::empty()
    } else {
        enc(items[0]) + enc_list(items.drop_first())
    }
}

pub open spec fn enc_entries(es: Seq<(Vec<u8>, Bencode)>) -> Seq<u8>
    decreases es,
{
    if es.len() == 0 {
        Seq::empty()
    } else {
        bstr_bytes(es[0].0@) + enc(es[0].1) + enc_entries(es.drop_first())
    }
}

/// Appending an element extends the encoded run on the right.
pub proof fn lemma_enc_list_push(items: Seq<Bencode>, v: Bencode)
    ensures
        enc_list(items.push(v)) == enc_list(items) + enc(v),
    decreases items.len(),
{
    if items.len() == 0 {
        assert(items.push(v).drop_first() =~= Seq::<Bencode>::empty());
        assert(items.push(v)[0] == v);
        assert(enc_list(Seq::<Bencode>::empty()) == Seq::<u8>::empty());
        assert(enc_list(items.push(v)) =~= enc(v));
        assert(enc_list(items) + enc(v) =~= enc(v));
    } else {
        lemma_enc_list_push(items.drop_first(), v);
        assert(items.push(v).drop_first() =~= items.drop_first().push(v));
        assert(items.push(v)[0] == items[0]);
        assert(enc_list(items.push(v)) =~= enc_list(items) + enc(v));
    }
}

/// Appending an entry extends the encoded run on the right.
pub proof fn lemma_enc_entries_push(es: Seq<(Vec<u8>, Bencode)>, e: (Vec<u8>, Bencode))
    ensures
        enc_entries(es.push(e)) == enc_entries(es) + bstr_bytes(e.0@) + enc(e.1),
    decreases es.len(),
{
    if es.len() == 0 {
        assert(es.push(e).drop_first() =~= Seq::<(Vec<u8>, Bencode)>::empty());
        assert(es.push(e)[0] == e);
        assert(enc_entries(Seq::<(Vec<u8>, Bencode)>::empty()) == Seq::<u8>::empty());
        assert(enc_entries(es.push(e)) =~= bstr_bytes(e.0@) + enc(e.1));
        assert(enc_entries(es) + bstr_bytes(e.0@) + enc(e.1) =~= bstr_bytes(e.0@) + enc(e.1));
    } else {
        lemma_enc_entries_push(es.drop_first(), e);
        assert(es.push(e).drop_first() =~= es.drop_first().push(e));
        assert(es.push(e)[0] == es[0]);
        assert(enc_entries(es.push(e)) =~= enc_entries(es) + bstr_bytes(e.0@) + enc(e.1));
    }
}

// ---------------------------------------------------------------------------
// Key uniqueness, deep over a value. The decoder guarantees it.
// ---------------------------------------------------------------------------

/// No two entries share a key.
pub open spec fn nodup_keys(es: Seq<(Vec<u8>, Bencode)>) -> bool {
    forall|i: int, j: int| 0 <= i < j < es.len() ==> es[i].0@ != es[j].0@
}

/// Every dictionary inside the value has pairwise distinct keys.
pub open spec fn nodup_deep(v: Bencode) -> bool
    decreases v,
{
    match v {
        Bencode::Bytes(_) => true,
        Bencode::Int(_) => true,
        Bencode::List(items) => nodup_deep_list(items@),
        Bencode::Dict(entries) => nodup_keys(entries@) && nodup_deep_entries(entries@),
    }
}

pub open spec fn nodup_deep_list(items: Seq<Bencode>) -> bool
    decreases items,
{
    if items.len() == 0 {
        true
    } else {
        nodup_deep(items[0]) && nodup_deep_list(items.drop_first())
    }
}

pub open spec fn nodup_deep_entries(es: Seq<(Vec<u8>, Bencode)>) -> bool
    decreases es,
{
    if es.len() == 0 {
        true
    } else {
        nodup_deep(es[0].1) && nodup_deep_entries(es.drop_first())
    }
}

pub proof fn lemma_nodup_deep_list_push(items: Seq<Bencode>, v: Bencode)
    ensures
        nodup_deep_list(items.push(v)) == (nodup_deep_list(items) && nodup_deep(v)),
    decreases items.len(),
{
    if items.len() == 0 {
        assert(items.push(v).drop_first() =~= Seq::<Bencode>::empty());
        assert(items.push(v)[0] == v);
        assert(nodup_deep_list(Seq::<Bencode>::empty()));
    } else {
        lemma_nodup_deep_list_push(items.drop_first(), v);
        assert(items.push(v).drop_first() =~= items.drop_first().push(v));
        assert(items.push(v)[0] == items[0]);
    }
}

pub proof fn lemma_nodup_deep_entries_push(es: Seq<(Vec<u8>, Bencode)>, e: (Vec<u8>, Bencode))
    ensures
        nodup_deep_entries(es.push(e)) == (nodup_deep_entries(es) && nodup_deep(e.1)),
    decreases es.len(),
{
    if es.len() == 0 {
        assert(es.push(e).drop_first() =~= Seq::<(Vec<u8>, Bencode)>::empty());
        assert(es.push(e)[0] == e);
        assert(nodup_deep_entries(Seq::<(Vec<u8>, Bencode)>::empty()));
    } else {
        lemma_nodup_deep_entries_push(es.drop_first(), e);
        assert(es.push(e).drop_first() =~= es.drop_first().push(e));
        assert(es.push(e)[0] == es[0]);
    }
}

// ---------------------------------------------------------------------------
// Decoding.
// ---------------------------------------------------------------------------

/// An ASCII decimal digit.
pub open spec fn is_ascii_digit(b: u8) -> bool {
    DIGIT_ZERO <= b <= 57
}

/// Reads a decimal number with no leading zeros, greedily, starting at
/// `pos`. `cap` bounds the value; digits that would exceed it fail. A
/// leading `0` is returned as the one-digit number zero at once, so a
/// caller that then expects a terminator rejects `03`-style inputs.
fn parse_digits(input: &Vec<u8>, pos: usize, cap: u64) -> (r: Result<(u64, usize), BtError>)
    requires
        pos <= input.len(),
        cap >= 9,
    ensures
        match r {
            Ok((val, end)) => {
                &&& pos < end <= input.len()
                &&& val <= cap
                &&& input@.subrange(pos as int, end as int) == dec_digits(val as nat)
                &&& (val == 0 ==> end == pos + 1)
                &&& (val != 0 ==> end == input@.len() || !is_ascii_digit(input@[end as int]))
            },
            Err(e) => {
                &&& e is MalformedBencode
                &&& ((pos >= input@.len() || !is_ascii_digit(input@[pos as int])) || exists|
                    m: int,
                |
                    pos < m <= input@.len() && all_digits(
                        #[trigger] input@.subrange(pos as int, m),
                    ) && digits_val(input@.subrange(pos as int, m)) > cap)
            },
        },
{
    if pos >= input.len() || !(DIGIT_ZERO <= input[pos] && input[pos] <= 57) {
        return Err(BtError::MalformedBencode { at_offset: pos });
    }
    let d0: u8 = input[pos] - DIGIT_ZERO;
    if d0 == 0 {
        proof {
            assert(input@.subrange(pos as int, pos + 1) =~= seq![input@[pos as int]]);
        }
        return Ok((0, pos + 1));
    }
    let mut val: u64 = d0 as u64;
    let mut i: usize = pos + 1;
    proof {
        assert(input@.subrange(pos as int, pos + 1) =~= seq![input@[pos as int]]);
    }
    while i < input.len() && DIGIT_ZERO <= input[i] && input[i] <= 57
        invariant
            cap >= 9,
            pos < i <= input.len(),
            1 <= val <= cap,
            input@.subrange(pos as int, i as int) == dec_digits(val as nat),
        decreases input.len() - i,
    {
        let d: u8 = input[i] - DIGIT_ZERO;
        assert(d <= 9);
        if val > (cap - d as u64) / 10 {
            proof {
                let run = input@.subrange(pos as int, i + 1);
                lemma_dec_digits_facts(val as nat);
                assert(run.drop_last() =~= input@.subrange(pos as int, i as int));
                assert(run.last() == input@[i as int]);
                assert(digits_val(run) == (val as int) * 10 + d);
                assert forall|t: int| 0 <= t < run.len() implies is_ascii_digit(
                    #[trigger] run[t],
                ) by {
                    if t < run.len() - 1 {
                        assert(run[t] == dec_digits(val as nat)[t]);
                    }
                }
                let q = (cap - d as u64) / 10;
                vstd::arithmetic::div_mod::lemma_fundamental_div_mod(cap - d as u64, 10);
                vstd::arithmetic::div_mod::lemma_mod_bound(cap - d as u64, 10);
                assert((val as int) * 10 >= (q + 1) * 10) by (nonlinear_arith)
                    requires
                        val >= q + 1,
                ;
                assert((q + 1) * 10 == q * 10 + 10) by (nonlinear_arith);
                assert(10 * q == q * 10) by (nonlinear_arith);
                assert(digits_val(run) > cap);
            }
            return Err(BtError::MalformedBencode { at_offset: i });
        }
        proof {
            assert(val * 10 <= ((cap - d as u64) / 10) * 10) by (nonlinear_arith)
                requires
                    val <= (cap - d as u64) / 10,
                    val >= 0,
            ;
            assert(((cap - d as u64) / 10) * 10 <= cap - d as u64) by (nonlinear_arith);
        }
        let new_val: u64 = val * 10 + d as u64;
        proof {
            assert(new_val as nat / 10 == val as nat && new_val as nat % 10 == d as nat)
                by (nonlinear_arith)
                requires
                    new_val == val * 10 + d,
                    0 <= d < 10,
                    val >= 0,
            ;
            assert(dec_digits(new_val as nat) == dec_digits(val as nat).push(
                (DIGIT_ZERO + d) as u8,
            ));
            assert(input@.subrange(pos as int, i + 1) =~= input@.subrange(
                pos as int,
                i as int,
            ).push(input@[i as int]));
        }
        val = new_val;
        i = i + 1;
    }
    Ok((val, i))
}

/// Whether two byte vectors hold the same bytes.
pub fn bytes_eq(a: &Vec<u8>, b: &Vec<u8>) -> (r: bool)
    ensures
        r == (a@ == b@),
{
    if a.len() != b.len() {
        return false;
    }
    let mut i: usize = 0;
    while i < a.len()
        invariant
            i <= a.len(),
            a.len() == b.len(),
            forall|j: int| 0 <= j < i ==> a@[j] == b@[j],
        decreases a.len() - i,
    {
        if a[i] != b[i] {
            return false;
        }
        i = i + 1;
    }
    proof {
        assert(a@ =~= b@);
    }
    true
}

/// Some machine-sized byte string is encoded at `pos`.
pub open spec fn some_bstr_at(s: Seq<u8>, pos: int) -> bool {
    exists|b: Seq<u8>, end: int|
        #![trigger s.subrange(pos, end), bstr_bytes(b)]
        pos < end <= s.len() && s.subrange(pos, end) == bstr_bytes(b) && b.len() <= usize::MAX
}

/// What holds of any byte-string parse: a digit run spelling the
/// length, the colon, then exactly that many bytes.
proof fn lemma_bstr_shape(s: Seq<u8>, pos: int, end: int, b: Seq<u8>)
    requires
        0 <= pos < end <= s.len(),
        s.subrange(pos, end) == bstr_bytes(b),
    ensures
        ({
            let e1 = pos + dec_digits(b.len()).len();
            &&& pos < e1 < end
            &&& s.subrange(pos, e1) == dec_digits(b.len())
            &&& all_digits(s.subrange(pos, e1))
            &&& s[e1] == COLON
            &&& end == e1 + 1 + b.len()
            &&& is_ascii_digit(s[pos])
            &&& (s[pos] == DIGIT_ZERO <==> b.len() == 0)
        }),
{
    lemma_dec_digits_facts(b.len());
    let dl = dec_digits(b.len());
    let e1 = pos + dl.len();
    assert(s.subrange(pos, end).len() == dl.len() + 1 + b.len());
    assert(e1 < end);
    assert(s.subrange(pos, e1) =~= dl) by {
        assert(forall|t: int|
            0 <= t < dl.len() ==> s.subrange(pos, e1)[t] == s.subrange(pos, end)[t]);
    }
    assert(s[e1] == s.subrange(pos, end)[e1 - pos]);
    assert(s[pos] == dl[0]);
}

/// No byte string can start where no machine-sized digit run does.
proof fn lemma_bstr_site_digits(s: Seq<u8>, pos: int)
    requires
        0 <= pos <= s.len(),
        (pos >= s.len() || !is_ascii_digit(s[pos])) || (exists|m: int|
            pos < m <= s.len() && all_digits(#[trigger] s.subrange(pos, m)) && digits_val(
                s.subrange(pos, m),
            ) > usize::MAX),
    ensures
        !some_bstr_at(s, pos),
{
    if some_bstr_at(s, pos) {
        let (b, end) = choose|b: Seq<u8>, end: int|
            #![trigger s.subrange(pos, end), bstr_bytes(b)]
            pos < end <= s.len() && s.subrange(pos, end) == bstr_bytes(b) && b.len()
                <= usize::MAX;
        lemma_bstr_shape(s, pos, end, b);
        lemma_dec_digits_facts(b.len());
        let dl = dec_digits(b.len());
        let e1 = pos + dl.len();
        if pos >= s.len() || !is_ascii_digit(s[pos]) {
            assert(false);
        } else {
            let m = choose|m: int|
                pos < m <= s.len() && all_digits(#[trigger] s.subrange(pos, m)) && digits_val(
                    s.subrange(pos, m),
                ) > usize::MAX;
            if m > e1 {
                assert(is_ascii_digit(s.subrange(pos, m)[e1 - pos]));
                assert(s.subrange(pos, m)[e1 - pos] == s[e1]);
                assert(false);
            } else {
                assert(s.subrange(pos, m) =~= s.subrange(pos, e1).take(m - pos));
                lemma_digits_val_prefix(dl, m - pos);
                assert(false);
            }
        }
    }
}

/// After the digit scan, any byte-string parse at `pos` puts its colon
/// exactly at the scan's end and spells exactly the scanned length.
proof fn lemma_bstr_site_run(s: Seq<u8>, pos: int, n: int, p1: int, b: Seq<u8>, end: int)
    requires
        0 <= pos < p1 <= s.len(),
        0 <= n,
        s.subrange(pos, p1) == dec_digits(n as nat),
        n == 0 ==> p1 == pos + 1,
        n != 0 ==> p1 == s.len() || !is_ascii_digit(s[p1]),
        pos < end <= s.len(),
        s.subrange(pos, end) == bstr_bytes(b),
    ensures
        s[p1] == COLON,
        p1 < end,
        b.len() == n,
        end == p1 + 1 + n,
{
    lemma_bstr_shape(s, pos, end, b);
    lemma_dec_digits_facts(n as nat);
    lemma_dec_digits_facts(b.len());
    let dl = dec_digits(b.len());
    let e1 = pos + dl.len();
    assert(s[pos] == s.subrange(pos, p1)[0]);
    if n == 0 {
        assert(s[pos] == DIGIT_ZERO);
        assert(b.len() == 0);
        assert(e1 == pos + 1);
    } else {
        if e1 < p1 {
            assert(s[e1] == s.subrange(pos, p1)[e1 - pos]);
            assert(is_ascii_digit(s.subrange(pos, p1)[e1 - pos]));
        }
        if e1 > p1 {
            assert(s[p1] == s.subrange(pos, e1)[p1 - pos]);
            assert(is_ascii_digit(s.subrange(pos, e1)[p1 - pos]));
        }
        assert(e1 == p1);
    }
    assert(digits_val(s.subrange(pos, p1)) == n);
    assert(digits_val(s.subrange(pos, e1)) == b.len());
}

/// Reads one byte string, `<len>:<bytes>`, starting at `pos`.
fn parse_bstr(input: &Vec<u8>, pos: usize) -> (r: Result<(Vec<u8>, usize), BtError>)
    requires
        pos <= input.len(),
    ensures
        match r {
            Ok((b, end)) => {
                &&& pos < end <= input.len()
                &&& input@.subrange(pos as int, end as int) == bstr_bytes(b@)
            },
            Err(e) => {
                &&& e is MalformedBencode
                &&& !some_bstr_at(input@, pos as int)
            },
        },
{
    let (n, p1) = match parse_digits(input, pos, usize::MAX as u64) {
        Ok(x) => x,
        Err(e) => {
            proof {
                lemma_bstr_site_digits(input@, pos as int);
            }
            return Err(e);
        },
    };
    if p1 >= input.len() || input[p1] != COLON {
        proof {
            assert(!some_bstr_at(input@, pos as int)) by {
                if some_bstr_at(input@, pos as int) {
                    let (b, end) = choose|b: Seq<u8>, end: int|
                        #![trigger input@.subrange(pos as int, end), bstr_bytes(b)]
                        pos < end <= input@.len() && input@.subrange(pos as int, end)
                            == bstr_bytes(b) && b.len() <= usize::MAX;
                    lemma_bstr_site_run(input@, pos as int, n as int, p1 as int, b, end);
                }
            }
        }
        return Err(BtError::MalformedBencode { at_offset: p1 });
    }
    let nu: usize = n as usize;
    if nu > input.len() - (p1 + 1) {
        proof {
            assert(!some_bstr_at(input@, pos as int)) by {
                if some_bstr_at(input@, pos as int) {
                    let (b, end) = choose|b: Seq<u8>, end: int|
                        #![trigger input@.subrange(pos as int, end), bstr_bytes(b)]
                        pos < end <= input@.len() && input@.subrange(pos as int, end)
                            == bstr_bytes(b) && b.len() <= usize::MAX;
                    lemma_bstr_site_run(input@, pos as int, n as int, p1 as int, b, end);
                }
            }
        }
        return Err(BtError::MalformedBencode { at_offset: p1 });
    }
    let start: usize = p1 + 1;
    let mut b: Vec<u8> = Vec::new();
    let mut k: usize = 0;
    while k < nu
        invariant
            k <= nu,
            start + nu <= input.len(),
            b@ == input@.subrange(start as int, start + k),
        decreases nu - k,
    {
        b.push(input[start + k]);
        proof {
            assert(input@.subrange(start as int, start + k + 1) =~= input@.subrange(
                start as int,
                start + k,
            ).push(input@[start + k]));
        }
        k = k + 1;
    }
    proof {
        assert(b@.len() == nu);
        assert(input@.subrange(pos as int, (start + nu) as int) =~= input@.subrange(
            pos as int,
            p1 as int,
        ) + seq![input@[p1 as int]] + input@.subrange(start as int, start + nu));
        assert(input@.subrange(pos as int, (start + nu) as int) =~= dec_digits(n as nat)
            + seq![COLON] + b@);
    }
    Ok((b, start + nu))
}

/// Decodes exactly one value starting at `pos`. On success the consumed
/// bytes are exactly the wire encoding of the returned value, read in
/// stored entry order, and every dictionary read has pairwise distinct
/// keys; duplicates, leading zeros, a bare `-0` and truncated input are
/// rejected with the offending offset. Failure is complete: the decoder
/// fails only where no well-formed, machine-representable value is
/// encoded at all.
pub fn decode_value(input: &Vec<u8>, pos: usize) -> (r: Result<(Bencode, usize), BtError>)
    requires
        pos <= input.len(),
    ensures
        match r {
            Ok((v, end)) => {
                &&& pos < end <= input.len()
                &&& input@.subrange(pos as int, end as int) == enc(v)
                &&& nodup_deep(v)
            },
            Err(e) => e is MalformedBencode && !some_value_at(input@, pos as int),
        },
    decreases input.len() - pos,
{
    if pos >= input.len() {
        proof {
            assert(!some_value_at(input@, pos as int)) by {
                if some_value_at(input@, pos as int) {
                    let (v, end) = choose|v: Bencode, end: int|
                        #![trigger input@.subrange(pos as int, end), enc(v)]
                        pos < end <= input@.len() && input@.subrange(pos as int, end) == enc(v)
                            && nodup_deep(v) && decodable(v);
                }
            }
        }
        return Err(BtError::MalformedBencode { at_offset: pos });
    }
    let first: u8 = input[pos];
    if DIGIT_ZERO <= first && first <= 57 {
        // byte string
        match parse_bstr(input, pos) {
            Ok((b, end)) => Ok((Bencode::Bytes(b), end)),
            Err(e) => {
                proof {
                    assert(!some_value_at(input@, pos as int)) by {
                        if some_value_at(input@, pos as int) {
                            let (v, end) = choose|v: Bencode, end: int|
                                #![trigger input@.subrange(pos as int, end), enc(v)]
                                pos < end <= input@.len() && input@.subrange(pos as int, end)
                                    == enc(v) && nodup_deep(v) && decodable(v);
                            lemma_enc_first_byte(v);
                            assert(input@[pos as int] == input@.subrange(pos as int, end)[0]);
                            assert(v is Bytes);
                            let bb = v->Bytes_0;
                            assert(input@.subrange(pos as int, end) == bstr_bytes(bb@));
                            assert(some_bstr_at(input@, pos as int));
                        }
                    }
                }
                Err(e)
            },
        }
    } else if first == MARK_INT {
        let mut dstart: usize = pos + 1;
        let neg: bool = dstart < input.len() && input[dstart] == MINUS;
        if neg {
            dstart = dstart + 1;
        }
        let (mag, p2) = match parse_digits(input, dstart, i64::MAX as u64) {
            Ok(x) => x,
            Err(e) => {
                proof {
                    lemma_int_site_digits(input@, pos as int, dstart as int, neg);
                }
                return Err(e);
            },
        };
        if neg && mag == 0 {
            proof {
                assert(input@[dstart as int] == input@.subrange(dstart as int, p2 as int)[0]);
                lemma_dec_digits_facts(0);
                lemma_int_site_zero(input@, pos as int, dstart as int);
            }
            return Err(BtError::MalformedBencode { at_offset: dstart });
        }
        if p2 >= input.len() || input[p2] != MARK_END {
            proof {
                lemma_int_site_term(
                    input@,
                    pos as int,
                    dstart as int,
                    neg,
                    mag as int,
                    p2 as int,
                );
            }
            return Err(BtError::MalformedBencode { at_offset: p2 });
        }
        let val: i64 = if neg {
            -(mag as i64)
        } else {
            mag as i64
        };
        proof {
            if neg {
                assert(int_bytes(val as int) =~= seq![MINUS] + dec_digits(mag as nat));
                assert(input@.subrange(pos as int, p2 + 1) =~= seq![MARK_INT] + seq![MINUS]
                    + input@.subrange(dstart as int, p2 as int) + seq![MARK_END]);
                assert(input@.subrange(pos as int, p2 + 1) =~= seq![MARK_INT] + int_bytes(
                    val as int,
                ) + seq![MARK_END]);
            } else {
                assert(int_bytes(val as int) == dec_digits(mag as nat));
                assert(input@.subrange(pos as int, p2 + 1) =~= seq![MARK_INT] + input@.subrange(
                    dstart as int,
                    p2 as int,
                ) + seq![MARK_END]);
            }
        }
        Ok((Bencode::Int(val), p2 + 1))
    } else if first == MARK_LIST {
        let mut items: Vec<Bencode> = Vec::new();
        let mut cur: usize = pos + 1;
        proof {
            assert(input@.subrange(pos + 1, pos + 1) =~= Seq::<u8>::empty());
            assert(enc_list(items@) == Seq::<u8>::empty());
        }
        loop
            invariant
                pos < cur <= input.len(),
                input@[pos as int] == MARK_LIST,
                input@.subrange(pos + 1, cur as int) == enc_list(items@),
                nodup_deep_list(items@),
            decreases input.len() - cur,
        {
            if cur >= input.len() {
                proof {
                    assert(!some_value_at(input@, pos as int)) by {
                        if some_value_at(input@, pos as int) {
                            lemma_list_site(input@, pos as int, items@, cur as int);
                        }
                    }
                }
                return Err(BtError::MalformedBencode { at_offset: cur });
            }
            if input[cur] == MARK_END {
                proof {
                    assert(input@.subrange(pos as int, cur + 1) =~= seq![MARK_LIST]
                        + input@.subrange(pos + 1, cur as int) + seq![MARK_END]);
                }
                return Ok((Bencode::List(items), cur + 1));
            }
            let (v, end) = match decode_value(input, cur) {
                Ok(x) => x,
                Err(e) => {
                    proof {
                        assert(!some_value_at(input@, pos as int)) by {
                            if some_value_at(input@, pos as int) {
                                lemma_list_site(input@, pos as int, items@, cur as int);
                            }
                        }
                    }
                    return Err(e);
                },
            };
            proof {
                lemma_enc_list_push(items@, v);
                lemma_nodup_deep_list_push(items@, v);
                assert(input@.subrange(pos + 1, end as int) =~= input@.subrange(
                    pos + 1,
                    cur as int,
                ) + input@.subrange(cur as int, end as int));
            }
            items.push(v);
            cur = end;
        }
    } else if first == MARK_DICT {
        let mut entries: Vec<(Vec<u8>, Bencode)> = Vec::new();
        let mut cur: usize = pos + 1;
        proof {
            assert(input@.subrange(pos + 1, pos + 1) =~= Seq::<u8>::empty());
            assert(enc_entries(entries@) == Seq::<u8>::empty());
        }
        loop
            invariant
                pos < cur <= input.len(),
                input@[pos as int] == MARK_DICT,
                input@.subrange(pos + 1, cur as int) == enc_entries(entries@),
                nodup_keys(entries@),
                nodup_deep_entries(entries@),
            decreases input.len() - cur,
        {
            if cur >= input.len() {
                proof {
                    assert(!some_value_at(input@, pos as int)) by {
                        if some_value_at(input@, pos as int) {
                            lemma_dict_site(input@, pos as int, entries@, cur as int);
                        }
                    }
                }
                return Err(BtError::MalformedBencode { at_offset: cur });
            }
            if input[cur] == MARK_END {
                proof {
                    assert(input@.subrange(pos as int, cur + 1) =~= seq![MARK_DICT]
                        + input@.subrange(pos + 1, cur as int) + seq![MARK_END]);
                }
                return Ok((Bencode::Dict(entries), cur + 1));
            }
            let (key, kend) = match parse_bstr(input, cur) {
                Ok(x) => x,
                Err(e) => {
                    proof {
                        assert(!some_value_at(input@, pos as int)) by {
                            if some_value_at(input@, pos as int) {
                                lemma_dict_site(input@, pos as int, entries@, cur as int);
                            }
                        }
                    }
                    return Err(e);
                },
            };
            // a key seen before rejects the document
            let mut dup: bool = false;
            let mut j: usize = 0;
            while j < entries.len()
                invariant
                    j <= entries.len(),
                    dup ==> exists|t: int|
                        0 <= t < entries@.len() && (#[trigger] entries@[t]).0@ == key@,
                    !dup ==> forall|t: int| 0 <= t < j ==> entries@[t].0@ != key@,
                decreases entries.len() - j,
            {
                if bytes_eq(&entries[j].0, &key) {
                    dup = true;
                }
                j = j + 1;
            }
            if dup {
                proof {
                    assert(!some_value_at(input@, pos as int)) by {
                        if some_value_at(input@, pos as int) {
                            lemma_dict_site(input@, pos as int, entries@, cur as int);
                            assert(input@.subrange(cur as int, kend as int) == bstr_bytes(
                                key@,
                            ));
                            let t = choose|t: int|
                                0 <= t < entries@.len() && (#[trigger] entries@[t]).0@ == key@;
                            assert(entries@[t].0@ != key@);
                        }
                    }
                }
                return Err(BtError::MalformedBencode { at_offset: cur });
            }
            let (v, end) = match decode_value(input, kend) {
                Ok(x) => x,
                Err(e) => {
                    proof {
                        assert(!some_value_at(input@, pos as int)) by {
                            if some_value_at(input@, pos as int) {
                                lemma_dict_site(input@, pos as int, entries@, cur as int);
                                assert(input@.subrange(cur as int, kend as int) == bstr_bytes(
                                    key@,
                                ));
                                assert(some_value_at(input@, kend as int));
                            }
                        }
                    }
                    return Err(e);
                },
            };
            proof {
                lemma_enc_entries_push(entries@, (key, v));
                lemma_nodup_deep_entries_push(entries@, (key, v));
                assert(input@.subrange(pos + 1, end as int) =~= input@.subrange(
                    pos + 1,
                    cur as int,
                ) + input@.subrange(cur as int, kend as int) + input@.subrange(
                    kend as int,
                    end as int,
                ));
                assert forall|i1: int, j1: int|
                    0 <= i1 < j1 < entries@.push((key, v)).len() implies entries@.push(
                    (key, v),
                )[i1].0@ != entries@.push((key, v))[j1].0@ by {
                    if j1 < entries@.len() {
                        assert(entries@[i1].0@ != entries@[j1].0@);
                    } else {
                        assert(entries@[i1].0@ != key@);
                    }
                }
            }
            entries.push((key, v));
            cur = end;
        }
    } else {
        proof {
            assert(!some_value_at(input@, pos as int)) by {
                if some_value_at(input@, pos as int) {
                    let (v, end) = choose|v: Bencode, end: int|
                        #![trigger input@.subrange(pos as int, end), enc(v)]
                        pos < end <= input@.len() && input@.subrange(pos as int, end) == enc(v)
                            && nodup_deep(v) && decodable(v);
                    lemma_enc_first_byte(v);
                    assert(input@[pos as int] == input@.subrange(pos as int, end)[0]);
                }
            }
        }
        Err(BtError::MalformedBencode { at_offset: pos })
    }
}

/// A whole well-formed, machine-representable document.
pub open spec fn some_document(s: Seq<u8>) -> bool {
    exists|v: Bencode| #![trigger enc(v)] s == enc(v) && nodup_deep(v) && decodable(v)
}

/// Decodes a whole buffer as exactly one value; trailing bytes are an
/// error at their offset. Failure is complete: the buffer is then the
/// encoding of no well-formed, machine-representable value.
pub fn decode(input: &Vec<u8>) -> (r: Result<Bencode, BtError>)
    ensures
        match r {
            Ok(v) => input@ == enc(v) && nodup_deep(v),
            Err(e) => e is MalformedBencode && !some_document(input@),
        },
{
    match decode_value(input, 0) {
        Ok((v, end)) => {
            if end == input.len() {
                proof {
                    assert(input@.subrange(0, input@.len() as int) =~= input@);
                }
                Ok(v)
            } else {
                proof {
                    assert(!some_document(input@)) by {
                        if some_document(input@) {
                            let w = choose|w: Bencode| #![trigger enc(w)]
                                input@ == enc(w) && nodup_deep(w) && decodable(w);
                            assert(input@.subrange(0, input@.len() as int) =~= input@);
                            lemma_enc_first_byte(w);
                            lemma_enc_det(
                                input@,
                                0,
                                v,
                                end as int,
                                w,
                                input@.len() as int,
                            );
                        }
                    }
                }
                Err(BtError::MalformedBencode { at_offset: end })
            }
        },
        Err(e) => {
            proof {
                assert(!some_document(input@)) by {
                    if some_document(input@) {
                        let w = choose|w: Bencode| #![trigger enc(w)]
                            input@ == enc(w) && nodup_deep(w) && decodable(w);
                        lemma_enc_first_byte(w);
                        assert(input@.subrange(0, input@.len() as int) =~= input@);
                        assert(some_value_at(input@, 0));
                    }
                }
            }
            Err(e)
        },
    }
}

// ---------------------------------------------------------------------------
// Canonical encoding. Dictionary entries are emitted smallest key first, by
// repeatedly extracting the entry with the least key (leftmost on ties).
// ---------------------------------------------------------------------------

/// The position of the entry with the least key, leftmost on ties.
pub open spec fn min_key_idx(es: Seq<(Vec<u8>, Bencode)>) -> int
    recommends
        es.len() > 0,
    decreases es.len(),
{
    if es.len() <= 1 {
        0
    } else {
        let m = 1 + min_key_idx(es.drop_first());
        if lex_leq(es[0].0@, es[m].0@) {
            0
        } else {
            m
        }
    }
}

pub proof fn lemma_lex_refl(a: Seq<u8>)
    ensures
        lex_leq(a, a),
    decreases a.len(),
{
    if a.len() > 0 {
        lemma_lex_refl(a.drop_first());
    }
}

/// `min_key_idx` lands in range, on a least key, and left of every tie.
pub proof fn lemma_min_key_idx_props(es: Seq<(Vec<u8>, Bencode)>)
    requires
        es.len() > 0,
    ensures
        0 <= min_key_idx(es) < es.len(),
        forall|j: int|
            0 <= j < es.len() ==> lex_leq(es[min_key_idx(es)].0@, #[trigger] es[j].0@),
        forall|j: int| 0 <= j < min_key_idx(es) ==> !lex_leq(#[trigger] es[j].0@, es[min_key_idx(es)].0@),
    decreases es.len(),
{
    if es.len() == 1 {
        lemma_lex_refl(es[0].0@);
    } else {
        let d = es.drop_first();
        lemma_min_key_idx_props(d);
        let md = min_key_idx(d);
        let m = 1 + md;
        if lex_leq(es[0].0@, es[m].0@) {
            assert(min_key_idx(es) == 0);
            lemma_lex_refl(es[0].0@);
            assert forall|j: int| 0 <= j < es.len() implies lex_leq(
                es[0].0@,
                #[trigger] es[j].0@,
            ) by {
                if j > 0 {
                    assert(d[j - 1] == es[j]);
                    assert(lex_leq(d[md].0@, d[j - 1].0@));
                    lemma_lex_trans(es[0].0@, es[m].0@, es[j].0@);
                }
            }
        } else {
            assert(min_key_idx(es) == m);
            lemma_lex_total(es[0].0@, es[m].0@);
            assert forall|j: int| 0 <= j < es.len() implies lex_leq(
                es[m].0@,
                #[trigger] es[j].0@,
            ) by {
                if j > 0 {
                    assert(d[j - 1] == es[j]);
                    assert(lex_leq(d[md].0@, d[j - 1].0@));
                }
            }
            assert forall|j: int| 0 <= j < m implies !lex_leq(
                #[trigger] es[j].0@,
                es[m].0@,
            ) by {
                if j > 0 {
                    assert(d[j - 1] == es[j]);
                    assert(!lex_leq(d[j - 1].0@, d[md].0@));
                }
            }
        }
    }
}

/// `m` points at a least key and left of every tie.
pub open spec fn is_leftmost_min(es: Seq<(Vec<u8>, Bencode)>, m: int) -> bool {
    &&& 0 <= m < es.len()
    &&& forall|j: int| 0 <= j < es.len() ==> lex_leq(es[m].0@, #[trigger] es[j].0@)
    &&& forall|j: int| 0 <= j < m ==> !lex_leq(#[trigger] es[j].0@, es[m].0@)
}

/// Only one position fits that description, so an executable scan that
/// finds it has found `min_key_idx`.
pub proof fn lemma_leftmost_min_unique(es: Seq<(Vec<u8>, Bencode)>, m: int)
    requires
        is_leftmost_min(es, m),
    ensures
        m == min_key_idx(es),
{
    lemma_min_key_idx_props(es);
    let mk = min_key_idx(es);
    if m < mk {
        assert(lex_leq(es[m].0@, es[mk].0@));
        assert(!lex_leq(es[m].0@, es[mk].0@));
    }
    if m > mk {
        assert(lex_leq(es[mk].0@, es[m].0@));
        assert(!lex_leq(es[mk].0@, es[m].0@));
    }
}

/// The canonical wire bytes of a value: like `enc`, but every dictionary,
/// at every depth, is emitted in ascending byte-wise key order.
pub open spec fn encs(v: Bencode) -> Seq<u8>
    decreases bheight(v),
{
    match v {
        Bencode::Bytes(b) => bstr_bytes(b@),
        Bencode::Int(i) => seq![MARK_INT] + int_bytes(i as int) + seq![MARK_END],
        Bencode::List(items) => seq![MARK_LIST] + encs_list(items@) + seq![MARK_END],
        Bencode::Dict(entries) => seq![MARK_DICT] + encs_entries(entries@) + seq![MARK_END],
    }
}

pub open spec fn encs_list(items: Seq<Bencode>) -> Seq<u8>
    decreases bheight_list(items),
{
    if items.len() == 0 {
        Seq::empty()
    } else {
        encs(items[0]) + encs_list(items.drop_first())
    }
}

pub open spec fn encs_entries(es: Seq<(Vec<u8>, Bencode)>) -> Seq<u8>
    decreases bheight_entries(es),
    via encs_entries_dec
{
    if es.len() == 0 {
        Seq::empty()
    } else {
        let m = min_key_idx(es);
        bstr_bytes(es[m].0@) + encs(es[m].1) + encs_entries(es.remove(m))
    }
}

#[via_fn]
proof fn encs_entries_dec(es: Seq<(Vec<u8>, Bencode)>) {
    if es.len() > 0 {
        lemma_min_key_idx_props(es);
        lemma_bheight_entries_elem(es, min_key_idx(es));
        lemma_bheight_entries_remove(es, min_key_idx(es));
    }
}

pub proof fn lemma_encs_list_push(items: Seq<Bencode>, v: Bencode)
    ensures
        encs_list(items.push(v)) == encs_list(items) + encs(v),
    decreases items.len(),
{
    if items.len() == 0 {
        assert(items.push(v).drop_first() =~= Seq::<Bencode>::empty());
        assert(items.push(v)[0] == v);
        assert(encs_list(Seq::<Bencode>::empty()) == Seq::<u8>::empty());
        assert(encs_list(items.push(v)) =~= encs(v));
        assert(encs_list(items) + encs(v) =~= encs(v));
    } else {
        lemma_encs_list_push(items.drop_first(), v);
        assert(items.push(v).drop_first() =~= items.drop_first().push(v));
        assert(items.push(v)[0] == items[0]);
        assert(encs_list(items.push(v)) =~= encs_list(items) + encs(v));
    }
}

// ---------------------------------------------------------------------------
// Executable encoding.
// ---------------------------------------------------------------------------

/// Appends the decimal digits of `n`.
pub fn push_digits(out: &mut Vec<u8>, n: u64)
    ensures
        final(out)@ == old(out)@ + dec_digits(n as nat),
    decreases n,
{
    if n < 10 {
        out.push(DIGIT_ZERO + n as u8);
        proof {
            assert(out@ =~= old(out)@ + dec_digits(n as nat));
        }
    } else {
        push_digits(out, n / 10);
        let d: u8 = (n % 10) as u8;
        out.push(DIGIT_ZERO + d);
        proof {
            assert(out@ =~= old(out)@ + dec_digits(n as nat));
        }
    }
}

/// Whether `a` is lexicographically at or before `b`, by bytes.
pub fn lex_leq_bytes(a: &Vec<u8>, b: &Vec<u8>) -> (r: bool)
    ensures
        r == lex_leq(a@, b@),
{
    let mut i: usize = 0;
    proof {
        assert(a@.skip(0) =~= a@);
        assert(b@.skip(0) =~= b@);
    }
    loop
        invariant
            i <= a.len(),
            i <= b.len(),
            lex_leq(a@, b@) == lex_leq(a@.skip(i as int), b@.skip(i as int)),
        decreases a.len() - i,
    {
        if i == a.len() {
            assert(a@.skip(i as int) =~= Seq::<u8>::empty());
            return true;
        }
        if i == b.len() {
            assert(b@.skip(i as int) =~= Seq::<u8>::empty());
            assert(a@.skip(i as int).len() > 0);
            return false;
        }
        let x = a[i];
        let y = b[i];
        proof {
            assert(a@.skip(i as int)[0] == a@[i as int]);
            assert(b@.skip(i as int)[0] == b@[i as int]);
            assert(a@.skip(i as int).drop_first() =~= a@.skip(i + 1));
            assert(b@.skip(i as int).drop_first() =~= b@.skip(i + 1));
        }
        if x < y {
            return true;
        }
        if x > y {
            return false;
        }
        i = i + 1;
    }
}

/// Encodes a value canonically: strings and integers literally, lists in
/// order, dictionaries in ascending byte-wise key order at every depth.
pub fn encode(v: &Bencode) -> (r: Vec<u8>)
    ensures
        r@ == encs(*v),
    decreases bheight(*v),
{
    let mut out: Vec<u8> = Vec::new();
    match v {
        Bencode::Bytes(b) => {
            push_digits(&mut out, b.len() as u64);
            out.push(COLON);
            out.extend_from_slice(b.as_slice());
            proof {
                assert(out@ =~= bstr_bytes(b@));
            }
        },
        Bencode::Int(i) => {
            out.push(MARK_INT);
            if *i < 0 {
                out.push(MINUS);
                let mag: u64 = if *i == i64::MIN {
                    9223372036854775808u64
                } else {
                    (-*i) as u64
                };
                push_digits(&mut out, mag);
                proof {
                    assert(int_bytes(*i as int) =~= seq![MINUS] + dec_digits(mag as nat));
                    assert(out@ =~= seq![MARK_INT] + int_bytes(*i as int));
                }
            } else {
                push_digits(&mut out, *i as u64);
                proof {
                    assert(out@ =~= seq![MARK_INT] + int_bytes(*i as int));
                }
            }
            out.push(MARK_END);
            proof {
                assert(out@ =~= seq![MARK_INT] + int_bytes(*i as int) + seq![MARK_END]);
            }
        },
        Bencode::List(items) => {
            out.push(MARK_LIST);
            let mut k: usize = 0;
            proof {
                assert(items@.take(0) =~= Seq::<Bencode>::empty());
                assert(out@ =~= seq![MARK_LIST] + encs_list(items@.take(0)));
            }
            while k < items.len()
                invariant
                    k <= items.len(),
                    bheight_list(items@) < bheight(*v),
                    out@ == seq![MARK_LIST] + encs_list(items@.take(k as int)),
                decreases items.len() - k,
            {
                proof {
                    lemma_bheight_list_elem(items@, k as int);
                }
                let mut sub = encode(&items[k]);
                out.append(&mut sub);
                proof {
                    lemma_encs_list_push(items@.take(k as int), items@[k as int]);
                    assert(items@.take(k + 1) =~= items@.take(k as int).push(items@[k as int]));
                    assert(out@ =~= seq![MARK_LIST] + encs_list(items@.take(k + 1)));
                }
                k = k + 1;
            }
            proof {
                assert(items@.take(items@.len() as int) =~= items@);
            }
            out.push(MARK_END);
            proof {
                assert(out@ =~= seq![MARK_LIST] + encs_list(items@) + seq![MARK_END]);
            }
        },
        Bencode::Dict(entries) => {
            out.push(MARK_DICT);
            let n = entries.len();
            let mut remaining: Vec<usize> = Vec::new();
            let mut idx: usize = 0;
            while idx < n
                invariant
                    idx <= n,
                    remaining@.len() == idx,
                    forall|t: int| 0 <= t < idx ==> remaining@[t] == t,
                decreases n - idx,
            {
                remaining.push(idx);
                idx = idx + 1;
            }
            proof {
                assert(remaining@.map_values(|u: usize| entries@[u as int]) =~= entries@);
                assert(out@ + encs_entries(entries@) =~= seq![MARK_DICT] + encs_entries(
                    entries@,
                ));
            }
            while remaining.len() > 0
                invariant
                    bheight_entries(entries@) < bheight(*v),
                    forall|t: int|
                        0 <= t < remaining@.len() ==> (#[trigger] remaining@[t]) < entries@.len(),
                    out@ + encs_entries(remaining@.map_values(|u: usize| entries@[u as int]))
                        == seq![MARK_DICT] + encs_entries(entries@),
                decreases remaining.len(),
            {
                let ghost rem_es = remaining@.map_values(|u: usize| entries@[u as int]);
                // find the leftmost least key among the remaining entries
                let mut best: usize = 0;
                let mut t: usize = 1;
                proof {
                    lemma_lex_refl(rem_es[0].0@);
                }
                while t < remaining.len()
                    invariant
                        remaining@.len() > 0,
                        forall|q: int|
                            0 <= q < remaining@.len() ==> (#[trigger] remaining@[q])
                                < entries@.len(),
                        rem_es == remaining@.map_values(|u: usize| entries@[u as int]),
                        best < t <= remaining@.len(),
                        forall|j: int|
                            0 <= j < t ==> lex_leq(
                                rem_es[best as int].0@,
                                (#[trigger] rem_es[j]).0@,
                            ),
                        forall|j: int|
                            0 <= j < best ==> !lex_leq(
                                (#[trigger] rem_es[j]).0@,
                                rem_es[best as int].0@,
                            ),
                    decreases remaining.len() - t,
                {
                    let cand = remaining[t];
                    let cur = remaining[best];
                    let le = lex_leq_bytes(&entries[cand].0, &entries[cur].0);
                    let ge = lex_leq_bytes(&entries[cur].0, &entries[cand].0);
                    if le && !ge {
                        proof {
                            let kt = rem_es[t as int].0@;
                            let kb = rem_es[best as int].0@;
                            assert forall|j: int| 0 <= j < t + 1 implies lex_leq(
                                kt,
                                (#[trigger] rem_es[j]).0@,
                            ) by {
                                if j < t {
                                    lemma_lex_trans(kt, kb, rem_es[j].0@);
                                } else {
                                    lemma_lex_refl(kt);
                                }
                            }
                            assert forall|j: int| 0 <= j < t implies !lex_leq(
                                (#[trigger] rem_es[j]).0@,
                                kt,
                            ) by {
                                if lex_leq(rem_es[j].0@, kt) {
                                    lemma_lex_trans(rem_es[j].0@, kt, kb);
                                    lemma_lex_antisym(rem_es[j].0@, kb);
                                    lemma_lex_antisym(kt, kb);
                                }
                            }
                        }
                        best = t;
                    } else {
                        proof {
                            let kt = rem_es[t as int].0@;
                            let kb = rem_es[best as int].0@;
                            if !le {
                                lemma_lex_total(kt, kb);
                            } else {
                                lemma_lex_antisym(kt, kb);
                                lemma_lex_refl(kb);
                            }
                            assert(lex_leq(kb, kt));
                        }
                    }
                    t = t + 1;
                }
                proof {
                    lemma_leftmost_min_unique(rem_es, best as int);
                }
                let oi = remaining[best];
                push_digits(&mut out, entries[oi].0.len() as u64);
                out.push(COLON);
                out.extend_from_slice(entries[oi].0.as_slice());
                proof {
                    lemma_bheight_entries_elem(entries@, oi as int);
                }
                let mut sub = encode(&entries[oi].1);
                out.append(&mut sub);
                remaining.remove(best);
                proof {
                    assert(remaining@.map_values(|u: usize| entries@[u as int]) =~= rem_es.remove(
                        best as int,
                    ));
                    assert(encs_entries(rem_es) == bstr_bytes(rem_es[best as int].0@) + encs(
                        rem_es[best as int].1,
                    ) + encs_entries(rem_es.remove(best as int)));
                    assert(out@ + encs_entries(rem_es.remove(best as int)) =~= seq![MARK_DICT]
                        + encs_entries(entries@));
                }
            }
            proof {
                assert(remaining@.map_values(|u: usize| entries@[u as int])
                    =~= Seq::<(Vec<u8>, Bencode)>::empty());
                assert(encs_entries(Seq::<(Vec<u8>, Bencode)>::empty()) == Seq::<u8>::empty());
                assert(out@ =~= seq![MARK_DICT] + encs_entries(entries@));
            }
            out.push(MARK_END);
            proof {
                assert(out@ =~= seq![MARK_DICT] + encs_entries(entries@) + seq![MARK_END]);
            }
        },
    }
    out
}

// ---------------------------------------------------------------------------
// Canonical form, and the laws the codec obeys.
// ---------------------------------------------------------------------------

/// Adjacent keys strictly ascend.
pub open spec fn keys_ascending(es: Seq<(Vec<u8>, Bencode)>) -> bool
    decreases es.len(),
{
    if es.len() <= 1 {
        true
    } else {
        lex_lt(es[0].0@, es[1].0@) && keys_ascending(es.drop_first())
    }
}

/// The value is in canonical form: every dictionary at every depth keeps
/// its entries in strictly ascending byte-wise key order.
pub open spec fn canon(v: Bencode) -> bool
    decreases v,
{
    match v {
        Bencode::Bytes(_) => true,
        Bencode::Int(_) => true,
        Bencode::List(items) => canon_list(items@),
        Bencode::Dict(entries) => keys_ascending(entries@) && canon_entries(entries@),
    }
}

pub open spec fn canon_list(items: Seq<Bencode>) -> bool
    decreases items,
{
    if items.len() == 0 {
        true
    } else {
        canon(items[0]) && canon_list(items.drop_first())
    }
}

pub open spec fn canon_entries(es: Seq<(Vec<u8>, Bencode)>) -> bool
    decreases es,
{
    if es.len() == 0 {
        true
    } else {
        canon(es[0].1) && canon_entries(es.drop_first())
    }
}

pub proof fn lemma_lex_lt_trans(a: Seq<u8>, b: Seq<u8>, c: Seq<u8>)
    requires
        lex_lt(a, b),
        lex_lt(b, c),
    ensures
        lex_lt(a, c),
{
    lemma_lex_trans(a, b, c);
    if a == c {
        lemma_lex_antisym(a, b);
    }
}

/// Strictly ascending adjacent keys order every pair of positions.
pub proof fn lemma_keys_ascending_all(es: Seq<(Vec<u8>, Bencode)>)
    requires
        keys_ascending(es),
    ensures
        forall|i: int, j: int|
            0 <= i < j < es.len() ==> lex_lt((#[trigger] es[i]).0@, (#[trigger] es[j]).0@),
    decreases es.len(),
{
    if es.len() > 1 {
        let d = es.drop_first();
        lemma_keys_ascending_all(d);
        assert forall|i: int, j: int| 0 <= i < j < es.len() implies lex_lt(
            (#[trigger] es[i]).0@,
            (#[trigger] es[j]).0@,
        ) by {
            if i == 0 {
                if j == 1 {
                } else {
                    assert(d[0] == es[1]);
                    assert(d[j - 1] == es[j]);
                    assert(lex_lt(d[0].0@, d[j - 1].0@));
                    lemma_lex_lt_trans(es[0].0@, es[1].0@, es[j].0@);
                }
            } else {
                assert(d[i - 1] == es[i]);
                assert(d[j - 1] == es[j]);
                assert(lex_lt(d[i - 1].0@, d[j - 1].0@));
            }
        }
    }
}

/// On a value that is already canonical, the canonical encoder emits
/// exactly the wire bytes of the stored order. Together with the decoder's
/// contract this is the byte-identical round trip: when `decode` consumes
/// bytes `x` yielding `v`, those bytes are `enc(v)`, and if `v` is
/// canonical, `encode(v)` emits `encs(v) == enc(v) == x`.
pub proof fn lemma_canon_encs(v: Bencode)
    requires
        canon(v),
    ensures
        encs(v) == enc(v),
    decreases bheight(v),
{
    match v {
        Bencode::Bytes(_) => {},
        Bencode::Int(_) => {},
        Bencode::List(items) => {
            lemma_canon_encs_list(items@);
        },
        Bencode::Dict(entries) => {
            lemma_canon_encs_entries(entries@);
        },
    }
}

pub proof fn lemma_canon_encs_list(items: Seq<Bencode>)
    requires
        canon_list(items),
    ensures
        encs_list(items) == enc_list(items),
    decreases bheight_list(items),
{
    if items.len() > 0 {
        lemma_canon_encs(items[0]);
        lemma_canon_encs_list(items.drop_first());
    }
}

pub proof fn lemma_canon_encs_entries(es: Seq<(Vec<u8>, Bencode)>)
    requires
        keys_ascending(es),
        canon_entries(es),
    ensures
        encs_entries(es) == enc_entries(es),
    decreases bheight_entries(es),
{
    if es.len() > 0 {
        lemma_keys_ascending_all(es);
        lemma_lex_refl(es[0].0@);
        assert(is_leftmost_min(es, 0));
        lemma_leftmost_min_unique(es, 0);
        assert(min_key_idx(es) == 0);
        lemma_bheight_entries_elem(es, 0);
        lemma_canon_encs(es[0].1);
        assert(es.remove(0) =~= es.drop_first());
        lemma_bheight_entries_remove(es, 0);
        lemma_canon_encs_entries(es.drop_first());
    }
}

/// The byte-identical round trip on canonical input: if bytes `x` are the
/// wire form of a canonical value `v` — as the decoder's contract grants of
/// what it returns — then the canonical encoder reproduces `x` exactly.
pub proof fn lemma_round_trip(x: Seq<u8>, v: Bencode)
    requires
        x == enc(v),
        canon(v),
    ensures
        encs(v) == x,
{
    lemma_canon_encs(v);
}

// ---------------------------------------------------------------------------
// The order in which the canonical encoder emits keys.
// ---------------------------------------------------------------------------

/// The key sequence the canonical encoder emits for an entry run.
pub open spec fn encs_key_order(es: Seq<(Vec<u8>, Bencode)>) -> Seq<Seq<u8>>
    decreases es.len(),
    via encs_key_order_dec
{
    if es.len() == 0 {
        Seq::empty()
    } else {
        let m = min_key_idx(es);
        seq![es[m].0@] + encs_key_order(es.remove(m))
    }
}

#[via_fn]
proof fn encs_key_order_dec(es: Seq<(Vec<u8>, Bencode)>) {
    if es.len() > 0 {
        lemma_min_key_idx_props(es);
    }
}

/// Every emitted key is the key of some entry.
pub proof fn lemma_encs_key_order_elems(es: Seq<(Vec<u8>, Bencode)>)
    ensures
        encs_key_order(es).len() == es.len(),
        forall|t: int|
            0 <= t < es.len() ==> exists|j: int|
                0 <= j < es.len() && #[trigger] encs_key_order(es)[t] == es[j].0@,
    decreases es.len(),
{
    if es.len() > 0 {
        lemma_min_key_idx_props(es);
        let m = min_key_idx(es);
        let r = es.remove(m);
        lemma_encs_key_order_elems(r);
        assert forall|t: int| 0 <= t < es.len() implies exists|j: int|
            0 <= j < es.len() && #[trigger] encs_key_order(es)[t] == es[j].0@ by {
            if t == 0 {
                assert(encs_key_order(es)[0] == es[m].0@);
            } else {
                let jr = choose|jr: int| 0 <= jr < r.len() && encs_key_order(r)[t - 1] == r[jr].0@;
                let j = if jr < m {
                    jr
                } else {
                    jr + 1
                };
                assert(r[jr] == es[j]);
                assert(encs_key_order(es)[t] == encs_key_order(r)[t - 1]);
            }
        }
    }
}

/// The canonical encoder enumerates dictionary keys in ascending
/// byte-wise lexicographic order.
pub proof fn lemma_encs_key_order_sorted(es: Seq<(Vec<u8>, Bencode)>)
    ensures
        forall|i: int, j: int|
            0 <= i < j < encs_key_order(es).len() ==> lex_leq(
                #[trigger] encs_key_order(es)[i],
                #[trigger] encs_key_order(es)[j],
            ),
    decreases es.len(),
{
    lemma_encs_key_order_elems(es);
    if es.len() > 0 {
        lemma_min_key_idx_props(es);
        let m = min_key_idx(es);
        let r = es.remove(m);
        lemma_encs_key_order_sorted(r);
        lemma_encs_key_order_elems(r);
        assert forall|i: int, j: int|
            0 <= i < j < encs_key_order(es).len() implies lex_leq(
            #[trigger] encs_key_order(es)[i],
            #[trigger] encs_key_order(es)[j],
        ) by {
            if i == 0 {
                let jr = choose|jr: int| 0 <= jr < r.len() && encs_key_order(r)[j - 1] == r[jr].0@;
                let jo = if jr < m {
                    jr
                } else {
                    jr + 1
                };
                assert(r[jr] == es[jo]);
                assert(lex_leq(es[m].0@, es[jo].0@));
                assert(encs_key_order(es)[j] == encs_key_order(r)[j - 1]);
            } else {
                assert(encs_key_order(es)[i] == encs_key_order(r)[i - 1]);
                assert(encs_key_order(es)[j] == encs_key_order(r)[j - 1]);
            }
        }
    }
}

// ---------------------------------------------------------------------------
// Dictionary lookup, first match from the front.
// ---------------------------------------------------------------------------

/// The value at key `k`: the first entry with that key, if any.
pub open spec fn dict_get(es: Seq<(Vec<u8>, Bencode)>, k: Seq<u8>) -> Option<Bencode>
    decreases es.len(),
{
    if es.len() == 0 {
        Option::None
    } else if es[0].0@ == k {
        Option::Some(es[0].1)
    } else {
        dict_get(es.drop_first(), k)
    }
}

/// What a successful or failed lookup says about the entries.
pub proof fn lemma_dict_get_chars(es: Seq<(Vec<u8>, Bencode)>, k: Seq<u8>)
    requires
        nodup_keys(es),
    ensures
        dict_get(es, k) is None <==> (forall|i: int| 0 <= i < es.len() ==> (#[trigger] es[i]).0@ != k),
        forall|v: Bencode|
            #[trigger] dict_get(es, k) == Option::Some(v) <==> exists|i: int|
                0 <= i < es.len() && (#[trigger] es[i]).0@ == k && es[i].1 == v,
    decreases es.len(),
{
    if es.len() > 0 {
        let d = es.drop_first();
        assert(forall|i: int| 0 <= i < d.len() ==> #[trigger] d[i] == es[i + 1]);
        assert forall|i: int, j: int| 0 <= i < j < d.len() implies (#[trigger] d[i]).0@ != (
        #[trigger] d[j]).0@ by {
            assert(es[i + 1].0@ != es[j + 1].0@);
        }
        lemma_dict_get_chars(d, k);
        if dict_get(es, k) is None {
            assert(es[0].0@ != k);
            assert forall|i: int| 0 <= i < es.len() implies (#[trigger] es[i]).0@ != k by {
                if i > 0 {
                    assert(d[i - 1] == es[i]);
                }
            }
        }
        if forall|i: int| 0 <= i < es.len() ==> (#[trigger] es[i]).0@ != k {
            assert(es[0].0@ != k);
            assert forall|i: int| 0 <= i < d.len() implies (#[trigger] d[i]).0@ != k by {
                assert(es[i + 1].0@ != k);
            }
            assert(dict_get(d, k) is None);
        }
        if es[0].0@ == k {
            assert forall|v: Bencode| #[trigger] dict_get(es, k) == Option::Some(v) implies exists|
                i: int,
            | 0 <= i < es.len() && (#[trigger] es[i]).0@ == k && es[i].1 == v by {
                assert(es[0].0@ == k && es[0].1 == v);
            }
        } else {
            assert forall|v: Bencode|
                (exists|i: int| 0 <= i < es.len() && (#[trigger] es[i]).0@ == k && es[i].1 == v)
                implies #[trigger] dict_get(es, k) == Option::Some(v) by {
                let i = choose|i: int| 0 <= i < es.len() && (#[trigger] es[i]).0@ == k && es[i].1 == v;
                assert(i > 0);
                assert(d[i - 1].0@ == k && d[i - 1].1 == v);
            }
        }
    }
}

/// Looking a key up does not depend on the order in which a dictionary's
/// entries were stored: two entry runs holding the same entries — however
/// arranged — with no duplicate keys answer every lookup alike. This is
/// what makes a derived quantity such as the info-hash independent of the
/// key order of the surrounding document.
pub proof fn lemma_dict_get_order_independent(
    es1: Seq<(Vec<u8>, Bencode)>,
    es2: Seq<(Vec<u8>, Bencode)>,
    k: Seq<u8>,
)
    requires
        nodup_keys(es1),
        nodup_keys(es2),
        es1.to_multiset() == es2.to_multiset(),
    ensures
        dict_get(es1, k) == dict_get(es2, k),
{
    broadcast use vstd::seq_lib::group_to_multiset_ensures;

    lemma_dict_get_chars(es1, k);
    lemma_dict_get_chars(es2, k);
    match dict_get(es1, k) {
        Option::None => {
            if dict_get(es2, k) is Some {
                let v = dict_get(es2, k)->Some_0;
                assert(dict_get(es2, k) == Option::Some(v));
                let i = choose|i: int|
                    0 <= i < es2.len() && (#[trigger] es2[i]).0@ == k && es2[i].1 == v;
                assert(es2.contains(es2[i]));
                assert(es1.to_multiset().count(es2[i]) > 0);
                assert(es1.contains(es2[i]));
                let j = choose|j: int| 0 <= j < es1.len() && es1[j] == es2[i];
                assert(es1[j].0@ == k);
            }
        },
        Option::Some(v) => {
            let i = choose|i: int| 0 <= i < es1.len() && (#[trigger] es1[i]).0@ == k && es1[i].1 == v;
            assert(es1.contains(es1[i]));
            assert(es2.to_multiset().count(es1[i]) > 0);
            assert(es2.contains(es1[i]));
            let j = choose|j: int| 0 <= j < es2.len() && es2[j] == es1[i];
            assert(es2[j].0@ == k && es2[j].1 == v);
            assert(dict_get(es2, k) == Option::Some(v));
        },
    }
}

/// Finds the value stored at `k`, scanning entries from the front.
pub fn dict_find<'a>(entries: &'a Vec<(Vec<u8>, Bencode)>, k: &Vec<u8>) -> (r: Option<
    &'a Bencode,
>)
    ensures
        match r {
            Some(b) => dict_get(entries@, k@) == Option::Some(*b),
            None => dict_get(entries@, k@) is None,
        },
{
    let mut i: usize = 0;
    proof {
        assert(entries@.skip(0) =~= entries@);
    }
    loop
        invariant
            i <= entries.len(),
            dict_get(entries@, k@) == dict_get(entries@.skip(i as int), k@),
        decreases entries.len() - i,
    {
        if i == entries.len() {
            proof {
                assert(entries@.skip(i as int) =~= Seq::<(Vec<u8>, Bencode)>::empty());
            }
            return None;
        }
        proof {
            assert(entries@.skip(i as int)[0] == entries@[i as int]);
            assert(entries@.skip(i as int).drop_first() =~= entries@.skip(i + 1));
        }
        if bytes_eq(&entries[i].0, k) {
            return Some(&entries[i].1);
        }
        i = i + 1;
    }
}


/// A fresh copy of the bytes.
pub fn bytes_copy(src: &Vec<u8>) -> (r: Vec<u8>)
    ensures
        r@ == src@,
{
    let mut r: Vec<u8> = Vec::new();
    let mut i: usize = 0;
    while i < src.len()
        invariant
            i <= src.len(),
            r@ == src@.subrange(0, i as int),
        decreases src.len() - i,
    {
        r.push(src[i]);
        proof {
            assert(src@.subrange(0, i + 1) =~= src@.subrange(0, i as int).push(src@[i as int]));
        }
        i = i + 1;
    }
    proof {
        assert(src@.subrange(0, src@.len() as int) =~= src@);
    }
    r
}

/// A fresh copy of `len` bytes starting at `start`.
pub fn bytes_slice(src: &Vec<u8>, start: usize, len: usize) -> (r: Vec<u8>)
    requires
        start + len <= src.len(),
    ensures
        r@ == src@.subrange(start as int, start + len),
{
    let mut r: Vec<u8> = Vec::new();
    let mut i: usize = 0;
    while i < len
        invariant
            i <= len,
            start + len <= src.len(),
            r@ == src@.subrange(start as int, start + i),
        decreases len - i,
    {
        r.push(src[start + i]);
        proof {
            assert(src@.subrange(start as int, start + i + 1) =~= src@.subrange(
                start as int,
                start + i,
            ).push(src@[start + i]));
        }
        i = i + 1;
    }
    r
}


/// A run whose elements are each canonical is canonical as a run.
pub proof fn lemma_canon_list_all(items: Seq<Bencode>)
    requires
        forall|i: int| 0 <= i < items.len() ==> canon(#[trigger] items[i]),
    ensures
        canon_list(items),
    decreases items.len(),
{
    if items.len() > 0 {
        let d = items.drop_first();
        assert(forall|i: int| 0 <= i < d.len() ==> #[trigger] d[i] == items[i + 1]);
        lemma_canon_list_all(d);
    }
}

/// An entry run whose values are each canonical is canonical as a run.
pub proof fn lemma_canon_entries_all(es: Seq<(Vec<u8>, Bencode)>)
    requires
        forall|i: int| 0 <= i < es.len() ==> canon((#[trigger] es[i]).1),
    ensures
        canon_entries(es),
    decreases es.len(),
{
    if es.len() > 0 {
        let d = es.drop_first();
        assert(forall|i: int| 0 <= i < d.len() ==> #[trigger] d[i] == es[i + 1]);
        lemma_canon_entries_all(d);
    }
}

// ---------------------------------------------------------------------------
// Decimal digit strings: every byte a digit, the value they spell, and
// the facts that make the decoder's failures final. They support the
// decoder's completeness clause: it fails only on input that is the
// encoding of nothing.
// ---------------------------------------------------------------------------

/// Every byte of the run is an ASCII digit.
pub open spec fn all_digits(s: Seq<u8>) -> bool {
    forall|i: int| 0 <= i < s.len() ==> is_ascii_digit(#[trigger] s[i])
}

/// The number a digit string spells.
pub open spec fn digits_val(s: Seq<u8>) -> int
    decreases s.len(),
{
    if s.len() == 0 {
        0
    } else {
        digits_val(s.drop_last()) * 10 + (s.last() - DIGIT_ZERO)
    }
}

pub proof fn lemma_digits_val_nonneg(s: Seq<u8>)
    requires
        all_digits(s),
    ensures
        digits_val(s) >= 0,
    decreases s.len(),
{
    if s.len() > 0 {
        assert(forall|i: int| 0 <= i < s.drop_last().len() ==> s.drop_last()[i] == s[i]);
        lemma_digits_val_nonneg(s.drop_last());
        assert(digits_val(s.drop_last()) * 10 >= 0) by (nonlinear_arith)
            requires
                digits_val(s.drop_last()) >= 0,
        ;
    }
}

/// `dec_digits` writes digits, spells its own number back, and starts
/// with a zero digit exactly for the number zero.
pub proof fn lemma_dec_digits_facts(n: nat)
    ensures
        dec_digits(n).len() >= 1,
        all_digits(dec_digits(n)),
        digits_val(dec_digits(n)) == n,
        dec_digits(n)[0] == DIGIT_ZERO <==> n == 0,
    decreases n,
{
    if n < 10 {
        assert(dec_digits(n) =~= seq![(DIGIT_ZERO + n) as u8]);
        assert(dec_digits(n).drop_last() =~= Seq::<u8>::empty());
        assert(digits_val(Seq::<u8>::empty()) == 0);
        assert(digits_val(dec_digits(n)) == n);
    } else {
        lemma_dec_digits_facts(n / 10);
        let d = dec_digits(n / 10);
        let w = dec_digits(n);
        assert(w == d.push((DIGIT_ZERO + n % 10) as u8));
        assert(w.drop_last() =~= d);
        assert(w.last() == (DIGIT_ZERO + n % 10) as u8);
        assert(digits_val(w) == (n / 10) * 10 + n % 10);
        assert((n / 10) * 10 + n % 10 == n) by (nonlinear_arith);
        assert forall|i: int| 0 <= i < w.len() implies is_ascii_digit(#[trigger] w[i]) by {
            if i < d.len() {
                assert(w[i] == d[i]);
            }
        }
        assert(w[0] == d[0]);
        assert(n / 10 >= 1);
    }
}

/// A longer digit run spells at least what any of its prefixes spells.
pub proof fn lemma_digits_val_prefix(s: Seq<u8>, k: int)
    requires
        all_digits(s),
        0 <= k <= s.len(),
    ensures
        digits_val(s.take(k)) <= digits_val(s),
    decreases s.len() - k,
{
    assert(forall|i: int| 0 <= i < k ==> s.take(k)[i] == s[i]);
    if k == s.len() {
        assert(s.take(k) =~= s);
    } else {
        lemma_digits_val_prefix(s, k + 1);
        let t = s.take(k + 1);
        assert(t.drop_last() =~= s.take(k));
        assert(t.last() == s[k]);
        lemma_digits_val_nonneg(s.take(k));
        assert(digits_val(s.take(k)) * 10 >= digits_val(s.take(k))) by (nonlinear_arith)
            requires
                digits_val(s.take(k)) >= 0,
        ;
        assert(digits_val(s.take(k)) <= digits_val(t));
    }
}

/// What the first byte of a wire encoding can be: a digit for a byte
/// string, the matching marker otherwise. In particular it is never the
/// terminator byte.
pub proof fn lemma_enc_first_byte(v: Bencode)
    ensures
        enc(v).len() >= 2,
        v is Bytes ==> is_ascii_digit(enc(v)[0]),
        v is Int ==> enc(v)[0] == MARK_INT,
        v is List ==> enc(v)[0] == MARK_LIST,
        v is Dict ==> enc(v)[0] == MARK_DICT,
        enc(v)[0] != MARK_END,
        enc(v)[0] != COLON,
{
    match v {
        Bencode::Bytes(b) => {
            lemma_dec_digits_facts(b@.len());
            assert(enc(v)[0] == dec_digits(b@.len())[0]);
        },
        Bencode::Int(_) => {},
        Bencode::List(_) => {},
        Bencode::Dict(_) => {},
    }
}

// ---------------------------------------------------------------------------
// Parsing is deterministic: at a given position, every value encoding
// spans the same bytes. This is what lets the decoder's failures be
// final: wherever its one candidate parse dies, no other parse existed.
// ---------------------------------------------------------------------------

/// An integer body never contains the terminator byte.
proof fn lemma_int_bytes_no_end(i: int)
    ensures
        forall|t: int| 0 <= t < int_bytes(i).len() ==> #[trigger] int_bytes(i)[t] != MARK_END,
        int_bytes(i).len() >= 1,
{
    if i < 0 {
        lemma_dec_digits_facts((-i) as nat);
        assert forall|t: int| 0 <= t < int_bytes(i).len() implies #[trigger] int_bytes(i)[t]
            != MARK_END by {
            if t > 0 {
                assert(int_bytes(i)[t] == dec_digits((-i) as nat)[t - 1]);
                assert(is_ascii_digit(dec_digits((-i) as nat)[t - 1]));
            }
        }
    } else {
        lemma_dec_digits_facts(i as nat);
        assert forall|t: int| 0 <= t < int_bytes(i).len() implies #[trigger] int_bytes(i)[t]
            != MARK_END by {
            assert(is_ascii_digit(dec_digits(i as nat)[t]));
        }
    }
}

/// Two byte-string encodings starting at the same position are the same
/// string over the same span.
proof fn lemma_bstr_det(s: Seq<u8>, a: int, b1: Seq<u8>, e1: int, b2: Seq<u8>, e2: int)
    requires
        0 <= a < e1 <= s.len(),
        a < e2 <= s.len(),
        s.subrange(a, e1) == bstr_bytes(b1),
        s.subrange(a, e2) == bstr_bytes(b2),
    ensures
        e1 == e2,
        b1 == b2,
{
    lemma_bstr_shape(s, a, e1, b1);
    lemma_bstr_shape(s, a, e2, b2);
    lemma_dec_digits_facts(b1.len());
    lemma_dec_digits_facts(b2.len());
    let c1 = a + dec_digits(b1.len()).len();
    let c2 = a + dec_digits(b2.len()).len();
    if c1 < c2 {
        assert(is_ascii_digit(s.subrange(a, c2)[c1 - a]));
        assert(s.subrange(a, c2)[c1 - a] == s[c1]);
        assert(false);
    }
    if c2 < c1 {
        assert(is_ascii_digit(s.subrange(a, c1)[c2 - a]));
        assert(s.subrange(a, c1)[c2 - a] == s[c2]);
        assert(false);
    }
    assert(digits_val(s.subrange(a, c1)) == b1.len());
    assert(digits_val(s.subrange(a, c2)) == b2.len());
    assert(b1.len() == b2.len());
    assert(b1 =~= b2) by {
        assert(forall|t: int|
            0 <= t < b1.len() ==> #[trigger] b1[t] == s.subrange(a, e1)[c1 - a + 1 + t]);
        assert(forall|t: int|
            0 <= t < b2.len() ==> #[trigger] b2[t] == s.subrange(a, e2)[c2 - a + 1 + t]);
    }
}

/// Every encoding of a value at one position spans the same bytes.
proof fn lemma_enc_det(s: Seq<u8>, a: int, v1: Bencode, e1: int, v2: Bencode, e2: int)
    requires
        0 <= a < e1 <= s.len(),
        a < e2 <= s.len(),
        s.subrange(a, e1) == enc(v1),
        s.subrange(a, e2) == enc(v2),
    ensures
        e1 == e2,
    decreases e1 - a, 0int,
{
    lemma_enc_first_byte(v1);
    lemma_enc_first_byte(v2);
    assert(s[a] == enc(v1)[0]);
    assert(s[a] == enc(v2)[0]);
    match (v1, v2) {
        (Bencode::Bytes(b1), Bencode::Bytes(b2)) => {
            lemma_bstr_det(s, a, b1@, e1, b2@, e2);
        },
        (Bencode::Int(i1), Bencode::Int(i2)) => {
            lemma_int_bytes_no_end(i1 as int);
            lemma_int_bytes_no_end(i2 as int);
            assert(s[e1 - 1] == enc(v1)[e1 - 1 - a]);
            assert(s[e1 - 1] == MARK_END);
            assert(s[e2 - 1] == enc(v2)[e2 - 1 - a]);
            assert(s[e2 - 1] == MARK_END);
            if e1 < e2 {
                assert(s[e1 - 1] == enc(v2)[e1 - 1 - a]);
                if e1 - 1 == a {
                    assert(enc(v2)[0] == MARK_INT);
                } else {
                    assert(enc(v2)[e1 - 1 - a] == int_bytes(i2 as int)[e1 - 2 - a]);
                }
                assert(false);
            }
            if e2 < e1 {
                assert(s[e2 - 1] == enc(v1)[e2 - 1 - a]);
                if e2 - 1 == a {
                    assert(enc(v1)[0] == MARK_INT);
                } else {
                    assert(enc(v1)[e2 - 1 - a] == int_bytes(i1 as int)[e2 - 2 - a]);
                }
                assert(false);
            }
        },
        (Bencode::List(items1), Bencode::List(items2)) => {
            let run1 = enc_list(items1@);
            let run2 = enc_list(items2@);
            assert(enc(v1) == seq![MARK_LIST] + run1 + seq![MARK_END]);
            assert(enc(v2) == seq![MARK_LIST] + run2 + seq![MARK_END]);
            assert(s.subrange(a, e1).len() == e1 - a);
            assert(s.subrange(a, e2).len() == e2 - a);
            assert(run1.len() == e1 - a - 2);
            assert(run2.len() == e2 - a - 2);
            assert(s.subrange(a + 1, e1 - 1) =~= run1) by {
                assert forall|t: int| 0 <= t < run1.len() implies s.subrange(a + 1, e1 - 1)[t]
                    == run1[t] by {
                    assert(s.subrange(a, e1)[t + 1] == (seq![MARK_LIST] + run1 + seq![
                        MARK_END,
                    ])[t + 1]);
                    assert((seq![MARK_LIST] + run1 + seq![MARK_END])[t + 1] == (seq![MARK_LIST]
                        + run1)[t + 1]);
                    assert((seq![MARK_LIST] + run1)[t + 1] == run1[t]);
                }
            }
            assert(s.subrange(a + 1, e2 - 1) =~= run2) by {
                assert forall|t: int| 0 <= t < run2.len() implies s.subrange(a + 1, e2 - 1)[t]
                    == run2[t] by {
                    assert(s.subrange(a, e2)[t + 1] == (seq![MARK_LIST] + run2 + seq![
                        MARK_END,
                    ])[t + 1]);
                    assert((seq![MARK_LIST] + run2 + seq![MARK_END])[t + 1] == (seq![MARK_LIST]
                        + run2)[t + 1]);
                    assert((seq![MARK_LIST] + run2)[t + 1] == run2[t]);
                }
            }
            assert(s[e1 - 1] == enc(v1)[e1 - 1 - a]);
            assert(s[e1 - 1] == MARK_END);
            assert(s[e2 - 1] == enc(v2)[e2 - 1 - a]);
            assert(s[e2 - 1] == MARK_END);
            lemma_list_run_det(s, a + 1, items1@, e1 - 1, items2@, e2 - 1);
        },
        (Bencode::Dict(es1), Bencode::Dict(es2)) => {
            let run1 = enc_entries(es1@);
            let run2 = enc_entries(es2@);
            assert(enc(v1) == seq![MARK_DICT] + run1 + seq![MARK_END]);
            assert(enc(v2) == seq![MARK_DICT] + run2 + seq![MARK_END]);
            assert(s.subrange(a, e1).len() == e1 - a);
            assert(s.subrange(a, e2).len() == e2 - a);
            assert(run1.len() == e1 - a - 2);
            assert(run2.len() == e2 - a - 2);
            assert(s.subrange(a + 1, e1 - 1) =~= run1) by {
                assert forall|t: int| 0 <= t < run1.len() implies s.subrange(a + 1, e1 - 1)[t]
                    == run1[t] by {
                    assert(s.subrange(a, e1)[t + 1] == (seq![MARK_DICT] + run1 + seq![
                        MARK_END,
                    ])[t + 1]);
                    assert((seq![MARK_DICT] + run1 + seq![MARK_END])[t + 1] == (seq![MARK_DICT]
                        + run1)[t + 1]);
                    assert((seq![MARK_DICT] + run1)[t + 1] == run1[t]);
                }
            }
            assert(s.subrange(a + 1, e2 - 1) =~= run2) by {
                assert forall|t: int| 0 <= t < run2.len() implies s.subrange(a + 1, e2 - 1)[t]
                    == run2[t] by {
                    assert(s.subrange(a, e2)[t + 1] == (seq![MARK_DICT] + run2 + seq![
                        MARK_END,
                    ])[t + 1]);
                    assert((seq![MARK_DICT] + run2 + seq![MARK_END])[t + 1] == (seq![MARK_DICT]
                        + run2)[t + 1]);
                    assert((seq![MARK_DICT] + run2)[t + 1] == run2[t]);
                }
            }
            assert(s[e1 - 1] == enc(v1)[e1 - 1 - a]);
            assert(s[e1 - 1] == MARK_END);
            assert(s[e2 - 1] == enc(v2)[e2 - 1 - a]);
            assert(s[e2 - 1] == MARK_END);
            lemma_entries_run_det(s, a + 1, es1@, e1 - 1, es2@, e2 - 1);
        },
        _ => {
            assert(false);
        },
    }
}

/// Two element runs, each closed by the terminator byte, span the same
/// bytes.
proof fn lemma_list_run_det(
    s: Seq<u8>,
    b: int,
    items1: Seq<Bencode>,
    f1: int,
    items2: Seq<Bencode>,
    f2: int,
)
    requires
        0 <= b <= f1 < s.len(),
        b <= f2 < s.len(),
        s.subrange(b, f1) == enc_list(items1),
        s.subrange(b, f2) == enc_list(items2),
        s[f1] == MARK_END,
        s[f2] == MARK_END,
    ensures
        f1 == f2,
    decreases f1 - b, 1int,
{
    if items1.len() == 0 {
        assert(f1 == b);
        if items2.len() > 0 {
            lemma_enc_first_byte(items2[0]);
            assert(s[b] == s.subrange(b, f2)[0]);
            assert(s.subrange(b, f2)[0] == enc(items2[0])[0]);
            assert(false);
        }
    } else if items2.len() == 0 {
        assert(enc_list(items2) =~= Seq::<u8>::empty());
        assert(s.subrange(b, f2).len() == f2 - b);
        assert(s.subrange(b, f2).len() == 0);
        assert(f2 == b);
        lemma_enc_first_byte(items1[0]);
        assert(s[b] == s.subrange(b, f1)[0]);
        assert(s.subrange(b, f1)[0] == enc(items1[0])[0]);
        assert(false);
    } else {
        let l1 = enc(items1[0]).len() as int;
        let l2 = enc(items2[0]).len() as int;
        lemma_enc_first_byte(items1[0]);
        lemma_enc_first_byte(items2[0]);
        assert(enc_list(items1) == enc(items1[0]) + enc_list(items1.drop_first()));
        assert(enc_list(items2) == enc(items2[0]) + enc_list(items2.drop_first()));
        assert(enc_list(items1).len() == l1 + enc_list(items1.drop_first()).len());
        assert(s.subrange(b, f1).len() == f1 - b);
        assert(enc_list(items1).len() == f1 - b);
        assert(l1 <= f1 - b);
        assert(l2 <= f2 - b);
        assert(s.subrange(b, b + l1) =~= enc(items1[0])) by {
            assert(forall|t: int|
                0 <= t < l1 ==> s.subrange(b, b + l1)[t] == #[trigger] s.subrange(b, f1)[t]);
        }
        assert(s.subrange(b, b + l2) =~= enc(items2[0])) by {
            assert(forall|t: int|
                0 <= t < l2 ==> s.subrange(b, b + l2)[t] == #[trigger] s.subrange(b, f2)[t]);
        }
        lemma_enc_det(s, b, items1[0], b + l1, items2[0], b + l2);
        assert(l1 == l2);
        let rest1 = enc_list(items1.drop_first());
        let rest2 = enc_list(items2.drop_first());
        assert(s.subrange(b, f2).len() == f2 - b);
        assert(rest1.len() == f1 - b - l1);
        assert(rest2.len() == f2 - b - l1);
        assert(s.subrange(b + l1, f1) =~= rest1) by {
            assert forall|t: int| 0 <= t < rest1.len() implies s.subrange(b + l1, f1)[t]
                == rest1[t] by {
                assert(s.subrange(b, f1)[t + l1] == (enc(items1[0]) + rest1)[t + l1]);
                assert((enc(items1[0]) + rest1)[t + l1] == rest1[t]);
            }
        }
        assert(s.subrange(b + l1, f2) =~= rest2) by {
            assert forall|t: int| 0 <= t < rest2.len() implies s.subrange(b + l1, f2)[t]
                == rest2[t] by {
                assert(s.subrange(b, f2)[t + l1] == (enc(items2[0]) + rest2)[t + l1]);
                assert((enc(items2[0]) + rest2)[t + l1] == rest2[t]);
            }
        }
        lemma_list_run_det(s, b + l1, items1.drop_first(), f1, items2.drop_first(), f2);
    }
}

/// Two entry runs, each closed by the terminator byte, span the same
/// bytes.
proof fn lemma_entries_run_det(
    s: Seq<u8>,
    b: int,
    es1: Seq<(Vec<u8>, Bencode)>,
    f1: int,
    es2: Seq<(Vec<u8>, Bencode)>,
    f2: int,
)
    requires
        0 <= b <= f1 < s.len(),
        b <= f2 < s.len(),
        s.subrange(b, f1) == enc_entries(es1),
        s.subrange(b, f2) == enc_entries(es2),
        s[f1] == MARK_END,
        s[f2] == MARK_END,
    ensures
        f1 == f2,
    decreases f1 - b, 1int,
{
    if es1.len() == 0 {
        assert(f1 == b);
        if es2.len() > 0 {
            lemma_dec_digits_facts(es2[0].0@.len());
            assert(s[b] == s.subrange(b, f2)[0]);
            assert(s.subrange(b, f2)[0] == bstr_bytes(es2[0].0@)[0]);
            assert(bstr_bytes(es2[0].0@)[0] == dec_digits(es2[0].0@.len())[0]);
            assert(false);
        }
    } else if es2.len() == 0 {
        assert(enc_entries(es2) == Seq::<u8>::empty());
        assert(f2 == b);
        lemma_dec_digits_facts(es1[0].0@.len());
        assert(s[b] == s.subrange(b, f1)[0]);
        assert(s.subrange(b, f1)[0] == bstr_bytes(es1[0].0@)[0]);
        assert(bstr_bytes(es1[0].0@)[0] == dec_digits(es1[0].0@.len())[0]);
        assert(false);
    } else {
        let k1 = bstr_bytes(es1[0].0@).len() as int;
        let k2 = bstr_bytes(es2[0].0@).len() as int;
        let l1 = enc(es1[0].1).len() as int;
        let l2 = enc(es2[0].1).len() as int;
        lemma_enc_first_byte(es1[0].1);
        lemma_enc_first_byte(es2[0].1);
        lemma_dec_digits_facts(es1[0].0@.len());
        lemma_dec_digits_facts(es2[0].0@.len());
        let head1 = bstr_bytes(es1[0].0@);
        let head2 = bstr_bytes(es2[0].0@);
        let val1 = enc(es1[0].1);
        let val2 = enc(es2[0].1);
        let rest1 = enc_entries(es1.drop_first());
        let rest2 = enc_entries(es2.drop_first());
        assert(enc_entries(es1) == head1 + val1 + rest1);
        assert(enc_entries(es2) == head2 + val2 + rest2);
        assert(enc_entries(es1).len() == k1 + l1 + rest1.len());
        assert(enc_entries(es2).len() == k2 + l2 + rest2.len());
        assert(s.subrange(b, f1).len() == f1 - b);
        assert(s.subrange(b, f2).len() == f2 - b);
        assert(k1 + l1 <= f1 - b);
        assert(k2 + l2 <= f2 - b);
        assert(s.subrange(b, b + k1) =~= head1) by {
            assert forall|t: int| 0 <= t < k1 implies s.subrange(b, b + k1)[t] == head1[t] by {
                assert(s.subrange(b, f1)[t] == (head1 + val1 + rest1)[t]);
                assert((head1 + val1 + rest1)[t] == (head1 + val1)[t]);
                assert((head1 + val1)[t] == head1[t]);
            }
        }
        assert(s.subrange(b, b + k2) =~= head2) by {
            assert forall|t: int| 0 <= t < k2 implies s.subrange(b, b + k2)[t] == head2[t] by {
                assert(s.subrange(b, f2)[t] == (head2 + val2 + rest2)[t]);
                assert((head2 + val2 + rest2)[t] == (head2 + val2)[t]);
                assert((head2 + val2)[t] == head2[t]);
            }
        }
        lemma_bstr_det(s, b, es1[0].0@, b + k1, es2[0].0@, b + k2);
        assert(k1 == k2);
        assert(s.subrange(b + k1, b + k1 + l1) =~= val1) by {
            assert forall|t: int| 0 <= t < l1 implies s.subrange(b + k1, b + k1 + l1)[t]
                == val1[t] by {
                assert(s.subrange(b, f1)[t + k1] == (head1 + val1 + rest1)[t + k1]);
                assert((head1 + val1 + rest1)[t + k1] == (head1 + val1)[t + k1]);
                assert((head1 + val1)[t + k1] == val1[t]);
            }
        }
        assert(s.subrange(b + k1, b + k1 + l2) =~= val2) by {
            assert forall|t: int| 0 <= t < l2 implies s.subrange(b + k1, b + k1 + l2)[t]
                == val2[t] by {
                assert(s.subrange(b, f2)[t + k1] == (head2 + val2 + rest2)[t + k1]);
                assert((head2 + val2 + rest2)[t + k1] == (head2 + val2)[t + k1]);
                assert((head2 + val2)[t + k1] == val2[t]);
            }
        }
        lemma_enc_det(s, b + k1, es1[0].1, b + k1 + l1, es2[0].1, b + k1 + l2);
        assert(l1 == l2);
        assert(s.subrange(b + k1 + l1, f1) =~= rest1) by {
            assert forall|t: int| 0 <= t < rest1.len() implies s.subrange(b + k1 + l1, f1)[t]
                == rest1[t] by {
                assert(s.subrange(b, f1)[t + k1 + l1] == (head1 + val1 + rest1)[t + k1 + l1]);
                assert((head1 + val1 + rest1)[t + k1 + l1] == rest1[t]);
            }
        }
        assert(s.subrange(b + k1 + l1, f2) =~= rest2) by {
            assert forall|t: int| 0 <= t < rest2.len() implies s.subrange(b + k1 + l1, f2)[t]
                == rest2[t] by {
                assert(s.subrange(b, f2)[t + k1 + l1] == (head2 + val2 + rest2)[t + k1 + l1]);
                assert((head2 + val2 + rest2)[t + k1 + l1] == rest2[t]);
            }
        }
        lemma_entries_run_det(
            s,
            b + k1 + l1,
            es1.drop_first(),
            f1,
            es2.drop_first(),
            f2,
        );
    }
}

// ---------------------------------------------------------------------------
// What the decoder can represent: machine-sized strings and keys, and
// integers above the one magnitude a 64-bit word cannot negate.
// ---------------------------------------------------------------------------

pub open spec fn decodable(v: Bencode) -> bool
    decreases v,
{
    match v {
        Bencode::Bytes(b) => b@.len() <= usize::MAX,
        Bencode::Int(i) => i != i64::MIN,
        Bencode::List(items) => decodable_list(items@),
        Bencode::Dict(entries) => decodable_entries(entries@),
    }
}

pub open spec fn decodable_list(items: Seq<Bencode>) -> bool
    decreases items,
{
    if items.len() == 0 {
        true
    } else {
        decodable(items[0]) && decodable_list(items.drop_first())
    }
}

pub open spec fn decodable_entries(es: Seq<(Vec<u8>, Bencode)>) -> bool
    decreases es,
{
    if es.len() == 0 {
        true
    } else {
        es[0].0@.len() <= usize::MAX && decodable(es[0].1) && decodable_entries(es.drop_first())
    }
}

/// Some well-formed, machine-representable value is encoded at `pos`.
pub open spec fn some_value_at(s: Seq<u8>, pos: int) -> bool {
    exists|v: Bencode, end: int|
        #![trigger s.subrange(pos, end), enc(v)]
        pos < end <= s.len() && s.subrange(pos, end) == enc(v) && nodup_deep(v) && decodable(v)
}

proof fn lemma_decodable_list_elem(items: Seq<Bencode>, i: int)
    requires
        decodable_list(items),
        0 <= i < items.len(),
    ensures
        decodable(items[i]),
    decreases items.len(),
{
    if i > 0 {
        lemma_decodable_list_elem(items.drop_first(), i - 1);
    }
}

proof fn lemma_decodable_entries_elem(es: Seq<(Vec<u8>, Bencode)>, i: int)
    requires
        decodable_entries(es),
        0 <= i < es.len(),
    ensures
        es[i].0@.len() <= usize::MAX,
        decodable(es[i].1),
    decreases es.len(),
{
    if i > 0 {
        lemma_decodable_entries_elem(es.drop_first(), i - 1);
    }
}

proof fn lemma_nodup_deep_list_elem(items: Seq<Bencode>, i: int)
    requires
        nodup_deep_list(items),
        0 <= i < items.len(),
    ensures
        nodup_deep(items[i]),
    decreases items.len(),
{
    if i > 0 {
        lemma_nodup_deep_list_elem(items.drop_first(), i - 1);
    }
}

proof fn lemma_nodup_deep_entries_elem(es: Seq<(Vec<u8>, Bencode)>, i: int)
    requires
        nodup_deep_entries(es),
        0 <= i < es.len(),
    ensures
        nodup_deep(es[i].1),
    decreases es.len(),
{
    if i > 0 {
        lemma_nodup_deep_entries_elem(es.drop_first(), i - 1);
    }
}

// ---------------------------------------------------------------------------
// The shape of an integer encoding.
// ---------------------------------------------------------------------------

/// What holds of any integer parse: the marker, an optional sign, the
/// digit run of the magnitude, the terminator.
proof fn lemma_int_shape(s: Seq<u8>, pos: int, end: int, x: i64)
    requires
        0 <= pos < end <= s.len(),
        s.subrange(pos, end) == enc(Bencode::Int(x)),
    ensures
        ({
            let n = if x < 0 {
                -(x as int)
            } else {
                x as int
            };
            let ds = if x < 0 {
                pos + 2
            } else {
                pos + 1
            };
            &&& s[pos] == MARK_INT
            &&& (x < 0 ==> pos + 1 < end && s[pos + 1] == MINUS)
            &&& pos < ds < end
            &&& s.subrange(ds, end - 1) == dec_digits(n as nat)
            &&& all_digits(s.subrange(ds, end - 1))
            &&& s[end - 1] == MARK_END
            &&& is_ascii_digit(s[ds])
            &&& (s[ds] == DIGIT_ZERO <==> n == 0)
        }),
{
    let n = if x < 0 {
        -(x as int)
    } else {
        x as int
    };
    let ds = if x < 0 {
        pos + 2
    } else {
        pos + 1
    };
    lemma_dec_digits_facts(n as nat);
    let dl = dec_digits(n as nat);
    let body = int_bytes(x as int);
    assert(enc(Bencode::Int(x)) == seq![MARK_INT] + body + seq![MARK_END]);
    assert(s.subrange(pos, end).len() == end - pos);
    assert(s[pos] == s.subrange(pos, end)[0]);
    assert(s[end - 1] == s.subrange(pos, end)[end - 1 - pos]);
    if x < 0 {
        assert(body == seq![MINUS] + dl);
        assert(s[pos + 1] == s.subrange(pos, end)[1]);
        assert(s.subrange(ds, end - 1) =~= dl) by {
            assert forall|t: int| 0 <= t < dl.len() implies s.subrange(ds, end - 1)[t]
                == dl[t] by {
                assert(s.subrange(pos, end)[t + 2] == (seq![MARK_INT] + body + seq![
                    MARK_END,
                ])[t + 2]);
                assert((seq![MARK_INT] + body + seq![MARK_END])[t + 2] == (seq![MARK_INT]
                    + body)[t + 2]);
                assert((seq![MARK_INT] + body)[t + 2] == body[t + 1]);
                assert(body[t + 1] == dl[t]);
            }
        }
    } else {
        assert(body == dl);
        assert(s.subrange(ds, end - 1) =~= dl) by {
            assert forall|t: int| 0 <= t < dl.len() implies s.subrange(ds, end - 1)[t]
                == dl[t] by {
                assert(s.subrange(pos, end)[t + 1] == (seq![MARK_INT] + body + seq![
                    MARK_END,
                ])[t + 1]);
                assert((seq![MARK_INT] + body + seq![MARK_END])[t + 1] == (seq![MARK_INT]
                    + body)[t + 1]);
                assert((seq![MARK_INT] + body)[t + 1] == body[t]);
            }
        }
    }
    assert(s[ds] == s.subrange(ds, end - 1)[0]);
}

// ---------------------------------------------------------------------------
// Alignment: a partial parse of a run sits on an element boundary of any
// complete parse of the same run.
// ---------------------------------------------------------------------------

/// The elements consumed so far span exactly the first elements of any
/// closed run at the same position, and what remains is the rest of
/// that run.
proof fn lemma_list_run_align(
    s: Seq<u8>,
    b: int,
    done: Seq<Bencode>,
    cur: int,
    items: Seq<Bencode>,
    f: int,
)
    requires
        0 <= b <= cur <= s.len(),
        b <= f < s.len(),
        s.subrange(b, cur) == enc_list(done),
        s.subrange(b, f) == enc_list(items),
        s[f] == MARK_END,
    ensures
        done.len() <= items.len(),
        cur <= f,
        s.subrange(cur, f) == enc_list(items.skip(done.len() as int)),
    decreases done.len(),
{
    if done.len() == 0 {
        assert(enc_list(done) == Seq::<u8>::empty());
        assert(s.subrange(b, cur).len() == cur - b);
        assert(cur == b);
        assert(items.skip(0) =~= items);
    } else {
        let ld = enc(done[0]).len() as int;
        lemma_enc_first_byte(done[0]);
        assert(enc_list(done) == enc(done[0]) + enc_list(done.drop_first()));
        assert(s.subrange(b, cur).len() == cur - b);
        assert(ld <= cur - b);
        assert(s.subrange(b, b + ld) =~= enc(done[0])) by {
            assert forall|t: int| 0 <= t < ld implies s.subrange(b, b + ld)[t] == enc(
                done[0],
            )[t] by {
                assert(s.subrange(b, cur)[t] == (enc(done[0]) + enc_list(done.drop_first()))[t]);
                assert((enc(done[0]) + enc_list(done.drop_first()))[t] == enc(done[0])[t]);
            }
        }
        if items.len() == 0 {
            assert(enc_list(items) == Seq::<u8>::empty());
            assert(s.subrange(b, f).len() == f - b);
            assert(f == b);
            assert(s[b] == s.subrange(b, b + ld)[0]);
            assert(s[b] == enc(done[0])[0]);
            assert(false);
        }
        let li = enc(items[0]).len() as int;
        lemma_enc_first_byte(items[0]);
        assert(enc_list(items) == enc(items[0]) + enc_list(items.drop_first()));
        assert(s.subrange(b, f).len() == f - b);
        assert(li <= f - b);
        assert(s.subrange(b, b + li) =~= enc(items[0])) by {
            assert forall|t: int| 0 <= t < li implies s.subrange(b, b + li)[t] == enc(
                items[0],
            )[t] by {
                assert(s.subrange(b, f)[t] == (enc(items[0]) + enc_list(items.drop_first()))[t]);
                assert((enc(items[0]) + enc_list(items.drop_first()))[t] == enc(items[0])[t]);
            }
        }
        lemma_enc_det(s, b, done[0], b + ld, items[0], b + li);
        assert(ld == li);
        let rest_done = enc_list(done.drop_first());
        let rest_items = enc_list(items.drop_first());
        assert(rest_done.len() == cur - b - ld);
        assert(rest_items.len() == f - b - ld);
        assert(s.subrange(b + ld, cur) =~= rest_done) by {
            assert forall|t: int| 0 <= t < rest_done.len() implies s.subrange(b + ld, cur)[t]
                == rest_done[t] by {
                assert(s.subrange(b, cur)[t + ld] == (enc(done[0]) + rest_done)[t + ld]);
                assert((enc(done[0]) + rest_done)[t + ld] == rest_done[t]);
            }
        }
        assert(s.subrange(b + ld, f) =~= rest_items) by {
            assert forall|t: int| 0 <= t < rest_items.len() implies s.subrange(b + ld, f)[t]
                == rest_items[t] by {
                assert(s.subrange(b, f)[t + ld] == (enc(items[0]) + rest_items)[t + ld]);
                assert((enc(items[0]) + rest_items)[t + ld] == rest_items[t]);
            }
        }
        lemma_list_run_align(s, b + ld, done.drop_first(), cur, items.drop_first(), f);
        assert(items.drop_first().skip(done.len() - 1) =~= items.skip(done.len() as int));
    }
}

/// The entries consumed so far span exactly the first entries of any
/// closed entry run at the same position, key for key; what remains is
/// the rest of that run.
proof fn lemma_entries_run_align(
    s: Seq<u8>,
    b: int,
    done: Seq<(Vec<u8>, Bencode)>,
    cur: int,
    es: Seq<(Vec<u8>, Bencode)>,
    f: int,
)
    requires
        0 <= b <= cur <= s.len(),
        b <= f < s.len(),
        s.subrange(b, cur) == enc_entries(done),
        s.subrange(b, f) == enc_entries(es),
        s[f] == MARK_END,
    ensures
        done.len() <= es.len(),
        cur <= f,
        s.subrange(cur, f) == enc_entries(es.skip(done.len() as int)),
        forall|j: int| 0 <= j < done.len() ==> (#[trigger] done[j]).0@ == es[j].0@,
    decreases done.len(),
{
    if done.len() == 0 {
        assert(enc_entries(done) == Seq::<u8>::empty());
        assert(s.subrange(b, cur).len() == cur - b);
        assert(cur == b);
        assert(es.skip(0) =~= es);
    } else {
        let kd = bstr_bytes(done[0].0@).len() as int;
        let ld = enc(done[0].1).len() as int;
        lemma_enc_first_byte(done[0].1);
        lemma_dec_digits_facts(done[0].0@.len());
        let headd = bstr_bytes(done[0].0@);
        let vald = enc(done[0].1);
        let restd = enc_entries(done.drop_first());
        assert(enc_entries(done) == headd + vald + restd);
        assert(s.subrange(b, cur).len() == cur - b);
        assert(kd + ld <= cur - b);
        assert(s.subrange(b, b + kd) =~= headd) by {
            assert forall|t: int| 0 <= t < kd implies s.subrange(b, b + kd)[t] == headd[t] by {
                assert(s.subrange(b, cur)[t] == (headd + vald + restd)[t]);
                assert((headd + vald + restd)[t] == (headd + vald)[t]);
                assert((headd + vald)[t] == headd[t]);
            }
        }
        if es.len() == 0 {
            assert(enc_entries(es) == Seq::<u8>::empty());
            assert(s.subrange(b, f).len() == f - b);
            assert(f == b);
            assert(s[b] == s.subrange(b, b + kd)[0]);
            assert(s[b] == headd[0]);
            assert(headd[0] == dec_digits(done[0].0@.len())[0]);
            assert(false);
        }
        let ke = bstr_bytes(es[0].0@).len() as int;
        let le = enc(es[0].1).len() as int;
        lemma_enc_first_byte(es[0].1);
        lemma_dec_digits_facts(es[0].0@.len());
        let heade = bstr_bytes(es[0].0@);
        let vale = enc(es[0].1);
        let reste = enc_entries(es.drop_first());
        assert(enc_entries(es) == heade + vale + reste);
        assert(s.subrange(b, f).len() == f - b);
        assert(ke + le <= f - b);
        assert(s.subrange(b, b + ke) =~= heade) by {
            assert forall|t: int| 0 <= t < ke implies s.subrange(b, b + ke)[t] == heade[t] by {
                assert(s.subrange(b, f)[t] == (heade + vale + reste)[t]);
                assert((heade + vale + reste)[t] == (heade + vale)[t]);
                assert((heade + vale)[t] == heade[t]);
            }
        }
        lemma_bstr_det(s, b, done[0].0@, b + kd, es[0].0@, b + ke);
        assert(kd == ke);
        assert(s.subrange(b + kd, b + kd + ld) =~= vald) by {
            assert forall|t: int| 0 <= t < ld implies s.subrange(b + kd, b + kd + ld)[t]
                == vald[t] by {
                assert(s.subrange(b, cur)[t + kd] == (headd + vald + restd)[t + kd]);
                assert((headd + vald + restd)[t + kd] == (headd + vald)[t + kd]);
                assert((headd + vald)[t + kd] == vald[t]);
            }
        }
        assert(s.subrange(b + kd, b + kd + le) =~= vale) by {
            assert forall|t: int| 0 <= t < le implies s.subrange(b + kd, b + kd + le)[t]
                == vale[t] by {
                assert(s.subrange(b, f)[t + kd] == (heade + vale + reste)[t + kd]);
                assert((heade + vale + reste)[t + kd] == (heade + vale)[t + kd]);
                assert((heade + vale)[t + kd] == vale[t]);
            }
        }
        lemma_enc_det(s, b + kd, done[0].1, b + kd + ld, es[0].1, b + kd + le);
        assert(ld == le);
        assert(s.subrange(b + kd + ld, cur) =~= restd) by {
            assert forall|t: int| 0 <= t < restd.len() implies s.subrange(b + kd + ld, cur)[t]
                == restd[t] by {
                assert(s.subrange(b, cur)[t + kd + ld] == (headd + vald + restd)[t + kd + ld]);
                assert((headd + vald + restd)[t + kd + ld] == restd[t]);
            }
        }
        assert(s.subrange(b + kd + ld, f) =~= reste) by {
            assert forall|t: int| 0 <= t < reste.len() implies s.subrange(b + kd + ld, f)[t]
                == reste[t] by {
                assert(s.subrange(b, f)[t + kd + ld] == (heade + vale + reste)[t + kd + ld]);
                assert((heade + vale + reste)[t + kd + ld] == reste[t]);
            }
        }
        lemma_entries_run_align(s, b + kd + ld, done.drop_first(), cur, es.drop_first(), f);
        assert(es.drop_first().skip(done.len() - 1) =~= es.skip(done.len() as int));
        assert forall|j: int| 0 <= j < done.len() implies (#[trigger] done[j]).0@
            == es[j].0@ by {
            if j > 0 {
                assert(done.drop_first()[j - 1].0@ == es.drop_first()[j - 1].0@);
            }
        }
    }
}

/// What holds of any list parse: the marker, the element run, the
/// terminator.
proof fn lemma_list_shape(s: Seq<u8>, pos: int, end: int, v: Bencode)
    requires
        0 <= pos < end <= s.len(),
        v is List,
        s.subrange(pos, end) == enc(v),
    ensures
        s[pos] == MARK_LIST,
        pos + 1 <= end - 1,
        s[end - 1] == MARK_END,
        s.subrange(pos + 1, end - 1) == enc_list(v->List_0@),
{
    let run = enc_list(v->List_0@);
    assert(enc(v) == seq![MARK_LIST] + run + seq![MARK_END]);
    assert(s.subrange(pos, end).len() == end - pos);
    assert(s[pos] == s.subrange(pos, end)[0]);
    assert(s[end - 1] == s.subrange(pos, end)[end - 1 - pos]);
    assert(run.len() == end - pos - 2);
    assert(s.subrange(pos + 1, end - 1) =~= run) by {
        assert forall|t: int| 0 <= t < run.len() implies s.subrange(pos + 1, end - 1)[t]
            == run[t] by {
            assert(s.subrange(pos, end)[t + 1] == (seq![MARK_LIST] + run + seq![MARK_END])[t
                + 1]);
            assert((seq![MARK_LIST] + run + seq![MARK_END])[t + 1] == (seq![MARK_LIST] + run)[t
                + 1]);
            assert((seq![MARK_LIST] + run)[t + 1] == run[t]);
        }
    }
}

/// What holds of any dictionary parse: the marker, the entry run, the
/// terminator.
proof fn lemma_dict_shape(s: Seq<u8>, pos: int, end: int, v: Bencode)
    requires
        0 <= pos < end <= s.len(),
        v is Dict,
        s.subrange(pos, end) == enc(v),
    ensures
        s[pos] == MARK_DICT,
        pos + 1 <= end - 1,
        s[end - 1] == MARK_END,
        s.subrange(pos + 1, end - 1) == enc_entries(v->Dict_0@),
{
    let run = enc_entries(v->Dict_0@);
    assert(enc(v) == seq![MARK_DICT] + run + seq![MARK_END]);
    assert(s.subrange(pos, end).len() == end - pos);
    assert(s[pos] == s.subrange(pos, end)[0]);
    assert(s[end - 1] == s.subrange(pos, end)[end - 1 - pos]);
    assert(run.len() == end - pos - 2);
    assert(s.subrange(pos + 1, end - 1) =~= run) by {
        assert forall|t: int| 0 <= t < run.len() implies s.subrange(pos + 1, end - 1)[t]
            == run[t] by {
            assert(s.subrange(pos, end)[t + 1] == (seq![MARK_DICT] + run + seq![MARK_END])[t
                + 1]);
            assert((seq![MARK_DICT] + run + seq![MARK_END])[t + 1] == (seq![MARK_DICT] + run)[t
                + 1]);
            assert((seq![MARK_DICT] + run)[t + 1] == run[t]);
        }
    }
}

/// Mid-list, a value parse of the whole input region forces: the buffer
/// continues, and whatever is not the terminator starts another element.
proof fn lemma_list_site(s: Seq<u8>, pos: int, done: Seq<Bencode>, cur: int)
    requires
        0 <= pos,
        pos + 1 <= cur <= s.len(),
        s[pos] == MARK_LIST,
        s.subrange(pos + 1, cur) == enc_list(done),
        some_value_at(s, pos),
    ensures
        cur < s.len(),
        s[cur] != MARK_END ==> some_value_at(s, cur),
{
    let (v, end) = choose|v: Bencode, end: int|
        #![trigger s.subrange(pos, end), enc(v)]
        pos < end <= s.len() && s.subrange(pos, end) == enc(v) && nodup_deep(v) && decodable(v);
    lemma_enc_first_byte(v);
    assert(s[pos] == s.subrange(pos, end)[0]);
    assert(v is List);
    lemma_list_shape(s, pos, end, v);
    let items = v->List_0@;
    lemma_list_run_align(s, pos + 1, done, cur, items, end - 1);
    let skip = items.skip(done.len() as int);
    assert(cur <= end - 1);
    assert(cur < s.len());
    if s[cur] != MARK_END {
        assert(s.subrange(cur, end - 1).len() == end - 1 - cur);
        if skip.len() == 0 {
            assert(enc_list(skip) == Seq::<u8>::empty());
            assert(cur == end - 1);
            assert(false);
        }
        let e0 = skip[0];
        assert(e0 == items[done.len() as int]);
        let l0 = enc(e0).len() as int;
        lemma_enc_first_byte(e0);
        assert(enc_list(skip) == enc(e0) + enc_list(skip.drop_first()));
        assert(l0 <= end - 1 - cur);
        assert(s.subrange(cur, cur + l0) =~= enc(e0)) by {
            assert forall|t: int| 0 <= t < l0 implies s.subrange(cur, cur + l0)[t] == enc(
                e0,
            )[t] by {
                assert(s.subrange(cur, end - 1)[t] == (enc(e0) + enc_list(skip.drop_first()))[
                    t]);
                assert((enc(e0) + enc_list(skip.drop_first()))[t] == enc(e0)[t]);
            }
        }
        lemma_nodup_deep_list_elem(items, done.len() as int);
        lemma_decodable_list_elem(items, done.len() as int);
        assert(cur < cur + l0 <= s.len() && s.subrange(cur, cur + l0) == enc(e0) && nodup_deep(
            e0,
        ) && decodable(e0));
    }
}

/// Mid-dictionary, a value parse of the whole input region forces: the
/// buffer continues; whatever is not the terminator starts another
/// entry, whose key is a fresh machine-sized byte string followed by a
/// parseable value.
proof fn lemma_dict_site(s: Seq<u8>, pos: int, done: Seq<(Vec<u8>, Bencode)>, cur: int)
    requires
        0 <= pos,
        pos + 1 <= cur <= s.len(),
        s[pos] == MARK_DICT,
        s.subrange(pos + 1, cur) == enc_entries(done),
        some_value_at(s, pos),
    ensures
        cur < s.len(),
        s[cur] != MARK_END ==> some_bstr_at(s, cur),
        s[cur] != MARK_END ==> (forall|key: Seq<u8>, kend: int|
            #![trigger s.subrange(cur, kend), bstr_bytes(key)]
            (cur < kend <= s.len() && s.subrange(cur, kend) == bstr_bytes(key)) ==> (
            some_value_at(s, kend) && (forall|j: int|
                0 <= j < done.len() ==> (#[trigger] done[j]).0@ != key))),
{
    let (v, end) = choose|v: Bencode, end: int|
        #![trigger s.subrange(pos, end), enc(v)]
        pos < end <= s.len() && s.subrange(pos, end) == enc(v) && nodup_deep(v) && decodable(v);
    lemma_enc_first_byte(v);
    assert(s[pos] == s.subrange(pos, end)[0]);
    assert(v is Dict);
    lemma_dict_shape(s, pos, end, v);
    let es = v->Dict_0@;
    lemma_entries_run_align(s, pos + 1, done, cur, es, end - 1);
    let skip = es.skip(done.len() as int);
    assert(cur <= end - 1);
    assert(cur < s.len());
    if s[cur] != MARK_END {
        assert(s.subrange(cur, end - 1).len() == end - 1 - cur);
        if skip.len() == 0 {
            assert(enc_entries(skip) == Seq::<u8>::empty());
            assert(cur == end - 1);
            assert(false);
        }
        let k = done.len() as int;
        let entry = skip[0];
        assert(entry == es[k]);
        let head = bstr_bytes(entry.0@);
        let val = enc(entry.1);
        let rest = enc_entries(skip.drop_first());
        let kb = head.len() as int;
        let lv = val.len() as int;
        lemma_enc_first_byte(entry.1);
        lemma_dec_digits_facts(entry.0@.len());
        assert(enc_entries(skip) == head + val + rest);
        assert(kb + lv <= end - 1 - cur);
        assert(s.subrange(cur, cur + kb) =~= head) by {
            assert forall|t: int| 0 <= t < kb implies s.subrange(cur, cur + kb)[t]
                == head[t] by {
                assert(s.subrange(cur, end - 1)[t] == (head + val + rest)[t]);
                assert((head + val + rest)[t] == (head + val)[t]);
                assert((head + val)[t] == head[t]);
            }
        }
        lemma_decodable_entries_elem(es, k);
        assert(some_bstr_at(s, cur)) by {
            assert(cur < cur + kb <= s.len() && s.subrange(cur, cur + kb) == bstr_bytes(
                entry.0@,
            ) && entry.0@.len() <= usize::MAX);
        }
        assert(s.subrange(cur + kb, cur + kb + lv) =~= val) by {
            assert forall|t: int| 0 <= t < lv implies s.subrange(cur + kb, cur + kb + lv)[t]
                == val[t] by {
                assert(s.subrange(cur, end - 1)[t + kb] == (head + val + rest)[t + kb]);
                assert((head + val + rest)[t + kb] == (head + val)[t + kb]);
                assert((head + val)[t + kb] == val[t]);
            }
        }
        assert forall|key: Seq<u8>, kend: int|
            #![trigger s.subrange(cur, kend), bstr_bytes(key)]
            (cur < kend <= s.len() && s.subrange(cur, kend) == bstr_bytes(key)) implies (
        some_value_at(s, kend) && (forall|j: int|
            0 <= j < done.len() ==> (#[trigger] done[j]).0@ != key)) by {
            lemma_bstr_det(s, cur, key, kend, entry.0@, cur + kb);
            assert(kend == cur + kb);
            assert(key == entry.0@);
            lemma_nodup_deep_entries_elem(es, k);
            assert(some_value_at(s, kend)) by {
                assert(kend < kend + lv <= s.len() && s.subrange(kend, kend + lv) == enc(
                    entry.1,
                ) && nodup_deep(entry.1) && decodable(entry.1));
            }
            assert forall|j: int| 0 <= j < done.len() implies (#[trigger] done[j]).0@
                != key by {
                assert(done[j].0@ == es[j].0@);
                assert(es[j].0@ != es[k].0@);
            }
        }
    }
}

/// No integer can start where no digit run for a 64-bit magnitude does.
proof fn lemma_int_site_digits(s: Seq<u8>, pos: int, dstart: int, neg: bool)
    requires
        0 <= pos < s.len(),
        s[pos] == MARK_INT,
        neg == (pos + 1 < s.len() && s[pos + 1] == MINUS),
        dstart == pos + 1 + (if neg {
            1int
        } else {
            0int
        }),
        (dstart >= s.len() || !is_ascii_digit(s[dstart])) || (exists|m: int|
            dstart < m <= s.len() && all_digits(#[trigger] s.subrange(dstart, m)) && digits_val(
                s.subrange(dstart, m),
            ) > i64::MAX),
    ensures
        !some_value_at(s, pos),
{
    if some_value_at(s, pos) {
        let (v, end) = choose|v: Bencode, end: int|
            #![trigger s.subrange(pos, end), enc(v)]
            pos < end <= s.len() && s.subrange(pos, end) == enc(v) && nodup_deep(v)
                && decodable(v);
        lemma_enc_first_byte(v);
        assert(s[pos] == s.subrange(pos, end)[0]);
        assert(v is Int);
        let x = v->Int_0;
        lemma_int_shape(s, pos, end, x);
        let n = if x < 0 {
            -(x as int)
        } else {
            x as int
        };
        let ds = if x < 0 {
            pos + 2
        } else {
            pos + 1
        };
        lemma_dec_digits_facts(n as nat);
        assert(neg == (x < 0));
        assert(ds == dstart);
        assert(n <= i64::MAX);
        if dstart >= s.len() || !is_ascii_digit(s[dstart]) {
            assert(false);
        } else {
            let m = choose|m: int|
                dstart < m <= s.len() && all_digits(#[trigger] s.subrange(dstart, m))
                    && digits_val(s.subrange(dstart, m)) > i64::MAX;
            let r = end - 1;
            if m > r {
                assert(is_ascii_digit(s.subrange(dstart, m)[r - dstart]));
                assert(s.subrange(dstart, m)[r - dstart] == s[r]);
                assert(false);
            } else {
                assert(s.subrange(dstart, m) =~= s.subrange(dstart, r).take(m - dstart));
                lemma_digits_val_prefix(dec_digits(n as nat), m - dstart);
                assert(false);
            }
        }
    }
}

/// A minus sign never precedes the digit zero.
proof fn lemma_int_site_zero(s: Seq<u8>, pos: int, dstart: int)
    requires
        0 <= pos < s.len(),
        s[pos] == MARK_INT,
        pos + 1 < s.len() && s[pos + 1] == MINUS,
        dstart == pos + 2,
        dstart < s.len(),
        s[dstart] == DIGIT_ZERO,
    ensures
        !some_value_at(s, pos),
{
    if some_value_at(s, pos) {
        let (v, end) = choose|v: Bencode, end: int|
            #![trigger s.subrange(pos, end), enc(v)]
            pos < end <= s.len() && s.subrange(pos, end) == enc(v) && nodup_deep(v)
                && decodable(v);
        lemma_enc_first_byte(v);
        assert(s[pos] == s.subrange(pos, end)[0]);
        assert(v is Int);
        let x = v->Int_0;
        lemma_int_shape(s, pos, end, x);
        let n = if x < 0 {
            -(x as int)
        } else {
            x as int
        };
        if x >= 0 {
            assert(is_ascii_digit(s[pos + 1]));
            assert(false);
        }
        assert(n >= 1);
        assert(s[dstart] == DIGIT_ZERO);
        assert(n == 0);
        assert(false);
    }
}

/// The digit scan of an integer ends exactly at the terminator of any
/// integer parse; where the scan's end is no terminator, no integer was
/// encoded.
proof fn lemma_int_site_term(s: Seq<u8>, pos: int, dstart: int, neg: bool, mag: int, p2: int)
    requires
        0 <= pos < s.len(),
        s[pos] == MARK_INT,
        neg == (pos + 1 < s.len() && s[pos + 1] == MINUS),
        dstart == pos + 1 + (if neg {
            1int
        } else {
            0int
        }),
        0 <= mag,
        dstart < p2 <= s.len(),
        s.subrange(dstart, p2) == dec_digits(mag as nat),
        mag == 0 ==> p2 == dstart + 1,
        mag != 0 ==> p2 == s.len() || !is_ascii_digit(s[p2]),
        p2 >= s.len() || s[p2] != MARK_END,
    ensures
        !some_value_at(s, pos),
{
    if some_value_at(s, pos) {
        let (v, end) = choose|v: Bencode, end: int|
            #![trigger s.subrange(pos, end), enc(v)]
            pos < end <= s.len() && s.subrange(pos, end) == enc(v) && nodup_deep(v)
                && decodable(v);
        lemma_enc_first_byte(v);
        assert(s[pos] == s.subrange(pos, end)[0]);
        assert(v is Int);
        let x = v->Int_0;
        lemma_int_shape(s, pos, end, x);
        let n = if x < 0 {
            -(x as int)
        } else {
            x as int
        };
        let ds = if x < 0 {
            pos + 2
        } else {
            pos + 1
        };
        lemma_dec_digits_facts(n as nat);
        lemma_dec_digits_facts(mag as nat);
        assert(neg == (x < 0));
        assert(ds == dstart);
        let r = end - 1;
        if mag == 0 {
            assert(s[dstart] == s.subrange(dstart, p2)[0]);
            assert(s[dstart] == DIGIT_ZERO);
            assert(n == 0);
            assert(dec_digits(n as nat).len() == 1);
            assert(r == dstart + 1);
            assert(p2 == r);
        } else {
            if r < p2 {
                assert(s[r] == s.subrange(dstart, p2)[r - dstart]);
                assert(is_ascii_digit(s.subrange(dstart, p2)[r - dstart]));
                assert(false);
            }
            if p2 < r {
                assert(s[p2] == s.subrange(dstart, r)[p2 - dstart]);
                assert(is_ascii_digit(s.subrange(dstart, r)[p2 - dstart]));
                assert(p2 == s.len());
                assert(false);
            }
            assert(p2 == r);
        }
        assert(s[p2] == MARK_END);
        assert(p2 < end <= s.len());
        assert(false);
    }
}

} // verus!
