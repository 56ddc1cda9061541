//! Reading receipts from JSON text.
//!
//! Accepted: one object of fields, with whitespace (space, tab, CR, LF)
//! around any token. Keys are strings; values are strings or integers.
//! Strings hold printable ASCII without `"` and `\` (no escapes); integers
//! are decimal, with an optional `-`, no leading zeros, within `i64`. Anything
//! else, and a key given twice, is a `MalformedReceipt`.
use vstd::prelude::*;
use crate::canonical::{
    canonical_bytes, copy_bytes, has_field, has_key, lemma_ordered_fields_unique, ordered_fields,
    same_fields, valid_text, valid_value, Receipt, ReceiptError, Value, ValueModel,
};
use crate::digest::{blake3_of, digest};

verus! {

pub open spec fn is_ws(c: u8) -> bool {
    c == 0x20 || c == 0x09 || c == 0x0a || c == 0x0d
}

pub open spec fn is_digit(c: u8) -> bool {
    0x30 <= c <= 0x39
}

pub open spec fn is_text_byte(c: u8) -> bool {
    0x20 <= c <= 0x7e && c != 0x22 && c != 0x5c
}

/// First position at or after `i` that is not whitespace.
pub open spec fn ws_end(b: Seq<u8>, i: int) -> int
    decreases b.len() - i,
{
    if 0 <= i < b.len() && is_ws(b[i]) {
        ws_end(b, i + 1)
    } else {
        i
    }
}

/// First position at or after `i` that is not a text byte.
pub open spec fn text_end(b: Seq<u8>, i: int) -> int
    decreases b.len() - i,
{
    if 0 <= i < b.len() && is_text_byte(b[i]) {
        text_end(b, i + 1)
    } else {
        i
    }
}

/// First position at or after `i` that is not a digit.
pub open spec fn digits_end(b: Seq<u8>, i: int) -> int
    decreases b.len() - i,
{
    if 0 <= i < b.len() && is_digit(b[i]) {
        digits_end(b, i + 1)
    } else {
        i
    }
}

/// The number written by a run of decimal digits.
pub open spec fn digits_value(d: Seq<u8>) -> int
    decreases d.len(),
{
    if d.len() == 0 {
        0
    } else {
        digits_value(d.drop_last()) * 10 + (d.last() - 48)
    }
}

pub proof fn lemma_ws_end_bounds(b: Seq<u8>, i: int)
    requires
        0 <= i <= b.len(),
    ensures
        i <= ws_end(b, i) <= b.len(),
    decreases b.len() - i,
{
    if i < b.len() && is_ws(b[i]) {
        lemma_ws_end_bounds(b, i + 1);
    }
}

pub proof fn lemma_text_end_bounds(b: Seq<u8>, i: int)
    requires
        0 <= i <= b.len(),
    ensures
        i <= text_end(b, i) <= b.len(),
        forall|t: int| i <= t < text_end(b, i) ==> is_text_byte(#[trigger] b[t]),
    decreases b.len() - i,
{
    if i < b.len() && is_text_byte(b[i]) {
        lemma_text_end_bounds(b, i + 1);
    }
}

pub proof fn lemma_digits_end_bounds(b: Seq<u8>, i: int)
    requires
        0 <= i <= b.len(),
    ensures
        i <= digits_end(b, i) <= b.len(),
        forall|t: int| i <= t < digits_end(b, i) ==> is_digit(#[trigger] b[t]),
    decreases b.len() - i,
{
    if i < b.len() && is_digit(b[i]) {
        lemma_digits_end_bounds(b, i + 1);
    }
}

/// A string token at `i`: its content and the position after it.
pub open spec fn string_at(b: Seq<u8>, i: int) -> Option<(Seq<u8>, int)> {
    if 0 <= i < b.len() && b[i] == 0x22 {
        let j = text_end(b, i + 1);
        if j < b.len() && b[j] == 0x22 {
            Some((b.subrange(i + 1, j), j + 1))
        } else {
            None
        }
    } else {
        None
    }
}

/// An integer token at `i`: its value and the position after it.
pub open spec fn integer_at(b: Seq<u8>, i: int) -> Option<(int, int)> {
    let neg = 0 <= i < b.len() && b[i] == 0x2d;
    let k = if neg {
        i + 1
    } else {
        i
    };
    let e = digits_end(b, k);
    let mag = digits_value(b.subrange(k, e));
    let v = if neg {
        -mag
    } else {
        mag
    };
    if e > k && !(e - k > 1 && b[k] == 0x30) && i64::MIN <= v <= i64::MAX {
        Some((v, e))
    } else {
        None
    }
}

/// A value token at `i`: a string or an integer.
pub open spec fn value_at(b: Seq<u8>, i: int) -> Option<(ValueModel, int)> {
    if 0 <= i < b.len() && b[i] == 0x22 {
        match string_at(b, i) {
            Some((t, e)) => Some((ValueModel::Text(t), e)),
            None => None,
        }
    } else {
        match integer_at(b, i) {
            Some((n, e)) => Some((ValueModel::Int(n), e)),
            None => None,
        }
    }
}

/// A field `"key" : value` at `i`.
pub open spec fn member_at(b: Seq<u8>, i: int) -> Option<((Seq<u8>, ValueModel), int)> {
    match string_at(b, i) {
        Some((k, j)) => {
            let c = ws_end(b, j);
            if c < b.len() && b[c] == 0x3a {
                match value_at(b, ws_end(b, c + 1)) {
                    Some((v, e)) => Some(((k, v), e)),
                    None => None,
                }
            } else {
                None
            }
        },
        None => None,
    }
}

pub proof fn lemma_member_advances(b: Seq<u8>, i: int)
    requires
        0 <= i <= b.len(),
        member_at(b, i) is Some,
    ensures
        match member_at(b, i) {
            Some((_, e)) => i < e <= b.len(),
            None => false,
        },
{
    let j = match string_at(b, i) {
        Some((_, e)) => e - 1,
        None => i,
    };
    lemma_text_end_bounds(b, i + 1);
    let j = j + 1;
    lemma_text_end_bounds(b, i + 1);
    lemma_ws_end_bounds(b, j);
    let c = ws_end(b, j);
    lemma_ws_end_bounds(b, c + 1);
    let p = ws_end(b, c + 1);
    if p < b.len() && b[p] == 0x22 {
        lemma_text_end_bounds(b, p + 1);
    } else {
        let k = if p < b.len() && b[p] == 0x2d {
            p + 1
        } else {
            p
        };
        lemma_digits_end_bounds(b, k);
    }
}

/// Fields separated by commas from `i` up to and including the closing brace:
/// the fields in document order and the position after the brace.
pub open spec fn members_from(b: Seq<u8>, i: int) -> Option<(Seq<(Seq<u8>, ValueModel)>, int)>
    decreases b.len() - i,
{
    if 0 <= i <= b.len() {
        match member_at(b, i) {
            Some((f, j)) => {
                let k = ws_end(b, j);
                if k < b.len() && b[k] == 0x2c {
                    proof {
                        lemma_member_advances(b, i);
                        lemma_ws_end_bounds(b, j);
                        lemma_ws_end_bounds(b, k + 1);
                    }
                    match members_from(b, ws_end(b, k + 1)) {
                        Some((rest, e)) => Some((seq![f] + rest, e)),
                        None => None,
                    }
                } else if k < b.len() && b[k] == 0x7d {
                    Some((seq![f], k + 1))
                } else {
                    None
                }
            },
            None => None,
        }
    } else {
        None
    }
}

/// The fields of a whole document, in document order; `None` where the bytes
/// are not one object with surrounding whitespace.
pub open spec fn document(b: Seq<u8>) -> Option<Seq<(Seq<u8>, ValueModel)>> {
    let s = ws_end(b, 0);
    if s < b.len() && b[s] == 0x7b {
        let t = ws_end(b, s + 1);
        let body = if t < b.len() && b[t] == 0x7d {
            Some((Seq::<(Seq<u8>, ValueModel)>::empty(), t + 1))
        } else {
            members_from(b, t)
        };
        match body {
            Some((fs, e)) => if ws_end(b, e) == b.len() {
                Some(fs)
            } else {
                None
            },
            None => None,
        }
    } else {
        None
    }
}

/// No key occurs twice.
pub open spec fn distinct_keys(fs: Seq<(Seq<u8>, ValueModel)>) -> bool {
    forall|i: int, j: int| 0 <= i < j < fs.len() ==> #[trigger] fs[i].0 != #[trigger] fs[j].0
}

fn skip_ws(b: &[u8], i: usize) -> (r: usize)
    requires
        i <= b@.len(),
    ensures
        r == ws_end(b@, i as int),
        i <= r <= b@.len(),
{
    let mut j = i;
    while j < b.len() && (b[j] == 0x20 || b[j] == 0x09 || b[j] == 0x0a || b[j] == 0x0d)
        invariant
            i <= j <= b@.len(),
            ws_end(b@, j as int) == ws_end(b@, i as int),
        decreases b@.len() - j,
    {
        j = j + 1;
    }
    j
}

fn scan_text(b: &[u8], i: usize) -> (r: usize)
    requires
        i <= b@.len(),
    ensures
        r == text_end(b@, i as int),
        i <= r <= b@.len(),
{
    let mut j = i;
    while j < b.len() && 0x20 <= b[j] && b[j] <= 0x7e && b[j] != 0x22 && b[j] != 0x5c
        invariant
            i <= j <= b@.len(),
            text_end(b@, j as int) == text_end(b@, i as int),
        decreases b@.len() - j,
    {
        j = j + 1;
    }
    j
}

fn scan_digits(b: &[u8], i: usize) -> (r: usize)
    requires
        i <= b@.len(),
    ensures
        r == digits_end(b@, i as int),
        i <= r <= b@.len(),
{
    let mut j = i;
    while j < b.len() && 0x30 <= b[j] && b[j] <= 0x39
        invariant
            i <= j <= b@.len(),
            digits_end(b@, j as int) == digits_end(b@, i as int),
        decreases b@.len() - j,
    {
        j = j + 1;
    }
    j
}

fn parse_string(b: &[u8], i: usize) -> (r: Option<(Vec<u8>, usize)>)
    requires
        i <= b@.len(),
    ensures
        match string_at(b@, i as int) {
            Some((t, e)) => r matches Some((v, f)) && v@ == t && f == e,
            None => r is None,
        },
        r matches Some((v, f)) ==> valid_text(v@),
{
    if i < b.len() && b[i] == 0x22 {
        let j = scan_text(b, i + 1);
        if j < b.len() && b[j] == 0x22 {
            let t = copy_bytes(&b[i + 1..j]);
            proof {
                lemma_text_end_bounds(b@, i + 1);
                assert forall|x: int| 0 <= x < t@.len() implies 0x20 <= #[trigger] t@[x] <= 0x7e
                    && t@[x] != 0x22 && t@[x] != 0x5c by {
                    assert(t@[x] == b@[i + 1 + x]);
                    assert(is_text_byte(b@[i + 1 + x]));
                }
            }
            return Some((t, j + 1));
        }
    }
    None
}

proof fn lemma_digits_value_nonneg(d: Seq<u8>)
    requires
        forall|t: int| 0 <= t < d.len() ==> is_digit(#[trigger] d[t]),
    ensures
        digits_value(d) >= 0,
    decreases d.len(),
{
    if d.len() > 0 {
        lemma_digits_value_nonneg(d.drop_last());
    }
}

proof fn lemma_digits_prefix_le(d: Seq<u8>, m: int)
    requires
        forall|t: int| 0 <= t < d.len() ==> is_digit(#[trigger] d[t]),
        0 <= m <= d.len(),
    ensures
        digits_value(d.subrange(0, m)) <= digits_value(d),
    decreases d.len(),
{
    if m == d.len() {
        assert(d.subrange(0, m) =~= d);
    } else {
        let p = d.drop_last();
        lemma_digits_prefix_le(p, m);
        assert(p.subrange(0, m) =~= d.subrange(0, m));
        lemma_digits_value_nonneg(p);
    }
}

fn parse_integer(b: &[u8], i: usize) -> (r: Option<(i64, usize)>)
    requires
        i <= b@.len(),
    ensures
        match integer_at(b@, i as int) {
            Some((v, e)) => r matches Some((n, f)) && n as int == v && f == e,
            None => r is None,
        },
{
    let neg = i < b.len() && b[i] == 0x2d;
    let k = if neg {
        i + 1
    } else {
        i
    };
    let e = scan_digits(b, k);
    if e == k {
        return None;
    }
    if e - k > 1 && b[k] == 0x30 {
        return None;
    }
    let limit: u64 = if neg {
        9223372036854775808
    } else {
        9223372036854775807
    };
    let mut acc: u64 = 0;
    let mut j = k;
    proof {
        lemma_digits_end_bounds(b@, k as int);
        assert(b@.subrange(k as int, k as int) =~= Seq::<u8>::empty());
    }
    while j < e
        invariant
            k <= j <= e <= b@.len(),
            e == digits_end(b@, k as int),
            forall|t: int| k <= t < e ==> is_digit(#[trigger] b@[t]),
            acc as int == digits_value(b@.subrange(k as int, j as int)),
            acc <= limit,
            neg == (i < b@.len() && b@[i as int] == 0x2d),
            k == (if neg {
                i + 1
            } else {
                i as int
            }),
            limit == (if neg {
                9223372036854775808u64
            } else {
                9223372036854775807u64
            }),
            e - k > 1 ==> b@[k as int] != 0x30,
        decreases e - j,
    {
        assert(is_digit(b@[j as int]));
        let d = (b[j] - 0x30) as u64;
        proof {
            assert(b@.subrange(k as int, j + 1).drop_last() =~= b@.subrange(k as int, j as int));
        }
        if acc > (limit - d) / 10 {
            proof {
                assert(acc * 10 + d > limit) by (nonlinear_arith)
                    requires
                        acc > (limit - d) / 10,
                        d <= 9,
                        limit >= 9,
                ;
                let whole = b@.subrange(k as int, e as int);
                let pre = b@.subrange(k as int, j + 1);
                assert(pre.last() == b@[j as int]);
                assert(digits_value(pre) == acc * 10 + d);
                assert(whole.subrange(0, j + 1 - k) =~= pre);
                assert forall|t: int| 0 <= t < whole.len() implies is_digit(#[trigger] whole[t]) by {
                    assert(whole[t] == b@[k + t]);
                }
                lemma_digits_prefix_le(whole, j + 1 - k);
                assert(digits_value(whole) > limit);
                assert(integer_at(b@, i as int) is None);
            }
            return None;
        }
        proof {
            assert(acc * 10 + d <= limit) by (nonlinear_arith)
                requires
                    acc <= (limit - d) / 10,
                    d <= 9,
                    limit >= 9,
            ;
        }
        proof {
            let pre = b@.subrange(k as int, j + 1);
            assert(pre.last() == b@[j as int]);
            assert(digits_value(pre) == acc * 10 + d);
        }
        acc = acc * 10 + d;
        j = j + 1;
    }
    let v: i64 = if neg {
        if acc == 9223372036854775808 {
            -9223372036854775808i64
        } else {
            -(acc as i64)
        }
    } else {
        acc as i64
    };
    Some((v, e))
}

pub open spec fn fields_model(v: Seq<(Vec<u8>, Value)>) -> Seq<(Seq<u8>, ValueModel)> {
    v.map_values(|p: (Vec<u8>, Value)| (p.0@, p.1@))
}

pub open spec fn valid_fields(fs: Seq<(Seq<u8>, ValueModel)>) -> bool {
    forall|t: int| 0 <= t < fs.len() ==> valid_text(#[trigger] fs[t].0) && valid_value(fs[t].1)
}

fn parse_value(b: &[u8], i: usize) -> (r: Option<(Value, usize)>)
    requires
        i <= b@.len(),
    ensures
        match value_at(b@, i as int) {
            Some((v, e)) => r matches Some((x, f)) && x@ == v && f == e,
            None => r is None,
        },
        r matches Some((x, f)) ==> valid_value(x@),
{
    if i < b.len() && b[i] == 0x22 {
        match parse_string(b, i) {
            Some((t, e)) => Some((Value::Text(t), e)),
            None => None,
        }
    } else {
        match parse_integer(b, i) {
            Some((n, e)) => Some((Value::Int(n), e)),
            None => None,
        }
    }
}

fn parse_member(b: &[u8], i: usize) -> (r: Option<(Vec<u8>, Value, usize)>)
    requires
        i <= b@.len(),
    ensures
        match member_at(b@, i as int) {
            Some((m, e)) => r matches Some((k, v, f)) && k@ == m.0 && v@ == m.1 && f == e,
            None => r is None,
        },
        r matches Some((k, v, f)) ==> valid_text(k@) && valid_value(v@) && f <= b@.len(),
{
    match parse_string(b, i) {
        Some((k, j)) => {
            proof {
                lemma_text_end_bounds(b@, i + 1);
            }
            let c = skip_ws(b, j);
            if c < b.len() && b[c] == 0x3a {
                let p = skip_ws(b, c + 1);
                match parse_value(b, p) {
                    Some((v, e)) => {
                        proof {
                            lemma_member_advances(b@, i as int);
                        }
                        Some((k, v, e))
                    },
                    None => None,
                }
            } else {
                None
            }
        },
        None => None,
    }
}

pub open spec fn prepend(
    acc: Seq<(Seq<u8>, ValueModel)>,
    x: Option<(Seq<(Seq<u8>, ValueModel)>, int)>,
) -> Option<(Seq<(Seq<u8>, ValueModel)>, int)> {
    match x {
        Some((fs, e)) => Some((acc + fs, e)),
        None => None,
    }
}

fn parse_members(b: &[u8], i: usize) -> (r: Option<(Vec<(Vec<u8>, Value)>, usize)>)
    requires
        i <= b@.len(),
    ensures
        match members_from(b@, i as int) {
            Some((fs, e)) => r matches Some((v, f)) && fields_model(v@) == fs && f == e,
            None => r is None,
        },
        r matches Some((v, f)) ==> valid_fields(fields_model(v@)) && f <= b@.len(),
{
    let mut out: Vec<(Vec<u8>, Value)> = Vec::new();
    let mut cur = i;
    assert(prepend(fields_model(out@), members_from(b@, cur as int)) =~= members_from(b@, i as int))
        by {
        assert(fields_model(out@) =~= Seq::<(Seq<u8>, ValueModel)>::empty());
        match members_from(b@, i as int) {
            Some((fs, e)) => {
                assert(Seq::<(Seq<u8>, ValueModel)>::empty() + fs =~= fs);
            },
            None => {},
        }
    }
    loop
        invariant
            cur <= b@.len(),
            members_from(b@, i as int) == prepend(fields_model(out@), members_from(b@, cur as int)),
            valid_fields(fields_model(out@)),
        decreases b@.len() - cur,
    {
        let ghost acc = fields_model(out@);
        match parse_member(b, cur) {
            None => {
                return None;
            },
            Some((k, v, j)) => {
                let ghost f = (k@, v@);
                let kpos = skip_ws(b, j);
                proof {
                    lemma_member_advances(b@, cur as int);
                }
                if kpos < b.len() && b[kpos] == 0x2c {
                    out.push((k, v));
                    proof {
                        assert(fields_model(out@) =~= acc.push(f));
                        match members_from(b@, ws_end(b@, kpos + 1)) {
                            Some((rest, e)) => {
                                assert(acc + (seq![f] + rest) =~= acc.push(f) + rest);
                            },
                            None => {},
                        }
                    }
                    cur = skip_ws(b, kpos + 1);
                } else if kpos < b.len() && b[kpos] == 0x7d {
                    out.push((k, v));
                    proof {
                        assert(fields_model(out@) =~= acc.push(f));
                        assert(acc + seq![f] =~= acc.push(f));
                    }
                    return Some((out, kpos + 1));
                } else {
                    return None;
                }
            },
        }
    }
}

fn parse_document(b: &[u8]) -> (r: Option<Vec<(Vec<u8>, Value)>>)
    ensures
        match document(b@) {
            Some(fs) => r matches Some(v) && fields_model(v@) == fs,
            None => r is None,
        },
        r matches Some(v) ==> valid_fields(fields_model(v@)),
{
    let s = skip_ws(b, 0);
    if !(s < b.len() && b[s] == 0x7b) {
        return None;
    }
    let t = skip_ws(b, s + 1);
    let (fields, e) = if t < b.len() && b[t] == 0x7d {
        let empty: Vec<(Vec<u8>, Value)> = Vec::new();
        assert(fields_model(empty@) =~= Seq::<(Seq<u8>, ValueModel)>::empty());
        (empty, t + 1)
    } else {
        match parse_members(b, t) {
            Some(found) => found,
            None => {
                return None;
            },
        }
    };
    if skip_ws(b, e) == b.len() {
        Some(fields)
    } else {
        None
    }
}

fn copy_value(v: &Value) -> (r: Value)
    ensures
        r@ == v@,
{
    match v {
        Value::Int(n) => Value::Int(*n),
        Value::Text(t) => Value::Text(copy_bytes(t.as_slice())),
    }
}

proof fn lemma_has_key_iff_field(s: Seq<(Seq<u8>, ValueModel)>, k: Seq<u8>)
    ensures
        has_key(s, k) <==> exists|v: ValueModel| has_field(s, k, v),
{
    if has_key(s, k) {
        let i = choose|i: int| 0 <= i < s.len() && #[trigger] s[i].0 == k;
        assert(s[i] == (k, s[i].1));
        assert(has_field(s, k, s[i].1));
    }
    if exists|v: ValueModel| has_field(s, k, v) {
        let v = choose|v: ValueModel| has_field(s, k, v);
        let i = choose|i: int| 0 <= i < s.len() && #[trigger] s[i] == (k, v);
        assert(s[i].0 == k);
    }
}

/// Reads a receipt from JSON text. Succeeds exactly when the text is one
/// object in the accepted form whose keys are all distinct; the receipt then
/// holds exactly the document's fields.
pub fn parse_receipt(json: &[u8]) -> (r: Result<Receipt, ReceiptError>)
    ensures
        match document(json@) {
            Some(fs) => if distinct_keys(fs) {
                r matches Ok(rc) && rc.wf() && same_fields(rc@, fs)
            } else {
                r == Err::<Receipt, ReceiptError>(ReceiptError::MalformedReceipt)
            },
            None => r == Err::<Receipt, ReceiptError>(ReceiptError::MalformedReceipt),
        },
{
    let fields = match parse_document(json) {
        Some(f) => f,
        None => {
            return Err(ReceiptError::MalformedReceipt);
        },
    };
    let ghost fs = fields_model(fields@);
    let mut rc = Receipt::new();
    let mut idx: usize = 0;
    assert(fs.subrange(0, 0) =~= Seq::<(Seq<u8>, ValueModel)>::empty());
    while idx < fields.len()
        invariant
            fs == fields_model(fields@),
            document(json@) == Some(fs),
            valid_fields(fs),
            idx <= fs.len(),
            rc.wf(),
            distinct_keys(fs.subrange(0, idx as int)),
            forall|k: Seq<u8>, v: ValueModel|
                has_field(rc@, k, v) == has_field(fs.subrange(0, idx as int), k, v),
        decreases fs.len() - idx,
    {
        let ghost pre = fs.subrange(0, idx as int);
        let ghost f = fs[idx as int];
        let key = fields[idx].0.as_slice();
        let value = copy_value(&fields[idx].1);
        let ghost before = rc@;
        proof {
            assert(key@ == f.0);
            assert(value@ == f.1);
            assert(valid_text(f.0) && valid_value(f.1));
            lemma_has_key_iff_field(before, f.0);
            lemma_has_key_iff_field(pre, f.0);
            if exists|v: ValueModel| has_field(before, f.0, v) {
                let v = choose|v: ValueModel| has_field(before, f.0, v);
                assert(has_field(pre, f.0, v));
            }
            if exists|v: ValueModel| has_field(pre, f.0, v) {
                let v = choose|v: ValueModel| has_field(pre, f.0, v);
                assert(has_field(before, f.0, v));
            }
            assert(has_key(before, f.0) == has_key(pre, f.0));
        }
        match rc.insert(key, value) {
            Err(e) => {
                proof {
                    assert(has_key(pre, f.0));
                    let i = choose|i: int| 0 <= i < pre.len() && #[trigger] pre[i].0 == f.0;
                    assert(fs[i].0 == fs[idx as int].0);
                    assert(!distinct_keys(fs));
                }
                return Err(e);
            },
            Ok(()) => {
                proof {
                    let next = fs.subrange(0, idx + 1);
                    assert(next =~= pre.push(f));
                    assert forall|k: Seq<u8>, v: ValueModel|
                        has_field(rc@, k, v) == has_field(next, k, v) by {
                        if has_field(pre, k, v) {
                            let i = choose|i: int| 0 <= i < pre.len() && #[trigger] pre[i] == (k, v);
                            assert(next[i] == (k, v));
                        }
                        if has_field(next, k, v) {
                            let i = choose|i: int| 0 <= i < next.len() && #[trigger] next[i] == (k, v);
                            if i < pre.len() {
                                assert(pre[i] == (k, v));
                            }
                        }
                        if k == f.0 && v == f.1 {
                            assert(next[idx as int] == (k, v));
                        }
                    }
                    assert forall|i: int, j: int| 0 <= i < j < next.len() implies #[trigger] next[i].0
                        != #[trigger] next[j].0 by {
                        if j == idx {
                            if next[i].0 == next[j].0 {
                                assert(pre[i].0 == f.0);
                            }
                        } else {
                            assert(pre[i] == next[i] && pre[j] == next[j]);
                        }
                    }
                }
            },
        }
        idx = idx + 1;
    }
    assert(fs.subrange(0, fs.len() as int) =~= fs);
    Ok(rc)
}

/// The fields of `fs` ordered by key.
pub open spec fn ordered_form(fs: Seq<(Seq<u8>, ValueModel)>) -> Seq<(Seq<u8>, ValueModel)> {
    choose|s: Seq<(Seq<u8>, ValueModel)>| ordered_fields(s) && same_fields(s, fs)
}

proof fn lemma_ordered_form_is(fs: Seq<(Seq<u8>, ValueModel)>, s: Seq<(Seq<u8>, ValueModel)>)
    requires
        ordered_fields(s),
        same_fields(s, fs),
    ensures
        ordered_form(fs) == s,
{
    let o = ordered_form(fs);
    assert(ordered_fields(o) && same_fields(o, fs));
    assert forall|k: Seq<u8>, v: ValueModel| has_field(o, k, v) == has_field(s, k, v) by {
        assert(has_field(o, k, v) == has_field(fs, k, v));
        assert(has_field(s, k, v) == has_field(fs, k, v));
    }
    lemma_ordered_fields_unique(o, s);
}

/// The canonical encoding of a receipt given as JSON text: its fields ordered
/// by key, compact, without whitespace. Fails exactly where `parse_receipt` does.
pub fn canonicalize_json(json: &[u8]) -> (r: Result<Vec<u8>, ReceiptError>)
    ensures
        match document(json@) {
            Some(fs) => if distinct_keys(fs) {
                r matches Ok(out) && out@ == canonical_bytes(ordered_form(fs))
            } else {
                r == Err::<Vec<u8>, ReceiptError>(ReceiptError::MalformedReceipt)
            },
            None => r == Err::<Vec<u8>, ReceiptError>(ReceiptError::MalformedReceipt),
        },
{
    match parse_receipt(json) {
        Ok(rc) => {
            let out = rc.canonicalize();
            proof {
                rc.lemma_wf_ordered();
                let fs = document(json@)->Some_0;
                lemma_ordered_form_is(fs, rc@);
            }
            Ok(out)
        },
        Err(e) => Err(e),
    }
}

/// The digest of a JSON receipt's canonical encoding.
pub fn digest_json(json: &[u8]) -> (r: Result<[u8; 32], ReceiptError>)
    ensures
        match document(json@) {
            Some(fs) => if distinct_keys(fs) {
                r matches Ok(d) && d@ == blake3_of(canonical_bytes(ordered_form(fs)))
            } else {
                r == Err::<[u8; 32], ReceiptError>(ReceiptError::MalformedReceipt)
            },
            None => r == Err::<[u8; 32], ReceiptError>(ReceiptError::MalformedReceipt),
        },
{
    match canonicalize_json(json) {
        Ok(bytes) => Ok(digest(bytes.as_slice())),
        Err(e) => Err(e),
    }
}

/// Field-order independence for JSON text: two documents with the same set
/// of fields, written in any order and with any whitespace, have the same
/// canonical encoding.
pub proof fn lemma_documents_with_same_fields(
    f1: Seq<(Seq<u8>, ValueModel)>,
    f2: Seq<(Seq<u8>, ValueModel)>,
    s1: Seq<(Seq<u8>, ValueModel)>,
    s2: Seq<(Seq<u8>, ValueModel)>,
)
    requires
        same_fields(f1, f2),
        ordered_fields(s1),
        ordered_fields(s2),
        same_fields(s1, f1),
        same_fields(s2, f2),
    ensures
        canonical_bytes(s1) == canonical_bytes(s2),
{
    assert forall|k: Seq<u8>, v: ValueModel| has_field(s1, k, v) == has_field(s2, k, v) by {
        assert(has_field(s1, k, v) == has_field(f1, k, v));
        assert(has_field(f1, k, v) == has_field(f2, k, v));
        assert(has_field(s2, k, v) == has_field(f2, k, v));
    }
    lemma_ordered_fields_unique(s1, s2);
}

} // verus!
