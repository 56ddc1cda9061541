//! Receipts and their canonical byte encoding.
//!
//! A receipt is a set of fields, each a key with an integer or text value.
//! Fields are held ordered by key (bytewise lexicographic order), so the
//! encoding depends on the set of fields only, never on the order in which
//! they were inserted. The encoding is compact JSON:
//! `{"amount":100,"id":1}`.
use vstd::prelude::*;
use crate::digest::{blake3_of, digest, hex_of, to_hex};

verus! {

/// Bytewise lexicographic order: a proper prefix comes first.
pub open spec fn lex_lt(a: Seq<u8>, b: Seq<u8>) -> bool
    decreases a.len(),
{
    if a.len() == 0 {
        b.len() > 0
    } else if b.len() == 0 {
        false
    } else if a[0] != b[0] {
        a[0] < b[0]
    } else {
        lex_lt(a.drop_first(), b.drop_first())
    }
}

/// No byte string comes before itself.
pub proof fn lemma_lex_irreflexive(a: Seq<u8>)
    ensures
        !lex_lt(a, a),
    decreases a.len(),
{
    if a.len() > 0 {
        lemma_lex_irreflexive(a.drop_first());
    }
}

/// The order is transitive.
pub proof fn lemma_lex_transitive(a: Seq<u8>, b: Seq<u8>, c: Seq<u8>)
    requires
        lex_lt(a, b),
        lex_lt(b, c),
    ensures
        lex_lt(a, c),
    decreases a.len(),
{
    if a.len() > 0 && b.len() > 0 && c.len() > 0 && a[0] == b[0] && b[0] == c[0] {
        lemma_lex_transitive(a.drop_first(), b.drop_first(), c.drop_first());
    }
}

/// Of two different byte strings, one comes before the other.
pub proof fn lemma_lex_total(a: Seq<u8>, b: Seq<u8>)
    requires
        a != b,
    ensures
        lex_lt(a, b) || lex_lt(b, a),
    decreases a.len(),
{
    if a.len() > 0 && b.len() > 0 && a[0] == b[0] {
        if a.drop_first() == b.drop_first() {
            assert(a =~= seq![a[0]] + a.drop_first());
            assert(b =~= seq![b[0]] + b.drop_first());
        }
        lemma_lex_total(a.drop_first(), b.drop_first());
    } else if a.len() == 0 && b.len() == 0 {
        assert(a =~= b);
    }
}

/// Whether `a` comes strictly before `b` in bytewise lexicographic order.
pub fn bytes_lt(a: &[u8], b: &[u8]) -> (r: bool)
    ensures
        r == lex_lt(a@, b@),
{
    let mut i: usize = 0;
    assert(a@.skip(0) =~= a@);
    assert(b@.skip(0) =~= b@);
    while i < a.len() && i < b.len()
        invariant
            i <= a@.len(),
            i <= b@.len(),
            lex_lt(a@, b@) == lex_lt(a@.skip(i as int), b@.skip(i as int)),
        decreases a@.len() - i,
    {
        if a[i] != b[i] {
            return a[i] < b[i];
        }
        proof {
            assert(a@.skip(i as int).drop_first() =~= a@.skip(i + 1));
            assert(b@.skip(i as int).drop_first() =~= b@.skip(i + 1));
        }
        i = i + 1;
    }
    i == a.len() && i < b.len()
}

/// Whether two byte strings are equal.
pub fn bytes_eq(a: &[u8], b: &[u8]) -> (r: bool)
    ensures
        r == (a@ == b@),
{
    if a.len() != b.len() {
        return false;
    }
    let mut i: usize = 0;
    while i < a.len()
        invariant
            a@.len() == b@.len(),
            i <= a@.len(),
            forall|t: int| 0 <= t < i ==> a@[t] == b@[t],
        decreases a@.len() - i,
    {
        if a[i] != b[i] {
            return false;
        }
        i = i + 1;
    }
    assert(a@ =~= b@);
    true
}

/// Errors in building a receipt.
#[derive(Debug, Clone, Copy, PartialEq, Eq, Structural)]
pub enum ReceiptError {
    /// A key or text value outside the accepted alphabet, or a key given twice.
    MalformedReceipt,
}

/// The value of a field.
#[derive(Debug, PartialEq, Eq)]
pub enum Value {
    Int(i64),
    Text(Vec<u8>),
}

/// What a field's value is, mathematically.
pub enum ValueModel {
    Int(int),
    Text(Seq<u8>),
}

impl View for Value {
    type V = ValueModel;

    open spec fn view(&self) -> ValueModel {
        match self {
            Value::Int(n) => ValueModel::Int(*n as int),
            Value::Text(t) => ValueModel::Text(t@),
        }
    }
}

/// Keys and text values are printable ASCII without `"` and `\`, so they
/// stand in the encoding as they are, between quotes.
pub open spec fn valid_text(t: Seq<u8>) -> bool {
    forall|i: int| 0 <= i < t.len() ==> 0x20 <= #[trigger] t[i] <= 0x7e && t[i] != 0x22 && t[i] != 0x5c
}

pub open spec fn valid_value(v: ValueModel) -> bool {
    match v {
        ValueModel::Int(_) => true,
        ValueModel::Text(t) => valid_text(t),
    }
}

/// Fields strictly ordered by key, every key and text value valid.
pub open spec fn ordered_fields(s: Seq<(Seq<u8>, ValueModel)>) -> bool {
    &&& forall|i: int, j: int| 0 <= i < j < s.len() ==> lex_lt(#[trigger] s[i].0, #[trigger] s[j].0)
    &&& forall|i: int| 0 <= i < s.len() ==> valid_text(#[trigger] s[i].0) && valid_value(s[i].1)
}

/// Whether the field `(k, v)` is among `s`.
pub open spec fn has_field(s: Seq<(Seq<u8>, ValueModel)>, k: Seq<u8>, v: ValueModel) -> bool {
    exists|i: int| 0 <= i < s.len() && #[trigger] s[i] == (k, v)
}

/// Whether some field of `s` has key `k`.
pub open spec fn has_key(s: Seq<(Seq<u8>, ValueModel)>, k: Seq<u8>) -> bool {
    exists|i: int| 0 <= i < s.len() && #[trigger] s[i].0 == k
}

/// Two field sequences hold the same fields, whatever their order.
pub open spec fn same_fields(s: Seq<(Seq<u8>, ValueModel)>, t: Seq<(Seq<u8>, ValueModel)>) -> bool {
    forall|k: Seq<u8>, v: ValueModel| has_field(s, k, v) == has_field(t, k, v)
}

proof fn lemma_insert_keeps_order(
    s: Seq<(Seq<u8>, ValueModel)>,
    p: int,
    key: Seq<u8>,
    vm: ValueModel,
)
    requires
        ordered_fields(s),
        0 <= p <= s.len(),
        forall|i: int| 0 <= i < p ==> lex_lt(#[trigger] s[i].0, key),
        forall|j: int| p <= j < s.len() ==> lex_lt(key, #[trigger] s[j].0),
        valid_text(key),
        valid_value(vm),
    ensures
        ordered_fields(s.insert(p, (key, vm))),
{
    let t = s.insert(p, (key, vm));
    assert forall|i: int, j: int| 0 <= i < j < t.len() implies lex_lt(
        #[trigger] t[i].0,
        #[trigger] t[j].0,
    ) by {
        if j < p {
            assert(t[i] == s[i] && t[j] == s[j]);
        } else if j == p {
            assert(t[i] == s[i]);
        } else if i < p {
            assert(t[i] == s[i] && t[j] == s[j - 1]);
            assert(lex_lt(s[i].0, s[j - 1].0));
        } else if i == p {
            assert(t[j] == s[j - 1]);
        } else {
            assert(t[i] == s[i - 1] && t[j] == s[j - 1]);
            assert(lex_lt(s[i - 1].0, s[j - 1].0));
        }
    }
    assert forall|i: int| 0 <= i < t.len() implies valid_text(#[trigger] t[i].0) && valid_value(
        t[i].1,
    ) by {
        if i < p {
            assert(t[i] == s[i]);
            assert(valid_text(s[i].0) && valid_value(s[i].1));
        } else if i > p {
            assert(t[i] == s[i - 1]);
            assert(valid_text(s[i - 1].0) && valid_value(s[i - 1].1));
        } else {
            assert(t[i] == (key, vm));
        }
    }
}

/// A receipt: a set of fields kept ordered by key.
pub struct Receipt {
    keys: Vec<Vec<u8>>,
    values: Vec<Value>,
}

impl View for Receipt {
    type V = Seq<(Seq<u8>, ValueModel)>;

    closed spec fn view(&self) -> Seq<(Seq<u8>, ValueModel)> {
        Seq::new(self.keys@.len(), |i: int| (self.keys@[i]@, self.values@[i]@))
    }
}

impl Receipt {
    pub closed spec fn wf(&self) -> bool {
        &&& self.keys@.len() == self.values@.len()
        &&& ordered_fields(self@)
    }

    /// A well-formed receipt holds its fields ordered by key.
    pub proof fn lemma_wf_ordered(&self)
        requires
            self.wf(),
        ensures
            ordered_fields(self@),
    {
    }

    /// A receipt with no fields.
    pub fn new() -> (r: Receipt)
        ensures
            r.wf(),
            r@ == Seq::<(Seq<u8>, ValueModel)>::empty(),
    {
        let r = Receipt { keys: Vec::new(), values: Vec::new() };
        assert(r@ =~= Seq::<(Seq<u8>, ValueModel)>::empty());
        r
    }

    /// Number of fields.
    pub fn len(&self) -> (n: usize)
        requires
            self.wf(),
        ensures
            n == self@.len(),
    {
        self.keys.len()
    }

    /// Adds the field `key: value`. A key or text value outside the accepted
    /// alphabet, or a key already present, is refused and the receipt stays
    /// as it was. Otherwise the receipt holds its old fields and the new one.
    pub fn insert(&mut self, key: &[u8], value: Value) -> (r: Result<(), ReceiptError>)
        requires
            old(self).wf(),
        ensures
            final(self).wf(),
            r is Ok <==> (valid_text(key@) && valid_value(value@) && !has_key(old(self)@, key@)),
            r is Err ==> r == Err::<(), ReceiptError>(ReceiptError::MalformedReceipt)
                && final(self)@ == old(self)@,
            r is Ok ==> final(self)@.len() == old(self)@.len() + 1 && forall|k: Seq<u8>, v: ValueModel|
                has_field(final(self)@, k, v) == (has_field(old(self)@, k, v) || (k == key@ && v
                    == value@)),
    {
        let ok_key = check_text(key);
        let ok_value = match &value {
            Value::Int(_) => true,
            Value::Text(t) => check_text(t.as_slice()),
        };
        if !ok_key || !ok_value {
            return Err(ReceiptError::MalformedReceipt);
        }
        assert(valid_text(key@) && valid_value(value@));
        let ghost s = self@;
        let n = self.keys.len();
        let mut p: usize = 0;
        while p < n && bytes_lt(self.keys[p].as_slice(), key)
            invariant
                self.wf(),
                s == self@,
                n == s.len(),
                p <= n,
                forall|i: int| 0 <= i < p ==> lex_lt(#[trigger] s[i].0, key@),
            decreases n - p,
        {
            p = p + 1;
        }
        if p < n && bytes_eq(self.keys[p].as_slice(), key) {
            assert(s[p as int].0 == key@);
            return Err(ReceiptError::MalformedReceipt);
        }
        proof {
            if p < n {
                lemma_lex_total(s[p as int].0, key@);
            }
            // every key from position p on comes after the new key
            assert forall|j: int| p <= j < n implies lex_lt(key@, #[trigger] s[j].0) by {
                if j > p {
                    lemma_lex_transitive(key@, s[p as int].0, s[j].0);
                }
            }
            assert forall|i: int| 0 <= i < n implies #[trigger] s[i].0 != key@ by {
                if i < p {
                    lemma_lex_irreflexive(key@);
                } else {
                    lemma_lex_irreflexive(key@);
                }
            }
        }
        let ghost vm = value@;
        self.keys.insert(p, copy_bytes(key));
        self.values.insert(p, value);
        proof {
            let t = s.insert(p as int, (key@, vm));
            assert(self@ =~= t);
            lemma_insert_keeps_order(s, p as int, key@, vm);
            assert forall|k: Seq<u8>, v: ValueModel|
                has_field(t, k, v) == (has_field(s, k, v) || (k == key@ && v == vm)) by {
                if has_field(s, k, v) {
                    let i = choose|i: int| 0 <= i < s.len() && #[trigger] s[i] == (k, v);
                    if i < p {
                        assert(t[i] == s[i]);
                    } else {
                        assert(t[i + 1] == s[i]);
                    }
                }
                if k == key@ && v == vm {
                    assert(t[p as int] == (k, v));
                }
                if has_field(t, k, v) {
                    let i = choose|i: int| 0 <= i < t.len() && #[trigger] t[i] == (k, v);
                    if i < p {
                        assert(s[i] == t[i]);
                    } else if i > p {
                        assert(s[i - 1] == t[i]);
                    }
                }
            }
        }
        Ok(())
    }
}

/// A fresh vector holding the bytes of `b`.
pub fn copy_bytes(b: &[u8]) -> (r: Vec<u8>)
    ensures
        r@ == b@,
{
    let mut out: Vec<u8> = Vec::with_capacity(b.len());
    let mut i: usize = 0;
    while i < b.len()
        invariant
            i <= b@.len(),
            out@ == b@.subrange(0, i as int),
        decreases b@.len() - i,
    {
        out.push(b[i]);
        i = i + 1;
    }
    assert(out@ =~= b@);
    out
}

/// Whether `t` is valid text.
pub fn check_text(t: &[u8]) -> (r: bool)
    ensures
        r == valid_text(t@),
{
    let mut i: usize = 0;
    while i < t.len()
        invariant
            i <= t@.len(),
            forall|j: int| 0 <= j < i ==> 0x20 <= #[trigger] t@[j] <= 0x7e && t@[j] != 0x22 && t@[j] != 0x5c,
        decreases t@.len() - i,
    {
        let b = t[i];
        if b < 0x20 || b > 0x7e || b == 0x22 || b == 0x5c {
            return false;
        }
        i = i + 1;
    }
    true
}

/// Decimal digits of a natural number, no leading zeros.
pub open spec fn decimal(n: nat) -> Seq<u8>
    decreases n,
{
    if n < 10 {
        seq![(48 + n) as u8]
    } else {
        decimal(n / 10) + seq![(48 + n % 10) as u8]
    }
}

/// An integer in decimal, with `-` before a negative one.
pub open spec fn int_bytes(n: int) -> Seq<u8> {
    if n < 0 {
        seq![0x2du8] + decimal((-n) as nat)
    } else {
        decimal(n as nat)
    }
}

/// Text between double quotes.
pub open spec fn quoted(t: Seq<u8>) -> Seq<u8> {
    seq![0x22u8] + t + seq![0x22u8]
}

pub open spec fn value_bytes(v: ValueModel) -> Seq<u8> {
    match v {
        ValueModel::Int(n) => int_bytes(n),
        ValueModel::Text(t) => quoted(t),
    }
}

/// One field: `"key":value`.
pub open spec fn field_bytes(f: (Seq<u8>, ValueModel)) -> Seq<u8> {
    quoted(f.0) + seq![0x3au8] + value_bytes(f.1)
}

/// Fields in order, separated by commas.
pub open spec fn fields_bytes(s: Seq<(Seq<u8>, ValueModel)>) -> Seq<u8>
    decreases s.len(),
{
    if s.len() == 0 {
        Seq::empty()
    } else if s.len() == 1 {
        field_bytes(s[0])
    } else {
        fields_bytes(s.drop_last()) + seq![0x2cu8] + field_bytes(s.last())
    }
}

/// The canonical encoding of a receipt's fields: `{` fields `}`.
pub open spec fn canonical_bytes(s: Seq<(Seq<u8>, ValueModel)>) -> Seq<u8> {
    seq![0x7bu8] + fields_bytes(s) + seq![0x7du8]
}

fn push_bytes(out: &mut Vec<u8>, b: &[u8])
    ensures
        final(out)@ == old(out)@ + b@,
{
    let mut i: usize = 0;
    while i < b.len()
        invariant
            i <= b@.len(),
            out@ == old(out)@ + b@.subrange(0, i as int),
        decreases b@.len() - i,
    {
        out.push(b[i]);
        proof {
            assert(old(out)@ + b@.subrange(0, i + 1) =~= (old(out)@ + b@.subrange(0, i as int)).push(b@[i as int]));
        }
        i = i + 1;
    }
    assert(b@.subrange(0, b@.len() as int) =~= b@);
}

fn push_decimal(out: &mut Vec<u8>, n: u64)
    ensures
        final(out)@ == old(out)@ + decimal(n as nat),
    decreases n,
{
    if n >= 10 {
        push_decimal(out, n / 10);
    }
    out.push(48 + (n % 10) as u8);
    assert(n < 10 ==> (n % 10) == n);
    assert(final(out)@ =~= old(out)@ + decimal(n as nat));
}

fn push_int(out: &mut Vec<u8>, n: i64)
    ensures
        final(out)@ == old(out)@ + int_bytes(n as int),
{
    if n < 0 {
        out.push(0x2d);
        let m: u64 = (-(n + 1)) as u64 + 1;
        push_decimal(out, m);
        assert(final(out)@ =~= old(out)@ + int_bytes(n as int));
    } else {
        push_decimal(out, n as u64);
    }
}

fn push_quoted(out: &mut Vec<u8>, t: &[u8])
    ensures
        final(out)@ == old(out)@ + quoted(t@),
{
    out.push(0x22);
    push_bytes(out, t);
    out.push(0x22);
    assert(final(out)@ =~= old(out)@ + quoted(t@));
}

impl Receipt {
    /// The canonical encoding of this receipt.
    pub fn canonicalize(&self) -> (r: Vec<u8>)
        requires
            self.wf(),
        ensures
            r@ == canonical_bytes(self@),
    {
        let ghost s = self@;
        let mut out: Vec<u8> = Vec::new();
        out.push(0x7b);
        let mut i: usize = 0;
        while i < self.keys.len()
            invariant
                self.wf(),
                s == self@,
                i <= s.len(),
                out@ == seq![0x7bu8] + fields_bytes(s.subrange(0, i as int)),
            decreases s.len() - i,
        {
            let ghost before = out@;
            if i > 0 {
                out.push(0x2c);
            }
            push_quoted(&mut out, self.keys[i].as_slice());
            out.push(0x3a);
            match &self.values[i] {
                Value::Int(n) => push_int(&mut out, *n),
                Value::Text(t) => push_quoted(&mut out, t.as_slice()),
            }
            proof {
                let next = s.subrange(0, i + 1);
                assert(next.drop_last() =~= s.subrange(0, i as int));
                assert(next.last() == s[i as int]);
                if i == 0 {
                    assert(out@ =~= seq![0x7bu8] + fields_bytes(next));
                } else {
                    assert(out@ =~= seq![0x7bu8] + fields_bytes(next));
                }
            }
            i = i + 1;
        }
        out.push(0x7d);
        assert(s.subrange(0, s.len() as int) =~= s);
        out
    }
}

proof fn lemma_tail_same_fields(s: Seq<(Seq<u8>, ValueModel)>, t: Seq<(Seq<u8>, ValueModel)>)
    requires
        ordered_fields(s),
        ordered_fields(t),
        same_fields(s, t),
        s.len() > 0,
        t.len() > 0,
        s[0] == t[0],
    ensures
        same_fields(s.drop_first(), t.drop_first()),
{
    assert forall|k: Seq<u8>, v: ValueModel|
        has_field(s.drop_first(), k, v) implies has_field(t.drop_first(), k, v) by {
        let i = choose|i: int| 0 <= i < s.drop_first().len() && #[trigger] s.drop_first()[i] == (k, v);
        assert(s[i + 1] == (k, v));
        assert(has_field(t, k, v));
        let m = choose|m: int| 0 <= m < t.len() && #[trigger] t[m] == (k, v);
        if m == 0 {
            assert(lex_lt(s[0].0, s[i + 1].0));
            lemma_lex_irreflexive(s[0].0);
        }
        assert(t.drop_first()[m - 1] == (k, v));
    }
    assert forall|k: Seq<u8>, v: ValueModel|
        has_field(t.drop_first(), k, v) implies has_field(s.drop_first(), k, v) by {
        let i = choose|i: int| 0 <= i < t.drop_first().len() && #[trigger] t.drop_first()[i] == (k, v);
        assert(t[i + 1] == (k, v));
        assert(has_field(s, k, v));
        let m = choose|m: int| 0 <= m < s.len() && #[trigger] s[m] == (k, v);
        if m == 0 {
            assert(lex_lt(t[0].0, t[i + 1].0));
            lemma_lex_irreflexive(t[0].0);
        }
        assert(s.drop_first()[m - 1] == (k, v));
    }
}

/// Fields ordered by key are determined by the set of fields they hold.
pub proof fn lemma_ordered_fields_unique(s: Seq<(Seq<u8>, ValueModel)>, t: Seq<(Seq<u8>, ValueModel)>)
    requires
        ordered_fields(s),
        ordered_fields(t),
        same_fields(s, t),
    ensures
        s == t,
    decreases s.len(),
{
    if s.len() == 0 || t.len() == 0 {
        if t.len() > 0 {
            assert(has_field(t, t[0].0, t[0].1));
        }
        if s.len() > 0 {
            assert(has_field(s, s[0].0, s[0].1));
        }
        assert(s =~= t);
    } else {
        assert(has_field(s, s[0].0, s[0].1));
        assert(has_field(t, t[0].0, t[0].1));
        let j = choose|j: int| 0 <= j < t.len() && #[trigger] t[j] == (s[0].0, s[0].1);
        let i = choose|i: int| 0 <= i < s.len() && #[trigger] s[i] == (t[0].0, t[0].1);
        if j > 0 {
            assert(lex_lt(t[0].0, t[j].0));
            if i == 0 {
                lemma_lex_irreflexive(t[0].0);
            } else {
                assert(lex_lt(s[0].0, s[i].0));
                lemma_lex_transitive(t[0].0, s[0].0, t[0].0);
                lemma_lex_irreflexive(t[0].0);
            }
        }
        assert(s[0] == t[0]);
        lemma_tail_same_fields(s, t);
        lemma_ordered_fields_unique(s.drop_first(), t.drop_first());
        assert(s =~= seq![s[0]] + s.drop_first());
        assert(t =~= seq![t[0]] + t.drop_first());
    }
}

/// Field-order independence: two receipts that hold the same fields, whatever
/// the order in which they were inserted, have the same canonical encoding.
pub proof fn lemma_field_order_irrelevant(a: Receipt, b: Receipt)
    requires
        a.wf(),
        b.wf(),
        same_fields(a@, b@),
    ensures
        canonical_bytes(a@) == canonical_bytes(b@),
{
    lemma_ordered_fields_unique(a@, b@);
}

impl Receipt {
    /// The digest of this receipt's canonical encoding.
    pub fn digest(&self) -> (d: [u8; 32])
        requires
            self.wf(),
        ensures
            d@ == blake3_of(canonical_bytes(self@)),
    {
        let bytes = self.canonicalize();
        digest(bytes.as_slice())
    }

    /// The digest of this receipt's canonical encoding, in lowercase hex.
    pub fn digest_hex(&self) -> (s: String)
        requires
            self.wf(),
        ensures
            s@ == hex_of(blake3_of(canonical_bytes(self@))),
    {
        let d = self.digest();
        to_hex(&d)
    }
}

/// Determinism: a receipt's digest is a function of the fields it holds
/// alone, so repeated digests of one receipt, or of receipts built from the
/// same fields in any order, agree.
pub proof fn lemma_digest_depends_on_fields_only(a: Receipt, b: Receipt)
    requires
        a.wf(),
        b.wf(),
        same_fields(a@, b@),
    ensures
        blake3_of(canonical_bytes(a@)) == blake3_of(canonical_bytes(b@)),
{
    lemma_field_order_irrelevant(a, b);
}

proof fn lemma_fields_concat(a: Seq<(Seq<u8>, ValueModel)>, b: Seq<(Seq<u8>, ValueModel)>)
    requires
        a.len() > 0,
        b.len() > 0,
    ensures
        fields_bytes(a + b) == fields_bytes(a) + seq![0x2cu8] + fields_bytes(b),
    decreases b.len(),
{
    let ab = a + b;
    assert(ab.drop_last() =~= a + b.drop_last());
    assert(ab.last() == b.last());
    if b.len() > 1 {
        lemma_fields_concat(a, b.drop_last());
        assert(fields_bytes(b) == fields_bytes(b.drop_last()) + seq![0x2cu8] + field_bytes(
            b.last(),
        ));
        assert(fields_bytes(ab) =~= fields_bytes(a) + seq![0x2cu8] + fields_bytes(b));
    } else {
        assert(b.drop_last() =~= Seq::<(Seq<u8>, ValueModel)>::empty());
        assert(a + b.drop_last() =~= a);
    }
}

/// The bytes before field `p` in the comma-separated fields.
pub open spec fn bytes_before(s: Seq<(Seq<u8>, ValueModel)>, p: int) -> Seq<u8> {
    if p == 0 {
        Seq::empty()
    } else {
        fields_bytes(s.subrange(0, p)) + seq![0x2cu8]
    }
}

/// The bytes after field `p` in the comma-separated fields.
pub open spec fn bytes_after(s: Seq<(Seq<u8>, ValueModel)>, p: int) -> Seq<u8> {
    if p == s.len() - 1 {
        Seq::empty()
    } else {
        seq![0x2cu8] + fields_bytes(s.subrange(p + 1, s.len() as int))
    }
}

proof fn lemma_fields_split(s: Seq<(Seq<u8>, ValueModel)>, p: int)
    requires
        0 <= p < s.len(),
    ensures
        fields_bytes(s) == bytes_before(s, p) + field_bytes(s[p]) + bytes_after(s, p),
{
    let pre = s.subrange(0, p);
    let one = seq![s[p]];
    let post = s.subrange(p + 1, s.len() as int);
    let rest = one + post;
    assert(fields_bytes(one) == field_bytes(s[p]));
    if post.len() > 0 {
        lemma_fields_concat(one, post);
    } else {
        assert(rest =~= one);
    }
    assert(fields_bytes(rest) =~= field_bytes(s[p]) + bytes_after(s, p));
    if p > 0 {
        assert(s =~= pre + rest);
        lemma_fields_concat(pre, rest);
        assert(fields_bytes(s) =~= bytes_before(s, p) + field_bytes(s[p]) + bytes_after(s, p));
    } else {
        assert(s =~= rest);
        assert(fields_bytes(s) =~= bytes_before(s, p) + field_bytes(s[p]) + bytes_after(s, p));
    }
}

proof fn lemma_middle_equal(a: Seq<u8>, x: Seq<u8>, y: Seq<u8>, b: Seq<u8>)
    requires
        a + x + b == a + y + b,
    ensures
        x == y,
{
    let l = a + x + b;
    assert(l.len() == a.len() + x.len() + b.len());
    assert((a + y + b).len() == a.len() + y.len() + b.len());
    assert(x.len() == y.len());
    assert(x =~= l.subrange(a.len() as int, (a.len() + x.len()) as int));
    assert(y =~= (a + y + b).subrange(a.len() as int, (a.len() + y.len()) as int));
}

proof fn lemma_decimal_shape(n: nat)
    ensures
        decimal(n).len() >= 1,
        48 <= decimal(n)[0] <= 57,
        n >= 10 ==> decimal(n).len() >= 2,
    decreases n,
{
    if n >= 10 {
        lemma_decimal_shape(n / 10);
    }
}

proof fn lemma_decimal_injective(n: nat, m: nat)
    requires
        decimal(n) == decimal(m),
    ensures
        n == m,
    decreases n,
{
    lemma_decimal_shape(n);
    lemma_decimal_shape(m);
    if n >= 10 && m >= 10 {
        assert(decimal(n).drop_last() =~= decimal(n / 10));
        assert(decimal(m).drop_last() =~= decimal(m / 10));
        lemma_decimal_injective(n / 10, m / 10);
        assert(decimal(n).last() == (48 + n % 10) as u8);
        assert(decimal(m).last() == (48 + m % 10) as u8);
        assert(n % 10 == m % 10);
        assert(n == 10 * (n / 10) + n % 10);
        assert(m == 10 * (m / 10) + m % 10);
    } else if n < 10 && m < 10 {
        assert(decimal(n)[0] == (48 + n) as u8);
        assert(decimal(m)[0] == (48 + m) as u8);
    } else {
        assert(decimal(n).len() != decimal(m).len());
    }
}

proof fn lemma_value_bytes_injective(v: ValueModel, w: ValueModel)
    requires
        value_bytes(v) == value_bytes(w),
    ensures
        v == w,
{
    let bv = value_bytes(v);
    match v {
        ValueModel::Int(n) => {
            if n < 0 {
                lemma_decimal_shape((-n) as nat);
            } else {
                lemma_decimal_shape(n as nat);
            }
            match w {
                ValueModel::Int(m) => {
                    if m < 0 {
                        lemma_decimal_shape((-m) as nat);
                    } else {
                        lemma_decimal_shape(m as nat);
                    }
                    if n < 0 {
                        assert(bv[0] == 0x2d);
                    } else {
                        assert(bv[0] == decimal(n as nat)[0]);
                    }
                    if m < 0 {
                        assert(value_bytes(w)[0] == 0x2d);
                    } else {
                        assert(value_bytes(w)[0] == decimal(m as nat)[0]);
                    }
                    if n < 0 && m < 0 {
                        assert(decimal((-n) as nat) =~= bv.drop_first());
                        assert(decimal((-m) as nat) =~= value_bytes(w).drop_first());
                        lemma_decimal_injective((-n) as nat, (-m) as nat);
                    } else if n >= 0 && m >= 0 {
                        lemma_decimal_injective(n as nat, m as nat);
                    }
                },
                ValueModel::Text(_) => {
                    assert(value_bytes(w)[0] == 0x22);
                    if n < 0 {
                        assert(bv[0] == 0x2d);
                    } else {
                        assert(bv[0] == decimal(n as nat)[0]);
                    }
                },
            }
        },
        ValueModel::Text(t) => {
            match w {
                ValueModel::Int(m) => {
                    assert(bv[0] == 0x22);
                    if m < 0 {
                        assert(value_bytes(w)[0] == 0x2d);
                    } else {
                        lemma_decimal_shape(m as nat);
                        assert(value_bytes(w)[0] == decimal(m as nat)[0]);
                    }
                },
                ValueModel::Text(u) => {
                    assert(t =~= bv.subrange(1, bv.len() - 1));
                    assert(u =~= value_bytes(w).subrange(1, bv.len() - 1));
                },
            }
        },
    }
}

spec fn head_of(s: Seq<(Seq<u8>, ValueModel)>, p: int) -> Seq<u8> {
    seq![0x7bu8] + bytes_before(s, p) + quoted(s[p].0) + seq![0x3au8]
}

spec fn tail_of(s: Seq<(Seq<u8>, ValueModel)>, p: int) -> Seq<u8> {
    bytes_after(s, p) + seq![0x7du8]
}

#[verifier::rlimit(40)]
proof fn lemma_canonical_around(s: Seq<(Seq<u8>, ValueModel)>, p: int)
    requires
        0 <= p < s.len(),
    ensures
        canonical_bytes(s) == head_of(s, p) + value_bytes(s[p].1) + tail_of(s, p),
{
    lemma_fields_split(s, p);
    let mid = field_bytes(s[p]);
    assert(mid == quoted(s[p].0) + seq![0x3au8] + value_bytes(s[p].1));
    assert(canonical_bytes(s) =~= head_of(s, p) + value_bytes(s[p].1) + tail_of(s, p));
}

proof fn lemma_changed_value_seq(s: Seq<(Seq<u8>, ValueModel)>, t: Seq<(Seq<u8>, ValueModel)>, p: int)
    requires
        s.len() == t.len(),
        0 <= p < s.len(),
        forall|i: int| 0 <= i < s.len() && i != p ==> s[i] == t[i],
        s[p].0 == t[p].0,
        s[p].1 != t[p].1,
    ensures
        canonical_bytes(s) != canonical_bytes(t),
{
    lemma_canonical_around(s, p);
    lemma_canonical_around(t, p);
    assert(s.subrange(0, p) =~= t.subrange(0, p));
    assert(s.subrange(p + 1, s.len() as int) =~= t.subrange(p + 1, t.len() as int));
    assert(head_of(s, p) == head_of(t, p));
    assert(tail_of(s, p) == tail_of(t, p));
    if canonical_bytes(s) == canonical_bytes(t) {
        lemma_middle_equal(head_of(s, p), value_bytes(s[p].1), value_bytes(t[p].1), tail_of(s, p));
        lemma_value_bytes_injective(s[p].1, t[p].1);
    }
}

/// Sensitivity, on the encoding: two receipts with the same keys whose
/// values differ in exactly one field have different canonical encodings.
/// (That their digests then differ rests on the collision resistance of
/// BLAKE3, which no proof here can reach.)
pub proof fn lemma_changed_value_changes_encoding(a: Receipt, b: Receipt, p: int)
    requires
        a.wf(),
        b.wf(),
        a@.len() == b@.len(),
        0 <= p < a@.len(),
        forall|i: int| 0 <= i < a@.len() && i != p ==> a@[i] == b@[i],
        a@[p].0 == b@[p].0,
        a@[p].1 != b@[p].1,
    ensures
        canonical_bytes(a@) != canonical_bytes(b@),
{
    lemma_changed_value_seq(a@, b@, p);
}

} // verus!
