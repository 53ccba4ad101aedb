//! The claim-set carrier: a small JSON value model with a canonical printer
//! and a strict parser.
//!
//! Claims in credentials and presentations are trees of `JsonValue`. The
//! printer emits one canonical byte string per value (no whitespace, fixed
//! escapes, shortest number form); the parser accepts exactly that canonical
//! form. Together they make serialized artifacts re-decodable into equal
//! values.

use vstd::prelude::*;

verus! {

/// An executable JSON value: the payload of a credential claim.
///
#[derive(Debug)]
pub enum JsonValue {
    /// JSON `null`.
    Null,
    /// A boolean.
    Bool(bool),
    /// A non-negative integer.
    Num(u64),
    /// A string, as UTF-8 bytes.
    Str(Vec<u8>),
    /// An array: ordered items.
    Arr(Vec<JsonValue>),
    /// An object: ordered members, keys as UTF-8 bytes.
    Obj(Vec<(Vec<u8>, JsonValue)>),
}

/// The mathematical mirror of `JsonValue`.
#[verifier::ext_equal]
pub enum JVal {
    /// JSON `null`.
    Null,
    /// A boolean.
    Bool(bool),
    /// A non-negative integer.
    Num(u64),
    /// A string.
    Str(Seq<u8>),
    /// An array: ordered items.
    Arr(Seq<JVal>),
    /// An object: ordered members.
    Obj(Seq<(Seq<u8>, JVal)>),
}

/// The mathematical value of an executable JSON value.
pub open spec fn jval_of(v: JsonValue) -> JVal
    decreases v,
    via jval_of_decreases
{
    match v {
        JsonValue::Null => JVal::Null,
        JsonValue::Bool(b) => JVal::Bool(b),
        JsonValue::Num(n) => JVal::Num(n),
        JsonValue::Str(s) => JVal::Str(s@),
        JsonValue::Arr(a) => JVal::Arr(jitems_of(a@)),
        JsonValue::Obj(m) => JVal::Obj(jmembers_of(m@)),
    }
}

/// The mathematical value of an executable item list.
pub open spec fn jitems_of(a: Seq<JsonValue>) -> Seq<JVal>
    decreases a,
    via jitems_of_decreases
{
    if a.len() == 0 {
        Seq::empty()
    } else {
        seq![jval_of(a[0])] + jitems_of(a.skip(1))
    }
}

/// The mathematical value of an executable member list.
pub open spec fn jmembers_of(m: Seq<(Vec<u8>, JsonValue)>) -> Seq<(Seq<u8>, JVal)>
    decreases m,
    via jmembers_of_decreases
{
    if m.len() == 0 {
        Seq::empty()
    } else {
        seq![(m[0].0@, jval_of(m[0].1))] + jmembers_of(m.skip(1))
    }
}

#[via_fn]
proof fn jval_of_decreases(v: JsonValue) {
    match v {
        JsonValue::Obj(m) => {
            assert(decreases_to!(v => m));
            assert(decreases_to!(m => m@));
        },
        JsonValue::Arr(a) => {
            assert(decreases_to!(v => a));
            assert(decreases_to!(a => a@));
        },
        _ => {},
    }
}

#[via_fn]
proof fn jitems_of_decreases(a: Seq<JsonValue>) {
    if a.len() > 0 {
        assert(decreases_to!(a => a[0]));
    }
}

#[via_fn]
proof fn jmembers_of_decreases(m: Seq<(Vec<u8>, JsonValue)>) {
    if m.len() > 0 {
        assert(decreases_to!(m => m[0]));
        assert(decreases_to!(m[0] => m[0].1));
    }
}

impl View for JsonValue {
    type V = JVal;

    open spec fn view(&self) -> JVal {
        jval_of(*self)
    }
}

/// Whether a byte is an ASCII decimal digit.
pub open spec fn is_digit(b: u8) -> bool {
    48 <= b <= 57
}

/// A sequence that does not begin with a digit: the terminator condition
/// after a printed number.
pub open spec fn no_digit_start(s: Seq<u8>) -> bool {
    s.len() == 0 || !is_digit(s[0])
}

/// The lowercase hex digit for a nibble.
pub open spec fn hexd(x: u8) -> u8
    recommends
        x < 16,
{
    if x < 10 {
        (48 + x) as u8
    } else {
        (87 + x) as u8
    }
}

/// The canonical escape of one string byte: `\"`, `\\`, `\u00xx` for
/// control bytes, and the byte itself otherwise.
pub open spec fn esc1(b: u8) -> Seq<u8> {
    if b == 34 {
        seq![92u8, 34u8]
    } else if b == 92 {
        seq![92u8, 92u8]
    } else if b < 32 {
        seq![92u8, 117u8, 48u8, 48u8, hexd(b >> 4), hexd(b & 15)]
    } else {
        seq![b]
    }
}

/// The canonical escape of a whole string body.
pub open spec fn esc(s: Seq<u8>) -> Seq<u8>
    decreases s.len(),
{
    if s.len() == 0 {
        Seq::empty()
    } else {
        esc1(s[0]) + esc(s.skip(1))
    }
}

/// The canonical printed form of a JSON string.
pub open spec fn pr_str(s: Seq<u8>) -> Seq<u8> {
    seq![34u8] + esc(s) + seq![34u8]
}

/// The canonical decimal form of a number.
pub open spec fn dec_of(n: u64) -> Seq<u8>
    decreases n,
{
    if n < 10 {
        seq![(48 + n) as u8]
    } else {
        dec_of((n / 10) as u64) + seq![(48 + n % 10) as u8]
    }
}

/// The canonical printed form of a JSON value.
pub open spec fn pr_val(v: JVal) -> Seq<u8>
    decreases v,
{
    match v {
        JVal::Null => seq![110u8, 117u8, 108u8, 108u8],
        JVal::Bool(b) => if b {
            seq![116u8, 114u8, 117u8, 101u8]
        } else {
            seq![102u8, 97u8, 108u8, 115u8, 101u8]
        },
        JVal::Num(n) => dec_of(n),
        JVal::Str(s) => pr_str(s),
        JVal::Arr(a) => seq![91u8] + pr_items(a) + seq![93u8],
        JVal::Obj(m) => seq![123u8] + pr_members(m) + seq![125u8],
    }
}

/// The canonical printed form of an array's items, comma-separated.
pub open spec fn pr_items(a: Seq<JVal>) -> Seq<u8>
    decreases a,
{
    if a.len() == 0 {
        Seq::empty()
    } else if a.len() == 1 {
        pr_val(a[0])
    } else {
        pr_val(a[0]) + seq![44u8] + pr_items(a.skip(1))
    }
}

/// The canonical printed form of an object's members, comma-separated.
pub open spec fn pr_members(m: Seq<(Seq<u8>, JVal)>) -> Seq<u8>
    decreases m,
{
    if m.len() == 0 {
        Seq::empty()
    } else if m.len() == 1 {
        pr_str(m[0].0) + seq![58u8] + pr_val(m[0].1)
    } else {
        pr_str(m[0].0) + seq![58u8] + pr_val(m[0].1) + seq![44u8] + pr_members(m.skip(1))
    }
}

/// Member views index into the executable member list one for one.
pub proof fn lemma_jmembers_index(m: Seq<(Vec<u8>, JsonValue)>)
    ensures
        jmembers_of(m).len() == m.len(),
        forall|i: int|
            0 <= i < m.len() ==> #[trigger] jmembers_of(m)[i] == (m[i].0@, jval_of(m[i].1)),
    decreases m.len(),
{
    if m.len() > 0 {
        lemma_jmembers_index(m.skip(1));
        assert forall|i: int| 0 <= i < m.len() implies #[trigger] jmembers_of(m)[i] == (
            m[i].0@,
            jval_of(m[i].1),
        ) by {
            if i > 0 {
                assert(jmembers_of(m)[i] == jmembers_of(m.skip(1))[i - 1]);
                assert(m.skip(1)[i - 1] == m[i]);
            }
        }
    }
}

/// Item views index into the executable item list one for one.
pub proof fn lemma_jitems_index(a: Seq<JsonValue>)
    ensures
        jitems_of(a).len() == a.len(),
        forall|i: int| 0 <= i < a.len() ==> #[trigger] jitems_of(a)[i] == jval_of(a[i]),
    decreases a.len(),
{
    if a.len() > 0 {
        lemma_jitems_index(a.skip(1));
        assert forall|i: int| 0 <= i < a.len() implies #[trigger] jitems_of(a)[i] == jval_of(
            a[i],
        ) by {
            if i > 0 {
                assert(jitems_of(a)[i] == jitems_of(a.skip(1))[i - 1]);
                assert(a.skip(1)[i - 1] == a[i]);
            }
        }
    }
}

/// Escaping distributes over concatenation.
pub proof fn lemma_esc_append(a: Seq<u8>, b: Seq<u8>)
    ensures
        esc(a + b) == esc(a) + esc(b),
    decreases a.len(),
{
    if a.len() == 0 {
        assert(a + b =~= b);
        assert(esc(a) + esc(b) =~= esc(b));
    } else {
        assert((a + b).skip(1) =~= a.skip(1) + b);
        lemma_esc_append(a.skip(1), b);
        assert((a + b)[0] == a[0]);
        assert(esc1(a[0]) + (esc(a.skip(1)) + esc(b)) =~= (esc1(a[0]) + esc(a.skip(1))) + esc(b));
    }
}

/// Escaping one more byte appends that byte's escape.
pub proof fn lemma_esc_snoc(s: Seq<u8>, k: int)
    requires
        0 <= k < s.len(),
    ensures
        esc(s.take(k + 1)) == esc(s.take(k)) + esc1(s[k]),
{
    assert(s.take(k + 1) =~= s.take(k) + seq![s[k]]);
    lemma_esc_append(s.take(k), seq![s[k]]);
    assert(esc(seq![s[k]]) =~= esc1(s[k]) + esc(seq![s[k]].skip(1)));
    assert(seq![s[k]].skip(1) =~= Seq::<u8>::empty());
    assert(esc1(s[k]) + Seq::<u8>::empty() =~= esc1(s[k]));
}

/// Printing members distributes over concatenation, with a comma between
/// the two halves.
pub proof fn lemma_members_append(a: Seq<(Seq<u8>, JVal)>, b: Seq<(Seq<u8>, JVal)>)
    requires
        a.len() > 0,
        b.len() > 0,
    ensures
        pr_members(a + b) == pr_members(a) + seq![44u8] + pr_members(b),
    decreases a.len(),
{
    if a.len() == 1 {
        assert((a + b).len() > 1);
        assert((a + b)[0] == a[0]);
        assert((a + b).skip(1) =~= b);
        assert(pr_members(a + b) == pr_str(a[0].0) + seq![58u8] + pr_val(a[0].1) + seq![44u8]
            + pr_members(b));
        assert(pr_str(a[0].0) + seq![58u8] + pr_val(a[0].1) + seq![44u8] + pr_members(b) =~= (
        pr_str(a[0].0) + seq![58u8] + pr_val(a[0].1)) + seq![44u8] + pr_members(b));
    } else {
        assert((a + b)[0] == a[0]);
        assert((a + b).skip(1) =~= a.skip(1) + b);
        lemma_members_append(a.skip(1), b);
        assert(pr_members(a + b) == pr_str(a[0].0) + seq![58u8] + pr_val(a[0].1) + seq![44u8]
            + (pr_members(a.skip(1)) + seq![44u8] + pr_members(b)));
        assert(pr_str(a[0].0) + seq![58u8] + pr_val(a[0].1) + seq![44u8] + (pr_members(a.skip(1))
            + seq![44u8] + pr_members(b)) =~= (pr_str(a[0].0) + seq![58u8] + pr_val(a[0].1)
            + seq![44u8] + pr_members(a.skip(1))) + seq![44u8] + pr_members(b));
    }
}

/// Whether every byte of a sequence is a digit.
pub open spec fn all_digits(s: Seq<u8>) -> bool {
    forall|i: int| 0 <= i < s.len() ==> is_digit(#[trigger] s[i])
}

/// Concatenation cancels on the left.
pub proof fn lemma_seq_cancel(x: Seq<u8>, u: Seq<u8>, v: Seq<u8>)
    requires
        x + u == x + v,
    ensures
        u == v,
{
    assert((x + u).len() == x.len() + u.len());
    assert((x + v).len() == x.len() + v.len());
    assert(u.len() == v.len());
    assert forall|i: int| 0 <= i < u.len() implies u[i] == v[i] by {
        assert((x + u)[x.len() + i] == u[i]);
        assert((x + v)[x.len() + i] == v[i]);
    }
    assert(u =~= v);
}

/// The canonical decimal form is non-empty, all digits, and free of
/// leading zeros.
pub proof fn lemma_dec_digits(n: u64)
    ensures
        dec_of(n).len() >= 1,
        all_digits(dec_of(n)),
        dec_of(n).len() > 1 ==> dec_of(n)[0] != 48,
    decreases n,
{
    if n >= 10 {
        lemma_dec_digits(n / 10);
        let a = dec_of((n / 10) as u64);
        assert forall|i: int| 0 <= i < dec_of(n).len() implies is_digit(#[trigger] dec_of(n)[i])
            by {
            if i < a.len() {
                assert(dec_of(n)[i] == a[i]);
            }
        }
        assert(dec_of(n)[0] == a[0]);
        if n / 10 < 10 {
            assert(a == seq![(48 + n / 10) as u8]);
            assert(n / 10 >= 1);
            assert(a[0] != 48);
        } else {
            lemma_dec_digits(n / 10 / 10);
            assert(a.len() > 1);
        }
    }
}

/// The canonical decimal form determines the number.
pub proof fn lemma_dec_injective(n: u64, m: u64)
    requires
        dec_of(n) == dec_of(m),
    ensures
        n == m,
    decreases n,
{
    if n < 10 && m < 10 {
        assert(dec_of(n)[0] == 48 + n);
        assert(dec_of(m)[0] == 48 + m);
    } else if n < 10 {
        lemma_dec_digits((m / 10) as u64);
        assert(dec_of(m).len() >= 2);
    } else if m < 10 {
        lemma_dec_digits((n / 10) as u64);
        assert(dec_of(n).len() >= 2);
    } else {
        let a = dec_of((n / 10) as u64);
        let b = dec_of((m / 10) as u64);
        let s = dec_of(n);
        assert(s.len() == a.len() + 1 && s.len() == b.len() + 1);
        assert(s[s.len() - 1] == 48 + n % 10);
        assert(s[s.len() - 1] == 48 + m % 10);
        assert forall|i: int| 0 <= i < a.len() implies a[i] == b[i] by {
            assert(s[i] == a[i]);
            assert(s[i] == b[i]);
        }
        assert(a =~= b);
        lemma_dec_injective((n / 10) as u64, (m / 10) as u64);
    }
}

/// A printed number followed by a non-digit is read back unambiguously.
pub proof fn lemma_dec_unique(n: u64, m: u64, r1: Seq<u8>, r2: Seq<u8>)
    requires
        dec_of(n) + r1 == dec_of(m) + r2,
        no_digit_start(r1),
        no_digit_start(r2),
    ensures
        n == m,
        r1 == r2,
{
    let a = dec_of(n);
    let b = dec_of(m);
    lemma_dec_digits(n);
    lemma_dec_digits(m);
    if a.len() < b.len() {
        assert(r1.len() > 0);
        assert(r1[0] == (a + r1)[a.len() as int]);
        assert((b + r2)[a.len() as int] == b[a.len() as int]);
        assert(is_digit(b[a.len() as int]));
        assert(false);
    } else if b.len() < a.len() {
        assert(r2.len() > 0);
        assert(r2[0] == (b + r2)[b.len() as int]);
        assert((a + r1)[b.len() as int] == a[b.len() as int]);
        assert(is_digit(a[b.len() as int]));
        assert(false);
    } else {
        assert forall|i: int| 0 <= i < a.len() implies a[i] == b[i] by {
            assert((a + r1)[i] == a[i]);
            assert((b + r2)[i] == b[i]);
        }
        assert(a =~= b);
        lemma_dec_injective(n, m);
        lemma_seq_cancel(a, r1, r2);
    }
}

/// The first byte of a one-byte escape class never collides with the
/// closing quote.
proof fn lemma_esc1_shape(b: u8)
    ensures
        esc1(b).len() >= 1,
        esc1(b)[0] != 34,
        esc1(b)[0] == 92 <==> (b == 34 || b == 92 || b < 32),
        b != 34 && b != 92 && b >= 32 ==> esc1(b) =~= seq![b],
{
}

/// Escaped bodies followed by closing quotes are read back unambiguously.
proof fn lemma_esc_quote(a: Seq<u8>, b: Seq<u8>, t1: Seq<u8>, t2: Seq<u8>)
    requires
        esc(a) + seq![34u8] + t1 == esc(b) + seq![34u8] + t2,
    ensures
        a == b,
        t1 == t2,
    decreases a.len(),
{
    let s = esc(a) + seq![34u8] + t1;
    if a.len() == 0 {
        assert(s[0] == 34);
        if b.len() > 0 {
            lemma_esc1_shape(b[0]);
            assert(s[0] == (esc(b) + seq![34u8] + t2)[0]);
            assert(esc(b)[0] == esc1(b[0])[0]);
            assert(false);
        }
        lemma_seq_cancel(seq![34u8], t1, t2);
        assert(a =~= b);
    } else {
        if b.len() == 0 {
            lemma_esc1_shape(a[0]);
            assert(s[0] == esc(a)[0]);
            assert(esc(a)[0] == esc1(a[0])[0]);
            assert((esc(b) + seq![34u8] + t2)[0] == 34);
            assert(false);
        }
        let a0 = a[0];
        let b0 = b[0];
        lemma_esc1_shape(a0);
        lemma_esc1_shape(b0);
        // Both sides start with the escape of their first byte.
        assert(esc(a) == esc1(a0) + esc(a.skip(1)));
        assert(esc(b) == esc1(b0) + esc(b.skip(1)));
        assert forall|i: int| 0 <= i < esc1(a0).len() implies s[i] == esc1(a0)[i] by {
            assert(esc(a)[i] == esc1(a0)[i]);
        }
        assert forall|i: int| 0 <= i < esc1(b0).len() implies s[i] == esc1(b0)[i] by {
            assert((esc(b) + seq![34u8] + t2)[i] == esc(b)[i]);
            assert(esc(b)[i] == esc1(b0)[i]);
        }
        if a0 == 34 || a0 == 92 || a0 < 32 {
            assert(s[0] == 92);
            assert(esc1(b0)[0] == 92);
            assert(b0 == 34 || b0 == 92 || b0 < 32);
            if a0 == 34 {
                assert(s[1] == 34);
                if b0 == 92 {
                    assert(s[1] == 92);
                    assert(false);
                }
                if b0 < 32 {
                    assert(s[1] == 117);
                    assert(false);
                }
            } else if a0 == 92 {
                assert(s[1] == 92);
                if b0 == 34 {
                    assert(s[1] == 34);
                    assert(false);
                }
                if b0 < 32 {
                    assert(s[1] == 117);
                    assert(false);
                }
            } else {
                assert(s[1] == 117);
                if b0 == 34 {
                    assert(s[1] == 34);
                    assert(false);
                }
                if b0 == 92 {
                    assert(s[1] == 92);
                    assert(false);
                }
                // Both are control escapes: the hex digits agree.
                assert(s[4] == hexd(a0 >> 4) && s[5] == hexd(a0 & 15));
                assert(s[4] == hexd(b0 >> 4) && s[5] == hexd(b0 & 15));
                assert(a0 >> 4 < 16 && a0 & 15 < 16 && b0 >> 4 < 16 && b0 & 15 < 16)
                    by (bit_vector);
                assert(a0 >> 4 == b0 >> 4 && a0 & 15 == b0 & 15);
                assert(a0 >> 4 == b0 >> 4 && a0 & 15 == b0 & 15 ==> a0 == b0) by (bit_vector);
            }
        } else {
            assert(s[0] == a0);
            if b0 == 34 || b0 == 92 || b0 < 32 {
                assert(esc1(b0)[0] == 92);
                assert(a0 == 92);
                assert(false);
            }
            assert(s[0] == b0);
        }
        assert(a0 == b0);
        assert(esc1(a0) + (esc(a.skip(1)) + seq![34u8] + t1) =~= s);
        assert(esc1(a0) + (esc(b.skip(1)) + seq![34u8] + t2) =~= esc(b) + seq![34u8] + t2);
        lemma_seq_cancel(
            esc1(a0),
            esc(a.skip(1)) + seq![34u8] + t1,
            esc(b.skip(1)) + seq![34u8] + t2,
        );
        lemma_esc_quote(a.skip(1), b.skip(1), t1, t2);
        assert(a =~= seq![a0] + a.skip(1));
        assert(b =~= seq![b0] + b.skip(1));
    }
}

/// A printed string is read back unambiguously, whatever follows it.
pub proof fn lemma_pr_str_unique(a: Seq<u8>, b: Seq<u8>, r1: Seq<u8>, r2: Seq<u8>)
    requires
        pr_str(a) + r1 == pr_str(b) + r2,
    ensures
        a == b,
        r1 == r2,
{
    assert(seq![34u8] + (esc(a) + seq![34u8] + r1) =~= pr_str(a) + r1);
    assert(seq![34u8] + (esc(b) + seq![34u8] + r2) =~= pr_str(b) + r2);
    lemma_seq_cancel(seq![34u8], esc(a) + seq![34u8] + r1, esc(b) + seq![34u8] + r2);
    lemma_esc_quote(a, b, r1, r2);
}

/// Printing items distributes over concatenation, with a comma between
/// the two halves.
pub proof fn lemma_items_append(a: Seq<JVal>, b: Seq<JVal>)
    requires
        a.len() > 0,
        b.len() > 0,
    ensures
        pr_items(a + b) == pr_items(a) + seq![44u8] + pr_items(b),
    decreases a.len(),
{
    if a.len() == 1 {
        assert((a + b).len() > 1);
        assert((a + b)[0] == a[0]);
        assert((a + b).skip(1) =~= b);
        assert(pr_items(a + b) == pr_val(a[0]) + seq![44u8] + pr_items(b));
    } else {
        assert((a + b)[0] == a[0]);
        assert((a + b).skip(1) =~= a.skip(1) + b);
        lemma_items_append(a.skip(1), b);
        assert(pr_items(a + b) == pr_val(a[0]) + seq![44u8] + (pr_items(a.skip(1)) + seq![44u8]
            + pr_items(b)));
        assert(pr_val(a[0]) + seq![44u8] + (pr_items(a.skip(1)) + seq![44u8] + pr_items(b)) =~= (
        pr_val(a[0]) + seq![44u8] + pr_items(a.skip(1))) + seq![44u8] + pr_items(b));
    }
}

/// The first byte of a printed value classifies its variant.
proof fn lemma_pr_val_first(v: JVal)
    ensures
        pr_val(v).len() >= 1,
        v is Null ==> pr_val(v)[0] == 110,
        v matches JVal::Bool(b) ==> pr_val(v)[0] == (if b {
            116u8
        } else {
            102u8
        }),
        v is Num ==> is_digit(pr_val(v)[0]),
        v is Str ==> pr_val(v)[0] == 34,
        v is Arr ==> pr_val(v)[0] == 91,
        v is Obj ==> pr_val(v)[0] == 123,
{
    match v {
        JVal::Num(n) => {
            lemma_dec_digits(n);
        },
        JVal::Str(s) => {
            assert(pr_val(v)[0] == (seq![34u8] + esc(s))[0]);
        },
        _ => {},
    }
}

/// Printed item lists followed by a closing bracket are read back
/// unambiguously.
#[verifier::rlimit(60)]
pub proof fn lemma_items_close_unique(a: Seq<JVal>, b: Seq<JVal>, t1: Seq<u8>, t2: Seq<u8>)
    requires
        pr_items(a) + seq![93u8] + t1 == pr_items(b) + seq![93u8] + t2,
    ensures
        a == b,
        t1 == t2,
    decreases a,
{
    let s = pr_items(a) + seq![93u8] + t1;
    if a.len() == 0 {
        assert(s[0] == 93);
        if b.len() > 0 {
            lemma_pr_val_first(b[0]);
            assert(pr_items(b)[0] == pr_val(b[0])[0]);
            assert(s[0] == pr_items(b)[0]);
            assert(is_digit(pr_val(b[0])[0]) || pr_val(b[0])[0] == 110 || pr_val(b[0])[0] == 116
                || pr_val(b[0])[0] == 102 || pr_val(b[0])[0] == 34 || pr_val(b[0])[0] == 91
                || pr_val(b[0])[0] == 123);
            assert(false);
        }
        assert(pr_items(a) + seq![93u8] + t1 =~= seq![93u8] + t1);
        assert(pr_items(b) + seq![93u8] + t2 =~= seq![93u8] + t2);
        lemma_seq_cancel(seq![93u8], t1, t2);
        assert(a =~= b);
    } else if b.len() == 0 {
        lemma_pr_val_first(a[0]);
        assert(s[0] == pr_items(a)[0]);
        assert(pr_items(a)[0] == pr_val(a[0])[0]);
        assert(is_digit(pr_val(a[0])[0]) || pr_val(a[0])[0] == 110 || pr_val(a[0])[0] == 116
            || pr_val(a[0])[0] == 102 || pr_val(a[0])[0] == 34 || pr_val(a[0])[0] == 91 || pr_val(
            a[0],
        )[0] == 123);
        assert((pr_items(b) + seq![93u8] + t2)[0] == 93);
        assert(false);
    } else {
        let u1: Seq<u8> = if a.len() > 1 {
            seq![44u8] + pr_items(a.skip(1)) + seq![93u8] + t1
        } else {
            seq![93u8] + t1
        };
        let u2: Seq<u8> = if b.len() > 1 {
            seq![44u8] + pr_items(b.skip(1)) + seq![93u8] + t2
        } else {
            seq![93u8] + t2
        };
        assert(pr_items(a) + seq![93u8] + t1 =~= pr_val(a[0]) + u1);
        assert(pr_items(b) + seq![93u8] + t2 =~= pr_val(b[0]) + u2);
        assert(u1.len() > 0 && !is_digit(u1[0])) by {
            if a.len() > 1 {
                assert(u1[0] == 44);
            } else {
                assert(u1 =~= seq![93u8] + t1);
            }
        }
        assert(u2.len() > 0 && !is_digit(u2[0])) by {
            if b.len() > 1 {
                assert(u2[0] == 44);
            } else {
                assert(u2 =~= seq![93u8] + t2);
            }
        }
        assert(decreases_to!(a => a[0]));
        lemma_pr_val_unique(a[0], b[0], u1, u2);
        if a.len() == 1 {
            if b.len() > 1 {
                assert(u1 =~= seq![93u8] + t1);
                assert(u1[0] == 93);
                assert(u2[0] == 44);
                assert(false);
            }
            assert(u1 =~= seq![93u8] + t1);
            assert(u2 =~= seq![93u8] + t2);
            lemma_seq_cancel(seq![93u8], t1, t2);
            assert(a =~= b);
        } else {
            if b.len() == 1 {
                assert(u2 =~= seq![93u8] + t2);
                assert(u1[0] == 44);
                assert(u2[0] == 93);
                assert(false);
            }
            assert(u1 =~= seq![44u8] + (pr_items(a.skip(1)) + seq![93u8] + t1));
            assert(u2 =~= seq![44u8] + (pr_items(b.skip(1)) + seq![93u8] + t2));
            lemma_seq_cancel(
                seq![44u8],
                pr_items(a.skip(1)) + seq![93u8] + t1,
                pr_items(b.skip(1)) + seq![93u8] + t2,
            );
            lemma_items_close_unique(a.skip(1), b.skip(1), t1, t2);
            assert(a =~= seq![a[0]] + a.skip(1));
            assert(b =~= seq![b[0]] + b.skip(1));
            assert(a =~= b);
        }
    }
}

/// A printed value followed by a non-digit terminator is read back
/// unambiguously.
pub proof fn lemma_pr_val_unique(v: JVal, w: JVal, r1: Seq<u8>, r2: Seq<u8>)
    requires
        pr_val(v) + r1 == pr_val(w) + r2,
        v is Num ==> no_digit_start(r1),
        w is Num ==> no_digit_start(r2),
    ensures
        v == w,
        r1 == r2,
    decreases v,
{
    let s = pr_val(v) + r1;
    lemma_pr_val_first(v);
    lemma_pr_val_first(w);
    assert(s[0] == pr_val(v)[0]);
    assert(s[0] == pr_val(w)[0]);
    match (v, w) {
        (JVal::Null, JVal::Null) => {
            assert(pr_val(v) + r1 =~= seq![110u8, 117u8, 108u8, 108u8] + r1);
            assert(pr_val(w) + r2 =~= seq![110u8, 117u8, 108u8, 108u8] + r2);
            lemma_seq_cancel(seq![110u8, 117u8, 108u8, 108u8], r1, r2);
        },
        (JVal::Bool(a), JVal::Bool(b)) => {
            if a != b {
                assert(false);
            }
            if a {
                assert(pr_val(v) + r1 =~= seq![116u8, 114u8, 117u8, 101u8] + r1);
                assert(pr_val(w) + r2 =~= seq![116u8, 114u8, 117u8, 101u8] + r2);
                lemma_seq_cancel(seq![116u8, 114u8, 117u8, 101u8], r1, r2);
            } else {
                assert(pr_val(v) + r1 =~= seq![102u8, 97u8, 108u8, 115u8, 101u8] + r1);
                assert(pr_val(w) + r2 =~= seq![102u8, 97u8, 108u8, 115u8, 101u8] + r2);
                lemma_seq_cancel(seq![102u8, 97u8, 108u8, 115u8, 101u8], r1, r2);
            }
        },
        (JVal::Num(n), JVal::Num(m)) => {
            lemma_dec_unique(n, m, r1, r2);
        },
        (JVal::Str(a), JVal::Str(b)) => {
            lemma_pr_str_unique(a, b, r1, r2);
        },
        (JVal::Arr(aa), JVal::Arr(ab)) => {
            assert(pr_val(v) + r1 =~= seq![91u8] + (pr_items(aa) + seq![93u8] + r1));
            assert(pr_val(w) + r2 =~= seq![91u8] + (pr_items(ab) + seq![93u8] + r2));
            lemma_seq_cancel(
                seq![91u8],
                pr_items(aa) + seq![93u8] + r1,
                pr_items(ab) + seq![93u8] + r2,
            );
            lemma_items_close_unique(aa, ab, r1, r2);
        },
        (JVal::Obj(ma), JVal::Obj(mb)) => {
            assert(pr_val(v) + r1 =~= seq![123u8] + (pr_members(ma) + seq![125u8] + r1));
            assert(pr_val(w) + r2 =~= seq![123u8] + (pr_members(mb) + seq![125u8] + r2));
            lemma_seq_cancel(
                seq![123u8],
                pr_members(ma) + seq![125u8] + r1,
                pr_members(mb) + seq![125u8] + r2,
            );
            lemma_members_close_unique(ma, mb, r1, r2);
        },
        _ => {
            assert(false);
        },
    }
}

/// Printed member lists followed by a closing brace are read back
/// unambiguously.
#[verifier::rlimit(60)]
pub proof fn lemma_members_close_unique(
    ma: Seq<(Seq<u8>, JVal)>,
    mb: Seq<(Seq<u8>, JVal)>,
    t1: Seq<u8>,
    t2: Seq<u8>,
)
    requires
        pr_members(ma) + seq![125u8] + t1 == pr_members(mb) + seq![125u8] + t2,
    ensures
        ma == mb,
        t1 == t2,
    decreases ma,
{
    let s = pr_members(ma) + seq![125u8] + t1;
    if ma.len() == 0 {
        assert(s[0] == 125);
        if mb.len() > 0 {
            assert(pr_members(mb)[0] == (seq![34u8] + esc(mb[0].0))[0]);
            assert(s[0] == pr_members(mb)[0]);
            assert(false);
        }
        assert(pr_members(ma) + seq![125u8] + t1 =~= seq![125u8] + t1);
        assert(pr_members(mb) + seq![125u8] + t2 =~= seq![125u8] + t2);
        lemma_seq_cancel(seq![125u8], t1, t2);
        assert(ma =~= mb);
    } else if mb.len() == 0 {
        assert(s[0] == pr_members(ma)[0]);
        assert(pr_members(ma)[0] == (seq![34u8] + esc(ma[0].0))[0]);
        assert((pr_members(mb) + seq![125u8] + t2)[0] == 125);
        assert(false);
    } else {
        let x1: Seq<u8> = if ma.len() > 1 {
            seq![44u8] + pr_members(ma.skip(1))
        } else {
            Seq::empty()
        };
        let x2: Seq<u8> = if mb.len() > 1 {
            seq![44u8] + pr_members(mb.skip(1))
        } else {
            Seq::empty()
        };
        let u1 = x1 + seq![125u8] + t1;
        let u2 = x2 + seq![125u8] + t2;
        let rest1 = seq![58u8] + pr_val(ma[0].1) + u1;
        let rest2 = seq![58u8] + pr_val(mb[0].1) + u2;
        assert(pr_members(ma) + seq![125u8] + t1 =~= pr_str(ma[0].0) + rest1);
        assert(pr_members(mb) + seq![125u8] + t2 =~= pr_str(mb[0].0) + rest2);
        lemma_pr_str_unique(ma[0].0, mb[0].0, rest1, rest2);
        assert(rest1 =~= seq![58u8] + (pr_val(ma[0].1) + u1));
        assert(rest2 =~= seq![58u8] + (pr_val(mb[0].1) + u2));
        lemma_seq_cancel(seq![58u8], pr_val(ma[0].1) + u1, pr_val(mb[0].1) + u2);
        assert(u1.len() > 0 && !is_digit(u1[0])) by {
            if ma.len() > 1 {
                assert(u1[0] == 44);
            } else {
                assert(u1 =~= seq![125u8] + t1);
            }
        }
        assert(u2.len() > 0 && !is_digit(u2[0])) by {
            if mb.len() > 1 {
                assert(u2[0] == 44);
            } else {
                assert(u2 =~= seq![125u8] + t2);
            }
        }
        assert(decreases_to!(ma => ma[0]));
        assert(decreases_to!(ma[0] => ma[0].1));
        lemma_pr_val_unique(ma[0].1, mb[0].1, u1, u2);
        if ma.len() == 1 {
            if mb.len() > 1 {
                assert(u1 =~= seq![125u8] + t1);
                assert(u1[0] == 125);
                assert(u2[0] == 44);
                assert(false);
            }
            assert(u1 =~= seq![125u8] + t1);
            assert(u2 =~= seq![125u8] + t2);
            lemma_seq_cancel(seq![125u8], t1, t2);
            assert(ma =~= mb);
        } else {
            if mb.len() == 1 {
                assert(u2 =~= seq![125u8] + t2);
                assert(u1[0] == 44);
                assert(u2[0] == 125);
                assert(false);
            }
            assert(u1 =~= seq![44u8] + (pr_members(ma.skip(1)) + seq![125u8] + t1));
            assert(u2 =~= seq![44u8] + (pr_members(mb.skip(1)) + seq![125u8] + t2));
            lemma_seq_cancel(
                seq![44u8],
                pr_members(ma.skip(1)) + seq![125u8] + t1,
                pr_members(mb.skip(1)) + seq![125u8] + t2,
            );
            lemma_members_close_unique(ma.skip(1), mb.skip(1), t1, t2);
            assert(ma =~= seq![ma[0]] + ma.skip(1));
            assert(mb =~= seq![mb[0]] + mb.skip(1));
            assert(ma =~= mb);
        }
    }
}

/// The numeric value of a digit string, most significant digit first.
pub open spec fn digits_val(s: Seq<u8>) -> int
    decreases s.len(),
{
    if s.len() == 0 {
        0
    } else {
        digits_val(s.take(s.len() - 1)) * 10 + (s.last() - 48)
    }
}

/// The value of a digit string is never negative.
proof fn lemma_digits_nonneg(s: Seq<u8>)
    requires
        all_digits(s),
    ensures
        digits_val(s) >= 0,
    decreases s.len(),
{
    if s.len() > 0 {
        assert(forall|i: int|
            0 <= i < s.len() - 1 ==> is_digit(#[trigger] s.take(s.len() - 1)[i]));
        lemma_digits_nonneg(s.take(s.len() - 1));
    }
}

/// A digit string without a leading zero has a positive value, at least
/// ten when it has more than one digit.
proof fn lemma_digits_pos(s: Seq<u8>)
    requires
        s.len() >= 1,
        all_digits(s),
        s[0] != 48,
    ensures
        digits_val(s) >= 1,
        s.len() > 1 ==> digits_val(s) >= 10,
    decreases s.len(),
{
    if s.len() == 1 {
        assert(s.take(s.len() - 1) =~= Seq::<u8>::empty());
        assert(digits_val(Seq::<u8>::empty()) == 0);
        assert(s.last() == s[0]);
        assert(digits_val(s) == s[0] - 48);
    } else {
        let pre = s.take(s.len() - 1);
        assert(forall|i: int| 0 <= i < pre.len() ==> is_digit(#[trigger] pre[i]));
        lemma_digits_pos(pre);
    }
}

/// Reading back the canonical decimal form restores the number.
proof fn lemma_digits_val_dec(n: u64)
    ensures
        digits_val(dec_of(n)) == n,
    decreases n,
{
    if n < 10 {
        let s = dec_of(n);
        assert(s.take(s.len() - 1) =~= Seq::<u8>::empty());
        assert(digits_val(Seq::<u8>::empty()) == 0);
        assert(s.last() == 48 + n);
    } else {
        let a = dec_of((n / 10) as u64);
        let s = dec_of(n);
        assert(s.take(s.len() - 1) =~= a);
        assert(s.last() == 48 + n % 10);
        lemma_digits_val_dec((n / 10) as u64);
        assert(digits_val(s) == (n / 10) * 10 + n % 10);
    }
}

/// Every digit-prefix of a canonical decimal form stays at or below the
/// number itself.
proof fn lemma_dec_prefix_bound(n: u64, k: int)
    requires
        0 <= k <= dec_of(n).len(),
    ensures
        0 <= digits_val(dec_of(n).take(k)) <= n,
    decreases n,
{
    lemma_dec_digits(n);
    assert(forall|i: int|
        0 <= i < k ==> is_digit(#[trigger] dec_of(n).take(k)[i]));
    lemma_digits_nonneg(dec_of(n).take(k));
    if k == dec_of(n).len() {
        assert(dec_of(n).take(k) =~= dec_of(n));
        lemma_digits_val_dec(n);
    } else if n >= 10 {
        let a = dec_of((n / 10) as u64);
        assert(k <= a.len());
        assert(dec_of(n).take(k) =~= a.take(k));
        lemma_dec_prefix_bound((n / 10) as u64, k);
    }
}

/// A canonical digit string is the decimal form of its value.
proof fn lemma_digits_to_dec(s: Seq<u8>)
    requires
        s.len() >= 1,
        all_digits(s),
        s[0] != 48 || s.len() == 1,
        digits_val(s) <= u64::MAX,
    ensures
        dec_of(digits_val(s) as u64) == s,
    decreases s.len(),
{
    if s.len() == 1 {
        assert(s.take(s.len() - 1) =~= Seq::<u8>::empty());
        assert(digits_val(Seq::<u8>::empty()) == 0);
        assert(s.last() == s[0]);
        assert(digits_val(s) == s[0] - 48);
        assert(dec_of(digits_val(s) as u64) =~= s);
    } else {
        let pre = s.take(s.len() - 1);
        assert(forall|i: int| 0 <= i < pre.len() ==> is_digit(#[trigger] pre[i]));
        assert(s[0] != 48);
        lemma_digits_pos(pre);
        lemma_digits_nonneg(pre);
        let vp = digits_val(pre);
        let d = s.last() - 48;
        let v = digits_val(s);
        assert(v == vp * 10 + d);
        assert(vp <= u64::MAX) by {
            assert(v >= vp * 10 >= vp) by (nonlinear_arith)
                requires
                    vp >= 0,
                    d >= 0,
                    v == vp * 10 + d,
            ;
        }
        lemma_digits_to_dec(pre);
        assert(v >= 10);
        assert((v as u64) / 10 == vp && (v as u64) % 10 == d) by (nonlinear_arith)
            requires
                v == vp * 10 + d,
                0 <= d < 10,
                0 <= vp,
                v <= u64::MAX,
        ;
        assert(dec_of(v as u64) == dec_of(vp as u64) + seq![(48 + (v as u64) % 10) as u8]);
        assert(dec_of(v as u64) =~= s);
    }
}

/// Parses a canonical decimal number at `i`.
///
/// Accepts a maximal digit run without a leading zero; on success the
/// consumed bytes are exactly the canonical form of the result, and any
/// input that begins with a printed number followed by a non-digit is
/// accepted with that number as result.
#[verifier::loop_isolation(false)]
pub fn parse_dec(s: &Vec<u8>, i: usize) -> (r: Option<(u64, usize)>)
    requires
        i <= s@.len(),
    ensures
        r matches Some((n, j)) ==> i < j <= s@.len() && s@.subrange(i as int, j as int) == dec_of(
            n,
        ) && (j == s@.len() || !is_digit(s@[j as int])),
        forall|n: u64, rest: Seq<u8>|
            s@.skip(i as int) == dec_of(n) + rest && no_digit_start(rest) ==> (r matches Some((
                rn,
                rj,
            )) && rn == n && rj == i + dec_of(n).len()),
{
    let ghost has_w = exists|n: u64, rest: Seq<u8>|
        s@.skip(i as int) == dec_of(n) + rest && no_digit_start(rest);
    let ghost (nw, restw): (u64, Seq<u8>) = if has_w {
        choose|n: u64, rest: Seq<u8>|
            s@.skip(i as int) == dec_of(n) + rest && no_digit_start(rest)
    } else {
        arbitrary()
    };
    proof {
        if has_w {
            lemma_dec_digits(nw);
            assert(s@.skip(i as int)[0] == dec_of(nw)[0]);
        }
    }
    if i >= s.len() || s[i] < 48 || s[i] > 57 {
        proof {
            if has_w {
                assert(is_digit(s@[i as int]));
                assert(false);
            }
        }
        return None;
    }
    let n = s.len();
    let mut p: usize = i;
    let mut acc: u64 = 0;
    while p < n && 48 <= s[p] && s[p] <= 57
        invariant
            i <= p <= n,
            acc == digits_val(s@.subrange(i as int, p as int)),
            all_digits(s@.subrange(i as int, p as int)),
            has_w ==> p - i <= dec_of(nw).len(),
        decreases n - p,
    {
        let d = s[p] - 48;
        proof {
            let cur = s@.subrange(i as int, p as int);
            let nxt = s@.subrange(i as int, p + 1);
            assert(nxt.take(nxt.len() - 1) =~= cur);
            assert(nxt.last() == s@[p as int]);
            if has_w {
                lemma_dec_digits(nw);
                if p - i == dec_of(nw).len() {
                    assert(s@.skip(i as int)[p - i] == restw[0]);
                    assert(restw.len() > 0);
                    assert(!is_digit(restw[0]));
                    assert(false);
                }
                assert(cur =~= dec_of(nw).take(p - i)) by {
                    assert(forall|q: int|
                        0 <= q < p - i ==> s@.skip(i as int)[q] == #[trigger] dec_of(nw)[q]);
                }
                assert(nxt =~= dec_of(nw).take(p + 1 - i)) by {
                    assert(forall|q: int|
                        0 <= q < p + 1 - i ==> s@.skip(i as int)[q] == #[trigger] dec_of(nw)[q]);
                }
                lemma_dec_prefix_bound(nw, p + 1 - i);
                assert(digits_val(nxt) <= nw);
                assert(digits_val(nxt) == acc * 10 + d);
            }
            lemma_digits_nonneg(cur);
        }
        if acc > (u64::MAX - (d as u64)) / 10 {
            proof {
                if has_w {
                    assert(acc * 10 + d <= u64::MAX);
                    assert(acc <= (u64::MAX - (d as u64)) / 10) by (nonlinear_arith)
                        requires
                            acc * 10 + d <= u64::MAX,
                            0 <= d < 10,
                            0 <= acc,
                    ;
                    assert(false);
                }
            }
            return None;
        }
        proof {
            assert(acc * 10 + d <= u64::MAX) by (nonlinear_arith)
                requires
                    acc <= (u64::MAX - (d as u64)) / 10,
                    0 <= d < 10,
                    0 <= acc,
            ;
        }
        acc = acc * 10 + (d as u64);
        p += 1;
        proof {
            assert(acc == digits_val(s@.subrange(i as int, p as int)));
        }
    }
    if p > i + 1 && s[i] == 48 {
        proof {
            if has_w {
                lemma_dec_digits(nw);
                assert(s@.skip(i as int)[0] == dec_of(nw)[0]);
                assert(dec_of(nw)[0] == 48);
                assert(dec_of(nw).len() == 1);
                assert(s@.subrange(i as int, (i + 2) as int) =~= s@.subrange(
                    i as int,
                    p as int,
                ).take(2));
                assert(is_digit(s@[i + 1]));
                assert(s@.skip(i as int)[1] == restw[0]);
                assert(false);
            }
        }
        return None;
    }
    proof {
        let cur = s@.subrange(i as int, p as int);
        assert(cur.len() >= 1);
        assert(cur[0] == s@[i as int]);
        lemma_digits_to_dec(cur);
        assert(dec_of(acc) == cur);
        // Any printed-number reading of this input agrees with the result.
        assert forall|m: u64, rest: Seq<u8>|
            s@.skip(i as int) == dec_of(m) + rest && no_digit_start(rest) implies acc == m && p == i
            + dec_of(m).len() by {
            let tail = s@.skip(p as int);
            assert(s@.skip(i as int) =~= cur + tail);
            assert(no_digit_start(tail)) by {
                if p < n {
                    assert(tail[0] == s@[p as int]);
                }
            }
            lemma_dec_unique(m, acc, rest, tail);
        }
    }
    Some((acc, p))
}

/// The exec value of a lowercase hex digit byte.
fn hexval_x(c: u8) -> (r: Option<u8>)
    ensures
        r matches Some(v) ==> v < 16 && hexd(v) == c,
        r is None ==> forall|x: u8| x < 16 ==> hexd(x) != c,
{
    if 48 <= c && c <= 57 {
        Some(c - 48)
    } else if 97 <= c && c <= 102 {
        Some(c - 87)
    } else {
        None
    }
}

/// Parses a canonical JSON string at `i`.
///
/// On success the consumed bytes are exactly the canonical printed form of
/// the result; any input that begins with a printed string is accepted with
/// that string as result.
#[verifier::loop_isolation(false)]
#[verifier::rlimit(80)]
pub fn parse_jstr(s: &Vec<u8>, i: usize) -> (r: Option<(Vec<u8>, usize)>)
    requires
        i <= s@.len(),
    ensures
        r matches Some((x, j)) ==> i < j <= s@.len() && s@.subrange(i as int, j as int) == pr_str(
            x@,
        ),
        forall|x: Seq<u8>, rest: Seq<u8>|
            s@.skip(i as int) == pr_str(x) + rest ==> (r matches Some((rx, rj)) && rx@ == x && rj
                == i + pr_str(x).len()),
{
    let ghost has_w = exists|x: Seq<u8>, rest: Seq<u8>| s@.skip(i as int) == pr_str(x) + rest;
    let ghost (xw, restw): (Seq<u8>, Seq<u8>) = if has_w {
        choose|x: Seq<u8>, rest: Seq<u8>| s@.skip(i as int) == pr_str(x) + rest
    } else {
        arbitrary()
    };
    proof {
        if has_w {
            assert(s@.skip(i as int) =~= (seq![34u8] + esc(xw) + seq![34u8]) + restw);
        }
    }
    if i >= s.len() || s[i] != 34 {
        proof {
            if has_w {
                assert(s@.skip(i as int).len() >= 2);
                assert(s@.skip(i as int)[0] == 34);
                assert(s@[i as int] == 34);
                assert(false);
            }
        }
        return None;
    }
    let n = s.len();
    let mut p: usize = i + 1;
    let mut out: Vec<u8> = Vec::new();
    let ghost mut k: int = 0;
    proof {
        assert(s@.subrange(i + 1, i + 1) =~= Seq::<u8>::empty());
        assert(esc(out@) =~= Seq::<u8>::empty());
        if has_w {
            assert(xw.take(0) =~= Seq::<u8>::empty());
        }
    }
    while p < n
        invariant
            i + 1 <= p <= n,
            esc(out@) == s@.subrange(i + 1, p as int),
            has_w ==> 0 <= k <= xw.len() && out@ == xw.take(k) && p == i + 1 + esc(
                xw.take(k),
            ).len(),
        decreases n - p,
    {
        let b = s[p];
        proof {
            if has_w {
                assert(xw =~= xw.take(k) + xw.skip(k));
                lemma_esc_append(xw.take(k), xw.skip(k));
                if k < xw.len() {
                    assert(xw.skip(k)[0] == xw[k]);
                    assert(xw.skip(k).skip(1) =~= xw.skip(k + 1));
                    assert(esc(xw.skip(k)) == esc1(xw[k]) + esc(xw.skip(k + 1)));
                    lemma_esc1_shape(xw[k]);
                    assert(s@[p as int] == s@.skip(i as int)[p - i]);
                    assert(s@.skip(i as int)[p - i] == esc1(xw[k])[0]);
                } else {
                    assert(xw.take(k) =~= xw);
                    assert(s@[p as int] == s@.skip(i as int)[p - i]);
                    assert(s@.skip(i as int)[p - i] == 34);
                }
            }
        }
        if b == 34 {
            proof {
                assert(s@.subrange(i as int, p + 1) =~= seq![34u8] + esc(out@) + seq![34u8]);
                assert forall|x: Seq<u8>, rest: Seq<u8>|
                    s@.skip(i as int) == pr_str(x) + rest implies (x == out@ && i + pr_str(
                    x,
                ).len() == p + 1) by {
                    assert(s@.skip(i as int) =~= s@.subrange(i as int, p + 1) + s@.skip(p + 1));
                    lemma_pr_str_unique(x, out@, rest, s@.skip(p + 1));
                }
            }
            return Some((out, p + 1));
        } else if b == 92 {
            proof {
                if has_w {
                    assert(k < xw.len());
                    assert(esc1(xw[k])[0] == 92);
                    assert(xw[k] == 34 || xw[k] == 92 || xw[k] < 32);
                    // The full escape lies inside the input.
                    assert(s@.skip(i as int).len() == 2 + esc(xw).len() + restw.len());
                    assert(esc(xw).len() >= esc(xw.take(k)).len() + esc1(xw[k]).len());
                    assert(n - i >= 2 + esc(xw).len());
                    assert(p + esc1(xw[k]).len() < n);
                }
            }
            if p + 1 >= n {
                proof {
                    if has_w {
                        assert(false);
                    }
                }
                return None;
            }
            let c = s[p + 1];
            proof {
                if has_w {
                    assert(s@[p + 1] == s@.skip(i as int)[p + 1 - i]);
                    assert(s@.skip(i as int)[p + 1 - i] == esc1(xw[k])[1]);
                }
            }
            if c == 34 || c == 92 {
                let ghost prev = out@;
                out.push(c);
                proof {
                    assert(out@ =~= prev + seq![c]);
                    lemma_esc_append(prev, seq![c]);
                    assert(esc(seq![c]) == esc1(c) + esc(seq![c].skip(1)));
                    assert(seq![c].skip(1) =~= Seq::<u8>::empty());
                    assert(esc1(c) =~= seq![92u8, c]);
                    assert(esc(Seq::<u8>::empty()) == Seq::<u8>::empty());
                    assert(esc(out@) == s@.subrange(i + 1, p as int) + seq![92u8, c]);
                    assert(s@.subrange(i + 1, p + 2) =~= s@.subrange(i + 1, p as int) + seq![
                        92u8,
                        c,
                    ]);
                    if has_w {
                        assert(esc1(xw[k])[1] == c);
                        assert(xw[k] == c) by {
                            if xw[k] < 32 {
                                assert(esc1(xw[k])[1] == 117);
                            }
                        }
                        assert(xw.take(k + 1) =~= xw.take(k) + seq![xw[k]]);
                        lemma_esc_append(xw.take(k), seq![xw[k]]);
                        assert(esc(seq![xw[k]]) == esc1(xw[k]) + esc(seq![xw[k]].skip(1)));
                        assert(seq![xw[k]].skip(1) =~= Seq::<u8>::empty());
                        assert(out@ =~= xw.take(k + 1));
                        k = k + 1;
                    }
                }
                p = p + 2;
            } else if c == 117 {
                proof {
                    if has_w {
                        assert(xw[k] < 32) by {
                            if xw[k] == 34 || xw[k] == 92 {
                                assert(esc1(xw[k])[1] == xw[k]);
                            }
                        }
                        assert(esc1(xw[k]).len() == 6);
                        assert(s@[p + 2] == s@.skip(i as int)[p + 2 - i]);
                        assert(s@.skip(i as int)[p + 2 - i] == esc1(xw[k])[2]);
                        assert(s@[p + 3] == s@.skip(i as int)[p + 3 - i]);
                        assert(s@.skip(i as int)[p + 3 - i] == esc1(xw[k])[3]);
                        assert(s@[p + 4] == s@.skip(i as int)[p + 4 - i]);
                        assert(s@.skip(i as int)[p + 4 - i] == esc1(xw[k])[4]);
                        assert(s@[p + 5] == s@.skip(i as int)[p + 5 - i]);
                        assert(s@.skip(i as int)[p + 5 - i] == esc1(xw[k])[5]);
                        let wb = xw[k];
                        assert(wb >> 4 < 16 && wb & 15 < 16) by (bit_vector);
                    }
                }
                if n - p < 6 {
                    proof {
                        if has_w {
                            assert(false);
                        }
                    }
                    return None;
                }
                if s[p + 2] != 48 || s[p + 3] != 48 {
                    proof {
                        if has_w {
                            assert(false);
                        }
                    }
                    return None;
                }
                let hi = hexval_x(s[p + 4]);
                let lo = hexval_x(s[p + 5]);
                match (hi, lo) {
                    (Some(h), Some(l)) => {
                        let bb = h * 16 + l;
                        proof {
                            if has_w {
                                assert(hexd(xw[k] >> 4) == hexd(h) && xw[k] >> 4 < 16 && h < 16
                                    ==> xw[k] >> 4 == h);
                                assert(hexd(xw[k] & 15) == hexd(l) && xw[k] & 15 < 16 && l < 16
                                    ==> xw[k] & 15 == l);
                                assert(h == xw[k] >> 4 && l == xw[k] & 15);
                                let wb = xw[k];
                                assert((wb >> 4) * 16 + (wb & 15) == wb) by (bit_vector);
                                assert(bb == xw[k]);
                            }
                            assert(bb >> 4 == h && bb & 15 == l) by (bit_vector)
                                requires
                                    h < 16,
                                    l < 16,
                                    bb == h * 16 + l,
                            ;
                        }
                        if bb >= 32 {
                            proof {
                                if has_w {
                                    assert(false);
                                }
                            }
                            return None;
                        }
                        let ghost prev = out@;
                        out.push(bb);
                        proof {
                            assert(out@ =~= prev + seq![bb]);
                            lemma_esc_append(prev, seq![bb]);
                            assert(esc(seq![bb]) == esc1(bb) + esc(seq![bb].skip(1)));
                            assert(seq![bb].skip(1) =~= Seq::<u8>::empty());
                            assert(esc(Seq::<u8>::empty()) == Seq::<u8>::empty());
                            assert(esc1(bb) =~= seq![
                                92u8,
                                117u8,
                                48u8,
                                48u8,
                                hexd(bb >> 4),
                                hexd(bb & 15),
                            ]);
                            assert(esc(out@) == s@.subrange(i + 1, p as int) + esc1(bb));
                            assert(s@.subrange(i + 1, p + 6) =~= s@.subrange(i + 1, p as int)
                                + esc1(bb));
                            if has_w {
                                assert(xw.take(k + 1) =~= xw.take(k) + seq![xw[k]]);
                                lemma_esc_append(xw.take(k), seq![xw[k]]);
                                assert(esc(seq![xw[k]]) == esc1(xw[k]) + esc(seq![xw[k]].skip(1)));
                                assert(seq![xw[k]].skip(1) =~= Seq::<u8>::empty());
                                assert(out@ =~= xw.take(k + 1));
                                k = k + 1;
                            }
                        }
                        p = p + 6;
                    },
                    _ => {
                        proof {
                            if has_w {
                                assert(false);
                            }
                        }
                        return None;
                    },
                }
            } else {
                proof {
                    if has_w {
                        assert(esc1(xw[k])[1] == 34 || esc1(xw[k])[1] == 92 || esc1(xw[k])[1]
                            == 117);
                        assert(false);
                    }
                }
                return None;
            }
        } else if b < 32 {
            proof {
                if has_w {
                    if k < xw.len() {
                        assert(esc1(xw[k])[0] == b);
                        assert(esc1(xw[k])[0] == 92 || esc1(xw[k])[0] >= 32);
                    }
                    assert(false);
                }
            }
            return None;
        } else {
            let ghost prev = out@;
            out.push(b);
            proof {
                assert(out@ =~= prev + seq![b]);
                lemma_esc_append(prev, seq![b]);
                assert(esc(seq![b]) == esc1(b) + esc(seq![b].skip(1)));
                assert(seq![b].skip(1) =~= Seq::<u8>::empty());
                assert(esc(Seq::<u8>::empty()) == Seq::<u8>::empty());
                assert(esc1(b) =~= seq![b]);
                assert(esc(out@) == s@.subrange(i + 1, p as int) + seq![b]);
                assert(s@.subrange(i + 1, p + 1) =~= s@.subrange(i + 1, p as int) + seq![b]);
                if has_w {
                    assert(k < xw.len());
                    assert(esc1(xw[k])[0] == b);
                    assert(xw[k] == b) by {
                        if xw[k] == 34 || xw[k] == 92 || xw[k] < 32 {
                            assert(esc1(xw[k])[0] == 92);
                        }
                    }
                    assert(xw.take(k + 1) =~= xw.take(k) + seq![xw[k]]);
                    lemma_esc_append(xw.take(k), seq![xw[k]]);
                    assert(esc(seq![xw[k]]) == esc1(xw[k]) + esc(seq![xw[k]].skip(1)));
                    assert(seq![xw[k]].skip(1) =~= Seq::<u8>::empty());
                    assert(out@ =~= xw.take(k + 1));
                    k = k + 1;
                }
            }
            p = p + 1;
        }
    }
    proof {
        if has_w {
            assert(xw =~= xw.take(k) + xw.skip(k));
            lemma_esc_append(xw.take(k), xw.skip(k));
            assert(esc(xw.take(k)).len() <= esc(xw).len());
            assert(s@.skip(i as int).len() == 2 + esc(xw).len() + restw.len());
            assert(p <= i + 1 + esc(xw).len());
            assert(n >= i + 2 + esc(xw).len());
            assert(false);
        }
    }
    None
}

/// The exec lowercase hex digit of a nibble.
fn hexd_x(x: u8) -> (r: u8)
    requires
        x < 16,
    ensures
        r == hexd(x),
{
    if x < 10 {
        48 + x
    } else {
        87 + x
    }
}

/// Appends the canonical decimal form of `n`.
pub fn write_dec(out: &mut Vec<u8>, n: u64)
    ensures
        final(out)@ == old(out)@ + dec_of(n),
    decreases n,
{
    if n < 10 {
        out.push(48 + (n as u8));
        assert(final(out)@ =~= old(out)@ + dec_of(n));
    } else {
        write_dec(out, n / 10);
        out.push(48 + ((n % 10) as u8));
        assert(final(out)@ =~= old(out)@ + dec_of(n));
    }
}

/// Appends the canonical printed form of a JSON string.
pub fn write_jstr(out: &mut Vec<u8>, s: &Vec<u8>)
    ensures
        final(out)@ == old(out)@ + pr_str(s@),
{
    out.push(34);
    let n = s.len();
    let mut i: usize = 0;
    proof {
        assert(s@.take(0) =~= Seq::<u8>::empty());
        assert(out@ =~= old(out)@ + seq![34u8] + esc(s@.take(0)));
    }
    while i < n
        invariant
            i <= n,
            n == s@.len(),
            out@ == old(out)@ + seq![34u8] + esc(s@.take(i as int)),
        decreases n - i,
    {
        let b = s[i];
        proof {
            lemma_esc_snoc(s@, i as int);
        }
        if b == 34 {
            out.push(92);
            out.push(34);
        } else if b == 92 {
            out.push(92);
            out.push(92);
        } else if b < 32 {
            proof {
                assert(b >> 4 < 16 && b & 15 < 16) by (bit_vector);
            }
            out.push(92);
            out.push(117);
            out.push(48);
            out.push(48);
            out.push(hexd_x(b >> 4));
            out.push(hexd_x(b & 15));
        } else {
            out.push(b);
        }
        proof {
            assert(out@ =~= old(out)@ + seq![34u8] + esc(s@.take(i + 1)));
        }
        i += 1;
    }
    out.push(34);
    proof {
        assert(s@.take(n as int) =~= s@);
        assert(out@ =~= old(out)@ + pr_str(s@));
    }
}

/// A successful parse of a printed value pins down every printed reading
/// of the same input.
proof fn lemma_parse_conclude(s: Seq<u8>, i: int, v: JVal, j: int)
    requires
        0 <= i <= j <= s.len(),
        s.subrange(i, j) == pr_val(v),
        v is Num ==> j == s.len() || !is_digit(s[j]),
    ensures
        forall|x: JVal, rest: Seq<u8>|
            s.skip(i) == pr_val(x) + rest && (x is Num ==> no_digit_start(rest)) ==> (x == v && i
                + pr_val(x).len() == j),
{
    assert forall|x: JVal, rest: Seq<u8>|
        s.skip(i) == pr_val(x) + rest && (x is Num ==> no_digit_start(rest)) implies (x == v && i
        + pr_val(x).len() == j) by {
        let tail = s.skip(j);
        assert(s.skip(i) =~= s.subrange(i, j) + tail);
        assert(v is Num ==> no_digit_start(tail)) by {
            if j < s.len() {
                assert(tail[0] == s[j]);
            }
        }
        lemma_pr_val_unique(x, v, rest, tail);
    }
}




/// One parsed item extends the printed item list by one entry.
proof fn lemma_arr_sound_step(s: Seq<u8>, i: int, p: int, p2: int, jold: Seq<JVal>, val: JVal)
    requires
        0 <= i,
        i + 1 <= p,
        p <= p2 <= s.len(),
        jold.len() == 0 ==> p == i + 1,
        jold.len() > 0 ==> s.subrange(i + 1, p) == pr_items(jold) + seq![44u8],
        s.subrange(p, p2) == pr_val(val),
    ensures
        s.subrange(i + 1, p2) == pr_items(jold + seq![val]),
{
    let one = seq![val];
    assert(pr_items(one) == pr_val(val));
    if jold.len() == 0 {
        assert(jold + one =~= one);
        assert(s.subrange(i + 1, p2) =~= pr_val(val));
        assert(s.subrange(i + 1, p2) =~= pr_items(jold + one));
    } else {
        lemma_items_append(jold, one);
        assert(s.subrange(i + 1, p2) =~= (pr_items(jold) + seq![44u8]) + pr_val(val));
        assert(pr_items(jold + one) == pr_items(jold) + seq![44u8] + pr_items(one));
        assert(s.subrange(i + 1, p2) =~= pr_items(jold + one));
    }
}

/// Parses a canonical JSON array at `i`, which must hold an opening bracket.
#[verifier::rlimit(100)]
#[verifier::spinoff_prover]
fn parse_arr(s: &Vec<u8>, i: usize) -> (r: Option<(JsonValue, usize)>)
    requires
        i < s@.len(),
        s@[i as int] == 91,
    ensures
        r matches Some((v, j)) ==> i < j <= s@.len() && s@.subrange(i as int, j as int) == pr_val(
            v@,
        ) && (v@ is Num ==> j == s@.len() || !is_digit(s@[j as int])),
        forall|x: JVal, rest: Seq<u8>|
            s@.skip(i as int) == pr_val(x) + rest && (x is Num ==> no_digit_start(rest)) ==> (
            r matches Some((rv, rj)) && rv@ == x && rj == i + pr_val(x).len()),
    decreases s@.len() - i, 0nat,
{
    let ghost has_w = exists|x: JVal, rest: Seq<u8>|
        s@.skip(i as int) == pr_val(x) + rest && (x is Num ==> no_digit_start(rest));
    let ghost (xw, restw): (JVal, Seq<u8>) = if has_w {
        choose|x: JVal, rest: Seq<u8>|
            s@.skip(i as int) == pr_val(x) + rest && (x is Num ==> no_digit_start(rest))
    } else {
        arbitrary()
    };
    proof {
        if has_w {
            lemma_pr_val_first(xw);
            assert(s@[i as int] == s@.skip(i as int)[0]);
            assert(s@.skip(i as int)[0] == pr_val(xw)[0]);
        }
    }
    let n = s.len();
    let ghost wa: Seq<JVal> = if has_w {
        xw->Arr_0
    } else {
        arbitrary()
    };
    proof {
        if has_w {
            assert(xw is Arr);
            assert(xw == JVal::Arr(wa));
            assert(s@.skip(i as int) =~= seq![91u8] + (pr_items(wa) + seq![93u8] + restw));
        }
    }
    let mut p: usize = i + 1;
    let mut items: Vec<JsonValue> = Vec::new();
    if p >= n {
        proof {
            if has_w {
                assert(s@.skip(i as int).len() >= 2);
                assert(false);
            }
        }
        return None;
    }
    if s[p] == 93 {
        proof {
            assert(jitems_of(items@) =~= Seq::<JVal>::empty());
            let jv = jval_of(JsonValue::Arr(items));
            assert(jv == JVal::Arr(jitems_of(items@)));
            assert(pr_items(jitems_of(items@)) == Seq::<u8>::empty());
            assert(s@.subrange(i as int, p + 1) =~= seq![91u8] + Seq::<u8>::empty() + seq![93u8]);
            lemma_parse_conclude(s@, i as int, jv, p + 1);
        }
        return Some((JsonValue::Arr(items), p + 1));
    }
    proof {
        if has_w {
            if wa.len() == 0 {
                assert(s@.skip(i as int)[1] == 93);
                assert(s@[i + 1] == 93);
                assert(false);
            }
            assert(wa.skip(0) =~= wa);
            assert(s@.skip(p as int) =~= s@.skip(i as int).skip(1));
            assert((seq![91u8] + (pr_items(wa) + seq![93u8] + restw)).skip(1) =~= (pr_items(wa)
                + seq![93u8] + restw));
            assert(s@.skip(p as int) =~= pr_items(wa.skip(0)) + seq![93u8] + restw);
        }
    }
    loop
        invariant
            i + 1 <= p <= n,
            n == s@.len(),
            s@[i as int] == 91,
            items@.len() == 0 ==> p == i + 1,
            items@.len() > 0 ==> s@.subrange(i + 1, p as int) == pr_items(jitems_of(items@))
                + seq![44u8],
            has_w == (exists|x: JVal, rest: Seq<u8>|
                s@.skip(i as int) == pr_val(x) + rest && (x is Num ==> no_digit_start(rest))),
            has_w ==> s@.skip(i as int) == pr_val(xw) + restw && xw == JVal::Arr(wa),
            has_w ==> {
                &&& jitems_of(items@) == wa.take(items@.len() as int)
                &&& (items@.len() as int) < wa.len()
                &&& s@.skip(p as int) == pr_items(wa.skip(items@.len() as int)) + seq![93u8]
                    + restw
            },
        decreases n - p,
    {
        let ghost k = items@.len() as int;
        let ghost tail: Seq<u8> = if has_w && wa.skip(k).len() == 1 {
            seq![93u8] + restw
        } else {
            seq![44u8] + pr_items(wa.skip(k + 1)) + seq![93u8] + restw
        };
        proof {
            lemma_jitems_index(items@);
            if has_w {
                let rem = wa.skip(k);
                assert(rem.len() > 0);
                assert(rem[0] == wa[k]);
                if rem.len() == 1 {
                    assert(pr_items(rem) == pr_val(wa[k]));
                    assert(s@.skip(p as int) =~= pr_val(wa[k]) + tail);
                } else {
                    assert(rem.skip(1) =~= wa.skip(k + 1));
                    assert(pr_items(rem) == pr_val(wa[k]) + seq![44u8] + pr_items(wa.skip(k + 1)));
                    assert(s@.skip(p as int) =~= pr_val(wa[k]) + tail);
                }
                assert(tail[0] == 93 || tail[0] == 44);
                assert(wa[k] is Num ==> no_digit_start(tail));
            }
        }
        let val = match parse_value(s, p) {
            Some(vv) => vv,
            None => {
                proof {
                    if has_w {
                        assert(false);
                    }
                }
                return None;
            },
        };
        let p2 = val.1;
        proof {
            if has_w {
                assert(val.0@ == wa[k] && p2 == p + pr_val(wa[k]).len());
            }
        }
        let ghost old_items = items@;
        let ghost old_p = p as int;
        items.push(val.0);
        proof {
            assert(items@ =~= old_items + seq![val.0]);
            lemma_jitems_index(items@);
            lemma_jitems_index(old_items);
            let jnew = jitems_of(items@);
            let jold = jitems_of(old_items);
            assert(jnew =~= jold + seq![val.0@]) by {
                assert forall|q: int| 0 <= q < jnew.len() implies jnew[q] == (jold + seq![
                    val.0@,
                ])[q] by {
                    if q < jold.len() {
                        assert(items@[q] == old_items[q]);
                    } else {
                        assert(items@[q] == val.0);
                    }
                }
            }
            lemma_arr_sound_step(s@, i as int, old_p, p2 as int, jold, val.0@);
            assert(s@.subrange(i + 1, p2 as int) == pr_items(jnew));
            if has_w {
                assert(jnew =~= wa.take(k + 1)) by {
                    assert(wa.take(k + 1) =~= wa.take(k) + seq![wa[k]]);
                }
            }
        }
        proof {
            if has_w {
                assert(s@.skip(p2 as int) =~= s@.skip(old_p).skip(p2 - old_p));
                assert((pr_val(wa[k]) + tail).skip(pr_val(wa[k]).len() as int) =~= tail);
                assert(s@.skip(p2 as int) =~= tail);
            }
        }
        if p2 >= n {
            proof {
                if has_w {
                    assert(tail.len() > 0);
                    assert(false);
                }
            }
            return None;
        }
        let sep = s[p2];
        proof {
            if has_w {
                assert(s@[p2 as int] == tail[0]);
            }
        }
        if sep == 44 {
            proof {
                if has_w {
                    assert(wa.skip(k).len() > 1) by {
                        if wa.skip(k).len() == 1 {
                            assert(s@[p2 as int] == 93);
                        }
                    }
                    assert(k + 1 < wa.len());
                    assert(s@.skip(p2 + 1) =~= s@.skip(p2 as int).skip(1));
                    assert(tail.skip(1) =~= pr_items(wa.skip(k + 1)) + seq![93u8] + restw);
                    assert(s@.skip(p2 + 1) =~= pr_items(wa.skip(k + 1)) + seq![93u8] + restw);
                }
                assert(s@.subrange(i + 1, p2 + 1) =~= pr_items(jitems_of(items@)) + seq![44u8]);
            }
            p = p2 + 1;
        } else if sep == 93 {
            proof {
                let jnew = jitems_of(items@);
                assert(s@.subrange(i as int, p2 + 1) =~= seq![91u8] + pr_items(jnew) + seq![93u8]);
                assert(jval_of(JsonValue::Arr(items)) == JVal::Arr(jnew));
                lemma_parse_conclude(s@, i as int, JVal::Arr(jnew), p2 + 1);
            }
            return Some((JsonValue::Arr(items), p2 + 1));
        } else {
            proof {
                if has_w {
                    assert(false);
                }
            }
            return None;
        }
    }
}

/// One parsed member extends the printed member list by one entry.
proof fn lemma_obj_sound_step(
    s: Seq<u8>,
    i: int,
    p: int,
    p1: int,
    p2: int,
    jold: Seq<(Seq<u8>, JVal)>,
    key: Seq<u8>,
    val: JVal,
)
    requires
        0 <= i,
        i + 1 <= p,
        p <= p1,
        p1 + 1 <= p2 <= s.len(),
        jold.len() == 0 ==> p == i + 1,
        jold.len() > 0 ==> s.subrange(i + 1, p) == pr_members(jold) + seq![44u8],
        s.subrange(p, p1) == pr_str(key),
        s[p1] == 58,
        s.subrange(p1 + 1, p2) == pr_val(val),
    ensures
        s.subrange(i + 1, p2) == pr_members(jold + seq![(key, val)]),
{
    let one = seq![(key, val)];
    assert(pr_members(one) == pr_str(key) + seq![58u8] + pr_val(val));
    if jold.len() == 0 {
        assert(jold + one =~= one);
        assert(s.subrange(i + 1, p2) =~= pr_str(key) + seq![58u8] + pr_val(val));
        assert(s.subrange(i + 1, p2) =~= pr_members(jold + one));
    } else {
        lemma_members_append(jold, one);
        assert(s.subrange(i + 1, p2) =~= (pr_members(jold) + seq![44u8]) + (pr_str(key) + seq![
            58u8,
        ] + pr_val(val)));
        assert(pr_members(jold + one) == pr_members(jold) + seq![44u8] + pr_members(one));
        assert(s.subrange(i + 1, p2) =~= pr_members(jold + one));
    }
}

/// Parses a canonical JSON object at `i`, which must hold an opening brace.
#[verifier::rlimit(100)]
#[verifier::spinoff_prover]
fn parse_obj(s: &Vec<u8>, i: usize) -> (r: Option<(JsonValue, usize)>)
    requires
        i < s@.len(),
        s@[i as int] == 123,
    ensures
        r matches Some((v, j)) ==> i < j <= s@.len() && s@.subrange(i as int, j as int) == pr_val(
            v@,
        ) && (v@ is Num ==> j == s@.len() || !is_digit(s@[j as int])),
        forall|x: JVal, rest: Seq<u8>|
            s@.skip(i as int) == pr_val(x) + rest && (x is Num ==> no_digit_start(rest)) ==> (
            r matches Some((rv, rj)) && rv@ == x && rj == i + pr_val(x).len()),
    decreases s@.len() - i, 0nat,
{
    let ghost has_w = exists|x: JVal, rest: Seq<u8>|
        s@.skip(i as int) == pr_val(x) + rest && (x is Num ==> no_digit_start(rest));
    let ghost (xw, restw): (JVal, Seq<u8>) = if has_w {
        choose|x: JVal, rest: Seq<u8>|
            s@.skip(i as int) == pr_val(x) + rest && (x is Num ==> no_digit_start(rest))
    } else {
        arbitrary()
    };
    proof {
        if has_w {
            lemma_pr_val_first(xw);
            assert(s@[i as int] == s@.skip(i as int)[0]);
            assert(s@.skip(i as int)[0] == pr_val(xw)[0]);
        }
    }
    let n = s.len();
    let ghost wm: Seq<(Seq<u8>, JVal)> = if has_w {
        xw->Obj_0
    } else {
        arbitrary()
    };
    proof {
        if has_w {
            assert(xw is Obj);
            assert(xw == JVal::Obj(wm));
            assert(s@.skip(i as int) =~= seq![123u8] + (pr_members(wm) + seq![125u8] + restw));
        }
    }
    let mut p: usize = i + 1;
    let mut ms: Vec<(Vec<u8>, JsonValue)> = Vec::new();
    if p >= n {
        proof {
            if has_w {
                assert(s@.skip(i as int).len() >= 2);
                assert(false);
            }
        }
        return None;
    }
    if s[p] == 125 {
        proof {
            assert(jmembers_of(ms@) =~= Seq::<(Seq<u8>, JVal)>::empty());
            let jv = jval_of(JsonValue::Obj(ms));
            assert(jv == JVal::Obj(jmembers_of(ms@)));
            assert(pr_members(jmembers_of(ms@)) == Seq::<u8>::empty());
            assert(s@.subrange(i as int, p + 1) =~= seq![123u8] + Seq::<u8>::empty() + seq![
                125u8,
            ]);
            lemma_parse_conclude(s@, i as int, jv, p + 1);
        }
        return Some((JsonValue::Obj(ms), p + 1));
    }
    proof {
        if has_w {
            if wm.len() == 0 {
                assert(s@.skip(i as int)[1] == 125);
                assert(s@[i + 1] == 125);
                assert(false);
            }
            assert(wm.skip(0) =~= wm);
            assert(s@.skip(p as int) =~= s@.skip(i as int).skip(1));
            assert((seq![123u8] + (pr_members(wm) + seq![125u8] + restw)).skip(1) =~= (
            pr_members(wm) + seq![125u8] + restw));
            assert(s@.skip(p as int) =~= pr_members(wm.skip(0)) + seq![125u8] + restw);
        }
    }
    loop
        invariant
            i + 1 <= p <= n,
            n == s@.len(),
            s@[i as int] == 123,
            ms@.len() == 0 ==> p == i + 1,
            ms@.len() > 0 ==> s@.subrange(i + 1, p as int) == pr_members(jmembers_of(ms@))
                + seq![44u8],
            has_w == (exists|x: JVal, rest: Seq<u8>|
                s@.skip(i as int) == pr_val(x) + rest && (x is Num ==> no_digit_start(rest))),
            has_w ==> s@.skip(i as int) == pr_val(xw) + restw && xw == JVal::Obj(wm),
            has_w ==> {
                &&& jmembers_of(ms@) == wm.take(ms@.len() as int)
                &&& (ms@.len() as int) < wm.len()
                &&& s@.skip(p as int) == pr_members(wm.skip(ms@.len() as int)) + seq![125u8]
                    + restw
            },
        decreases n - p,
    {
        let ghost k = ms@.len() as int;
        let ghost tail: Seq<u8> = if has_w && wm.skip(k).len() == 1 {
            seq![125u8] + restw
        } else {
            seq![44u8] + pr_members(wm.skip(k + 1)) + seq![125u8] + restw
        };
        let ghost rak: Seq<u8> = seq![58u8] + (pr_val(wm[k].1) + tail);
        proof {
            lemma_jmembers_index(ms@);
            if has_w {
                let rem = wm.skip(k);
                assert(rem.len() > 0);
                assert(rem[0] == wm[k]);
                if rem.len() == 1 {
                    assert(pr_members(rem) == pr_str(wm[k].0) + seq![58u8] + pr_val(wm[k].1));
                    assert(s@.skip(p as int) =~= pr_str(wm[k].0) + rak);
                } else {
                    assert(rem.skip(1) =~= wm.skip(k + 1));
                    assert(pr_members(rem) == pr_str(wm[k].0) + seq![58u8] + pr_val(wm[k].1)
                        + seq![44u8] + pr_members(wm.skip(k + 1)));
                    assert(s@.skip(p as int) =~= pr_str(wm[k].0) + rak);
                }
                assert(tail[0] == 125 || tail[0] == 44);
            }
        }
        let key = match parse_jstr(s, p) {
            Some(kv) => kv,
            None => {
                proof {
                    if has_w {
                        assert(false);
                    }
                }
                return None;
            },
        };
        let p1 = key.1;
        proof {
            if has_w {
                assert(key.0@ == wm[k].0 && p1 == p + pr_str(wm[k].0).len());
                assert(s@.skip(p1 as int) =~= s@.skip(p as int).skip(p1 - p));
                assert((pr_str(wm[k].0) + rak).skip(pr_str(wm[k].0).len() as int) =~= rak);
                assert(s@.skip(p1 as int) =~= rak);
            }
        }
        if p1 >= n || s[p1] != 58 {
            proof {
                if has_w {
                    assert(s@.skip(p1 as int)[0] == 58);
                    assert(s@[p1 as int] == 58);
                    assert(false);
                }
            }
            return None;
        }
        proof {
            if has_w {
                assert(s@.skip(p1 + 1) =~= s@.skip(p1 as int).skip(1));
                assert(rak.skip(1) =~= pr_val(wm[k].1) + tail);
                assert(s@.skip(p1 + 1) =~= pr_val(wm[k].1) + tail);
                assert(wm[k].1 is Num ==> no_digit_start(tail));
            }
        }
        let val = match parse_value(s, p1 + 1) {
            Some(vv) => vv,
            None => {
                proof {
                    if has_w {
                        assert(false);
                    }
                }
                return None;
            },
        };
        let p2 = val.1;
        proof {
            if has_w {
                assert(val.0@ == wm[k].1 && p2 == p1 + 1 + pr_val(wm[k].1).len());
            }
        }
        let ghost old_ms = ms@;
        ms.push((key.0, val.0));
        proof {
            assert(ms@ =~= old_ms + seq![(key.0, val.0)]);
            lemma_jmembers_index(ms@);
            lemma_jmembers_index(old_ms);
            let jms = jmembers_of(ms@);
            let jold = jmembers_of(old_ms);
            assert(jms =~= jold + seq![(key.0@, val.0@)]) by {
                assert forall|q: int| 0 <= q < jms.len() implies jms[q] == (jold + seq![
                    (key.0@, val.0@),
                ])[q] by {
                    if q < jold.len() {
                        assert(ms@[q] == old_ms[q]);
                    } else {
                        assert(ms@[q] == (key.0, val.0));
                    }
                }
            }
            lemma_obj_sound_step(
                s@,
                i as int,
                p as int,
                p1 as int,
                p2 as int,
                jold,
                key.0@,
                val.0@,
            );
            assert(s@.subrange(i + 1, p2 as int) == pr_members(jms));
            if has_w {
                assert(jms =~= wm.take(k + 1)) by {
                    assert(wm.take(k + 1) =~= wm.take(k) + seq![wm[k]]);
                }
            }
        }
        proof {
            if has_w {
                assert(s@.skip(p2 as int) =~= s@.skip(p1 + 1).skip(p2 - (p1 + 1)));
                assert((pr_val(wm[k].1) + tail).skip(pr_val(wm[k].1).len() as int) =~= tail);
                assert(s@.skip(p2 as int) =~= tail);
            }
        }
        if p2 >= n {
            proof {
                if has_w {
                    assert(tail.len() > 0);
                    assert(false);
                }
            }
            return None;
        }
        let sep = s[p2];
        proof {
            if has_w {
                assert(s@[p2 as int] == tail[0]);
            }
        }
        if sep == 44 {
            proof {
                if has_w {
                    assert(wm.skip(k).len() > 1) by {
                        if wm.skip(k).len() == 1 {
                            assert(s@[p2 as int] == 125);
                        }
                    }
                    assert(k + 1 < wm.len());
                    assert(s@.skip(p2 + 1) =~= s@.skip(p2 as int).skip(1));
                    assert(tail.skip(1) =~= pr_members(wm.skip(k + 1)) + seq![125u8] + restw);
                    assert(s@.skip(p2 + 1) =~= pr_members(wm.skip(k + 1)) + seq![125u8]
                        + restw);
                }
                assert(s@.subrange(i + 1, p2 + 1) =~= pr_members(jmembers_of(ms@)) + seq![
                    44u8,
                ]);
            }
            p = p2 + 1;
        } else if sep == 125 {
            proof {
                let jms = jmembers_of(ms@);
                assert(s@.subrange(i as int, p2 + 1) =~= seq![123u8] + pr_members(jms) + seq![
                    125u8,
                ]);
                assert(jval_of(JsonValue::Obj(ms)) == JVal::Obj(jms));
                lemma_parse_conclude(s@, i as int, JVal::Obj(jms), p2 + 1);
            }
            return Some((JsonValue::Obj(ms), p2 + 1));
        } else {
            proof {
                if has_w {
                    assert(false);
                }
            }
            return None;
        }
    }
}

/// Parses a canonical JSON value at `i`.
///
/// On success the consumed bytes are exactly the canonical printed form of
/// the result; any input that begins with a printed value (followed by a
/// non-digit where the value is a number) is accepted with that value as
/// result.
#[verifier::loop_isolation(false)]
#[verifier::rlimit(100)]
pub fn parse_value(s: &Vec<u8>, i: usize) -> (r: Option<(JsonValue, usize)>)
    requires
        i <= s@.len(),
    ensures
        r matches Some((v, j)) ==> i < j <= s@.len() && s@.subrange(i as int, j as int) == pr_val(
            v@,
        ) && (v@ is Num ==> j == s@.len() || !is_digit(s@[j as int])),
        forall|x: JVal, rest: Seq<u8>|
            s@.skip(i as int) == pr_val(x) + rest && (x is Num ==> no_digit_start(rest)) ==> (
            r matches Some((rv, rj)) && rv@ == x && rj == i + pr_val(x).len()),
    decreases s@.len() - i,
{
    let ghost has_w = exists|x: JVal, rest: Seq<u8>|
        s@.skip(i as int) == pr_val(x) + rest && (x is Num ==> no_digit_start(rest));
    let ghost (xw, restw): (JVal, Seq<u8>) = if has_w {
        choose|x: JVal, rest: Seq<u8>|
            s@.skip(i as int) == pr_val(x) + rest && (x is Num ==> no_digit_start(rest))
    } else {
        arbitrary()
    };
    proof {
        if has_w {
            lemma_pr_val_first(xw);
        }
    }
    let n = s.len();
    if i >= n {
        proof {
            if has_w {
                assert(s@.skip(i as int).len() >= 1);
                assert(false);
            }
        }
        return None;
    }
    let b = s[i];
    proof {
        if has_w {
            assert(s@[i as int] == s@.skip(i as int)[0]);
            assert(s@.skip(i as int)[0] == pr_val(xw)[0]);
        }
    }
    if b == 110 {
        proof {
            if has_w {
                assert(xw is Null);
                assert(s@.skip(i as int) =~= seq![110u8, 117u8, 108u8, 108u8] + restw);
            }
        }
        if n - i >= 4 && s[i + 1] == 117 && s[i + 2] == 108 && s[i + 3] == 108 {
            proof {
                assert(s@.subrange(i as int, i + 4) =~= seq![110u8, 117u8, 108u8, 108u8]);
                lemma_parse_conclude(s@, i as int, JVal::Null, i + 4);
            }
            Some((JsonValue::Null, i + 4))
        } else {
            proof {
                if has_w {
                    assert(s@.skip(i as int).len() >= 4);
                    assert(s@.skip(i as int)[1] == 117 && s@.skip(i as int)[2] == 108
                        && s@.skip(i as int)[3] == 108);
                    assert(false);
                }
            }
            None
        }
    } else if b == 116 {
        proof {
            if has_w {
                assert(xw matches JVal::Bool(bb) && bb);
                assert(s@.skip(i as int) =~= seq![116u8, 114u8, 117u8, 101u8] + restw);
            }
        }
        if n - i >= 4 && s[i + 1] == 114 && s[i + 2] == 117 && s[i + 3] == 101 {
            proof {
                assert(s@.subrange(i as int, i + 4) =~= seq![116u8, 114u8, 117u8, 101u8]);
                lemma_parse_conclude(s@, i as int, JVal::Bool(true), i + 4);
            }
            Some((JsonValue::Bool(true), i + 4))
        } else {
            proof {
                if has_w {
                    assert(s@.skip(i as int).len() >= 4);
                    assert(s@.skip(i as int)[1] == 114 && s@.skip(i as int)[2] == 117
                        && s@.skip(i as int)[3] == 101);
                    assert(false);
                }
            }
            None
        }
    } else if b == 102 {
        proof {
            if has_w {
                assert(xw matches JVal::Bool(bb) && !bb);
                assert(s@.skip(i as int) =~= seq![102u8, 97u8, 108u8, 115u8, 101u8] + restw);
            }
        }
        if n - i >= 5 && s[i + 1] == 97 && s[i + 2] == 108 && s[i + 3] == 115 && s[i + 4] == 101 {
            proof {
                assert(s@.subrange(i as int, i + 5) =~= seq![102u8, 97u8, 108u8, 115u8, 101u8]);
                lemma_parse_conclude(s@, i as int, JVal::Bool(false), i + 5);
            }
            Some((JsonValue::Bool(false), i + 5))
        } else {
            proof {
                if has_w {
                    assert(s@.skip(i as int).len() >= 5);
                    assert(s@.skip(i as int)[1] == 97 && s@.skip(i as int)[2] == 108 && s@.skip(
                        i as int,
                    )[3] == 115 && s@.skip(i as int)[4] == 101);
                    assert(false);
                }
            }
            None
        }
    } else if 48 <= b && b <= 57 {
        proof {
            if has_w {
                assert(xw is Num) by {
                    if !(xw is Num) {
                        assert(!is_digit(pr_val(xw)[0]));
                    }
                }
            }
        }
        match parse_dec(s, i) {
            Some((num, j)) => {
                proof {
                    lemma_parse_conclude(s@, i as int, JVal::Num(num), j as int);
                }
                Some((JsonValue::Num(num), j))
            },
            None => {
                proof {
                    if has_w {
                        assert(false);
                    }
                }
                None
            },
        }
    } else if b == 34 {
        proof {
            if has_w {
                assert(xw is Str);
            }
        }
        match parse_jstr(s, i) {
            Some((x, j)) => {
                proof {
                    lemma_parse_conclude(s@, i as int, JVal::Str(x@), j as int);
                }
                Some((JsonValue::Str(x), j))
            },
            None => {
                proof {
                    if has_w {
                        assert(false);
                    }
                }
                None
            },
        }
    } else if b == 91 {
        parse_arr(s, i)
    } else if b == 123 {
        parse_obj(s, i)
    } else {
        proof {
            if has_w {
                assert(is_digit(pr_val(xw)[0]) || pr_val(xw)[0] == 110 || pr_val(xw)[0] == 116
                    || pr_val(xw)[0] == 102 || pr_val(xw)[0] == 34 || pr_val(xw)[0] == 91
                    || pr_val(xw)[0] == 123);
                assert(false);
            }
        }
        None
    }
}

/// Appends the canonical printed form of a JSON value.
#[verifier::loop_isolation(false)]
#[verifier::rlimit(100)]
#[verifier::spinoff_prover]
pub fn write_jval(out: &mut Vec<u8>, v: &JsonValue)
    ensures
        final(out)@ == old(out)@ + pr_val(v@),
    decreases v,
{
    match v {
        JsonValue::Null => {
            out.push(110);
            out.push(117);
            out.push(108);
            out.push(108);
            assert(final(out)@ =~= old(out)@ + pr_val(v@));
        },
        JsonValue::Bool(b) => {
            if *b {
                out.push(116);
                out.push(114);
                out.push(117);
                out.push(101);
            } else {
                out.push(102);
                out.push(97);
                out.push(108);
                out.push(115);
                out.push(101);
            }
            assert(final(out)@ =~= old(out)@ + pr_val(v@));
        },
        JsonValue::Num(n) => {
            write_dec(out, *n);
        },
        JsonValue::Str(s) => {
            write_jstr(out, s);
        },
        JsonValue::Arr(a) => {
            let ghost items = jitems_of(a@);
            proof {
                lemma_jitems_index(a@);
            }
            out.push(91);
            let n = a.len();
            let mut i: usize = 0;
            proof {
                assert(pr_items(items.take(0)) =~= Seq::<u8>::empty());
                assert(out@ =~= old(out)@ + seq![91u8] + pr_items(items.take(0)));
            }
            while i < n
                invariant
                    i <= n,
                    n == a@.len(),
                    items == jitems_of(a@),
                    items.len() == n,
                    forall|q: int| 0 <= q < n ==> #[trigger] items[q] == jval_of(a@[q]),
                    out@ == old(out)@ + seq![91u8] + pr_items(items.take(i as int)),
                decreases n - i,
            {
                if i > 0 {
                    out.push(44);
                }
                proof {
                    assert(decreases_to!(*v => (*v)->Arr_0));
                    assert((*v)->Arr_0 == *a);
                    assert(decreases_to!(*a => a@));
                    assert(decreases_to!(a@ => a@[i as int]));
                }
                write_jval(out, &a[i]);
                proof {
                    let one = seq![items[i as int]];
                    assert(pr_items(one) == pr_val(items[i as int]));
                    if i == 0 {
                        assert(items.take(1) =~= one);
                        assert(out@ =~= old(out)@ + seq![91u8] + pr_items(items.take(i + 1)));
                    } else {
                        assert(items.take(i + 1) =~= items.take(i as int) + one);
                        lemma_items_append(items.take(i as int), one);
                        assert(out@ =~= old(out)@ + seq![91u8] + pr_items(items.take(i + 1)));
                    }
                }
                i += 1;
            }
            out.push(93);
            proof {
                assert(items.take(n as int) =~= items);
                assert(out@ =~= old(out)@ + pr_val(v@));
            }
        },
        JsonValue::Obj(m) => {
            let ghost ms = jmembers_of(m@);
            proof {
                lemma_jmembers_index(m@);
            }
            out.push(123);
            let n = m.len();
            let mut i: usize = 0;
            proof {
                assert(pr_members(ms.take(0)) =~= Seq::<u8>::empty());
                assert(out@ =~= old(out)@ + seq![123u8] + pr_members(ms.take(0)));
            }
            while i < n
                invariant
                    i <= n,
                    n == m@.len(),
                    ms == jmembers_of(m@),
                    ms.len() == n,
                    forall|k: int| 0 <= k < n ==> #[trigger] ms[k] == (m@[k].0@, jval_of(m@[k].1)),
                    out@ == old(out)@ + seq![123u8] + pr_members(ms.take(i as int)),
                decreases n - i,
            {
                if i > 0 {
                    out.push(44);
                }
                write_jstr(out, &m[i].0);
                out.push(58);
                proof {
                    assert((*v) is Obj);
                    assert(decreases_to!(*v => (*v)->Obj_0));
                    assert((*v)->Obj_0 == *m);
                    assert(decreases_to!(*m => m@));
                    assert(decreases_to!(m@ => m@[i as int]));
                    assert(decreases_to!(m@[i as int] => m@[i as int].1));
                }
                write_jval(out, &m[i].1);
                proof {
                    let one = seq![ms[i as int]];
                    assert(pr_members(one) == pr_str(ms[i as int].0) + seq![58u8] + pr_val(
                        ms[i as int].1,
                    ));
                    if i == 0 {
                        assert(ms.take(1) =~= one);
                        assert(out@ =~= old(out)@ + seq![123u8] + pr_members(ms.take(i + 1)));
                    } else {
                        assert(ms.take(i + 1) =~= ms.take(i as int) + one);
                        lemma_members_append(ms.take(i as int), one);
                        assert(out@ =~= old(out)@ + seq![123u8] + pr_members(ms.take(i + 1)));
                    }
                }
                i += 1;
            }
            out.push(125);
            proof {
                assert(ms.take(n as int) =~= ms);
                assert(out@ =~= old(out)@ + pr_val(v@));
            }
        },
    }
}


/// A deep copy with the same mathematical value.
#[verifier::loop_isolation(false)]
pub fn clone_json(v: &JsonValue) -> (r: JsonValue)
    ensures
        r@ == v@,
    decreases v,
{
    match v {
        JsonValue::Null => JsonValue::Null,
        JsonValue::Bool(b) => JsonValue::Bool(*b),
        JsonValue::Num(n) => JsonValue::Num(*n),
        JsonValue::Str(s) => JsonValue::Str(crate::bytes::subvec(s, 0, s.len())),
        JsonValue::Arr(a) => {
            let n = a.len();
            let mut out: Vec<JsonValue> = Vec::new();
            let mut i: usize = 0;
            while i < n
                invariant
                    i <= n,
                    out@.len() == i,
                    forall|q: int| 0 <= q < i ==> (#[trigger] out@[q])@ == a@[q]@,
                decreases n - i,
            {
                proof {
                    assert(decreases_to!(*v => (*v)->Arr_0));
                    assert((*v)->Arr_0 == *a);
                    assert(decreases_to!(*a => a@));
                    assert(decreases_to!(a@ => a@[i as int]));
                }
                let c = clone_json(&a[i]);
                out.push(c);
                i += 1;
            }
            proof {
                lemma_jitems_index(out@);
                lemma_jitems_index(a@);
                assert(jitems_of(out@) =~= jitems_of(a@));
            }
            JsonValue::Arr(out)
        },
        JsonValue::Obj(m) => {
            let n = m.len();
            let mut out: Vec<(Vec<u8>, JsonValue)> = Vec::new();
            let mut i: usize = 0;
            while i < n
                invariant
                    i <= n,
                    out@.len() == i,
                    forall|q: int|
                        0 <= q < i ==> (#[trigger] out@[q]).0@ == m@[q].0@ && out@[q].1@
                            == m@[q].1@,
                decreases n - i,
            {
                proof {
                    assert(decreases_to!(*v => (*v)->Obj_0));
                    assert((*v)->Obj_0 == *m);
                    assert(decreases_to!(*m => m@));
                    assert(decreases_to!(m@ => m@[i as int]));
                    assert(decreases_to!(m@[i as int] => m@[i as int].1));
                }
                let key = crate::bytes::subvec(&m[i].0, 0, m[i].0.len());
                let val = clone_json(&m[i].1);
                out.push((key, val));
                i += 1;
            }
            proof {
                lemma_jmembers_index(out@);
                lemma_jmembers_index(m@);
                assert(jmembers_of(out@) =~= jmembers_of(m@));
            }
            JsonValue::Obj(out)
        },
    }
}

} // verus!
