//! Scalar and encoding checks of the curve25519 signature scheme, on 32-byte
//! little-endian numbers.
use vstd::prelude::*;
use vstd::arithmetic::power2::{lemma2_to64, lemma_pow2_unfold, pow2};
use vstd::arithmetic::div_mod::{
    lemma_add_mod_noop, lemma_mod_add_multiples_vanish, lemma_mod_sub_multiples_vanish, lemma_mul_mod_noop_left,
    lemma_small_mod, lemma_sub_mod_noop,
};

verus! {

/// `256` to the power `n`.
pub open spec fn pow256(n: nat) -> nat
    decreases n,
{
    if n == 0 {
        1
    } else {
        256 * pow256((n - 1) as nat)
    }
}

/// The number that the bytes `s` write, least significant first.
pub open spec fn le_value(s: Seq<u8>) -> nat
    decreases s.len(),
{
    if s.len() == 0 {
        0
    } else {
        le_value(s.drop_last()) + s.last() as nat * pow256((s.len() - 1) as nat)
    }
}

/// One more byte on top of a prefix adds that byte times its weight.
proof fn lemma_prefix_step(s: Seq<u8>, i: int)
    requires
        0 <= i < s.len(),
    ensures
        le_value(s.subrange(0, i + 1)) == le_value(s.subrange(0, i)) + s[i] as nat * pow256(i as nat),
{
    let t = s.subrange(0, i + 1);
    assert(t.drop_last() =~= s.subrange(0, i));
}

/// `n` bytes write a number below `256^n`.
proof fn lemma_value_bound(s: Seq<u8>)
    ensures
        le_value(s) < pow256(s.len()),
    decreases s.len(),
{
    if s.len() > 0 {
        let n = (s.len() - 1) as nat;
        lemma_value_bound(s.drop_last());
        let p = pow256(n);
        let lo = le_value(s.drop_last());
        let top = s.last() as nat;
        assert(lo + top * p < 256 * p) by (nonlinear_arith)
            requires
                lo < p,
                top <= 255,
        ;
    }
}

/// `a - b` over 32 bytes, with the borrow out of the top byte.
fn sub_bytes(a: &[u8; 32], b: &[u8; 32]) -> (r: ([u8; 32], bool))
    ensures
        le_value(a@) - le_value(b@) == le_value(r.0@) - (if r.1 { pow256(32) } else { 0 }),
{
    let mut out: [u8; 32] = [0u8; 32];
    let mut borrow: i64 = 0;
    let mut i: usize = 0;
    while i < 32
        invariant
            i <= 32,
            0 <= borrow <= 1,
            le_value(a@.subrange(0, i as int)) - le_value(b@.subrange(0, i as int))
                == le_value(out@.subrange(0, i as int)) - borrow * pow256(i as nat),
        decreases 32 - i,
    {
        let diff: i64 = a[i] as i64 - b[i] as i64 - borrow;
        let ghost before = out@;
        let next: i64;
        if diff < 0 {
            out[i] = (diff + 256) as u8;
            next = 1;
        } else {
            out[i] = diff as u8;
            next = 0;
        }
        proof {
            assert(out@.subrange(0, i as int) =~= before.subrange(0, i as int));
            lemma_prefix_step(a@, i as int);
            lemma_prefix_step(b@, i as int);
            lemma_prefix_step(out@, i as int);
            let p = pow256(i as nat);
            assert(pow256((i + 1) as nat) == 256 * p);
            let d = out@[i as int] as int;
            let x = a@[i as int] as int;
            let y = b@[i as int] as int;
            assert(x * p - y * p - borrow * p == d * p - next * (256 * p)) by (nonlinear_arith)
                requires
                    x - y - borrow == d - 256 * next,
            ;
        }
        borrow = next;
        i = i + 1;
    }
    assert(a@.subrange(0, 32) =~= a@);
    assert(b@.subrange(0, 32) =~= b@);
    assert(out@.subrange(0, 32) =~= out@);
    (out, borrow == 1)
}

/// `a + b` over 32 bytes, with the carry out of the top byte.
fn add_bytes(a: &[u8; 32], b: &[u8; 32]) -> (r: ([u8; 32], bool))
    ensures
        le_value(a@) + le_value(b@) == le_value(r.0@) + (if r.1 { pow256(32) } else { 0 }),
{
    let mut out: [u8; 32] = [0u8; 32];
    let mut carry: i64 = 0;
    let mut i: usize = 0;
    while i < 32
        invariant
            i <= 32,
            0 <= carry <= 1,
            le_value(a@.subrange(0, i as int)) + le_value(b@.subrange(0, i as int))
                == le_value(out@.subrange(0, i as int)) + carry * pow256(i as nat),
        decreases 32 - i,
    {
        let sum: i64 = a[i] as i64 + b[i] as i64 + carry;
        let ghost before = out@;
        let next: i64;
        if sum >= 256 {
            out[i] = (sum - 256) as u8;
            next = 1;
        } else {
            out[i] = sum as u8;
            next = 0;
        }
        proof {
            assert(out@.subrange(0, i as int) =~= before.subrange(0, i as int));
            lemma_prefix_step(a@, i as int);
            lemma_prefix_step(b@, i as int);
            lemma_prefix_step(out@, i as int);
            let p = pow256(i as nat);
            assert(pow256((i + 1) as nat) == 256 * p);
            let d = out@[i as int] as int;
            let x = a@[i as int] as int;
            let y = b@[i as int] as int;
            assert(x * p + y * p + carry * p == d * p + next * (256 * p)) by (nonlinear_arith)
                requires
                    x + y + carry == d + 256 * next,
            ;
        }
        carry = next;
        i = i + 1;
    }
    assert(a@.subrange(0, 32) =~= a@);
    assert(b@.subrange(0, 32) =~= b@);
    assert(out@.subrange(0, 32) =~= out@);
    (out, carry == 1)
}

/// The order of the base point's group, as 32 little-endian bytes.
pub open spec fn order_bytes() -> Seq<u8> {
    seq![
        237u8, 211, 245, 92, 26, 99, 18, 88, 214, 156, 247, 162, 222, 249, 222, 20,
        0, 0, 0, 0, 0, 0, 0, 0, 0, 0, 0, 0, 0, 0, 0, 16,
    ]
}

/// The field prime `2^255 - 19`, as 32 little-endian bytes.
pub open spec fn prime_bytes() -> Seq<u8> {
    Seq::new(32, |i: int| if i == 0 { 237u8 } else if i == 31 { 127u8 } else { 255u8 })
}

/// The order of the base point's group (see `lemma_group_order_value`).
pub open spec fn group_order() -> nat {
    le_value(order_bytes())
}

/// The field prime, `2^255 - 19` (see `lemma_field_prime_value`).
pub open spec fn field_prime() -> nat {
    le_value(prime_bytes())
}

proof fn lemma_pow256_positive(n: nat)
    ensures
        pow256(n) > 0,
    decreases n,
{
    if n > 0 {
        lemma_pow256_positive((n - 1) as nat);
    }
}

/// The group order is positive and less than half of `256^32`.
proof fn lemma_order_bounds()
    ensures
        0 < group_order(),
        2 * group_order() < pow256(32),
{
    let o = order_bytes();
    lemma_value_bound(o.drop_last());
    lemma_pow256_positive(31);
    assert(o.last() == 16u8);
    assert(o.drop_last().len() == 31);
    assert(pow256(32) == 256 * pow256(31));
}

fn order_array() -> (r: [u8; 32])
    ensures
        r@ == order_bytes(),
{
    let r: [u8; 32] = [
        237, 211, 245, 92, 26, 99, 18, 88, 214, 156, 247, 162, 222, 249, 222, 20,
        0, 0, 0, 0, 0, 0, 0, 0, 0, 0, 0, 0, 0, 0, 0, 16,
    ];
    assert(r@ =~= order_bytes());
    r
}

fn prime_array() -> (r: [u8; 32])
    ensures
        r@ == prime_bytes(),
{
    let r: [u8; 32] = [
        237, 255, 255, 255, 255, 255, 255, 255, 255, 255, 255, 255, 255, 255, 255, 255,
        255, 255, 255, 255, 255, 255, 255, 255, 255, 255, 255, 255, 255, 255, 255, 127,
    ];
    assert(r@ =~= prime_bytes());
    r
}

/// The first 32 bytes of `v`.
fn to_array(v: &[u8]) -> (r: [u8; 32])
    requires
        v@.len() == 32,
    ensures
        r@ == v@,
{
    let mut r: [u8; 32] = [0u8; 32];
    let mut i: usize = 0;
    while i < 32
        invariant
            v@.len() == 32,
            i <= 32,
            forall|k: int| 0 <= k < i ==> #[trigger] r@[k] == v@[k],
        decreases 32 - i,
    {
        r[i] = v[i];
        i = i + 1;
    }
    assert(r@ =~= v@);
    r
}

/// Whether `a` is below `b`.
fn less_than(a: &[u8; 32], b: &[u8; 32]) -> (r: bool)
    ensures
        r == (le_value(a@) < le_value(b@)),
{
    let (d, borrow) = sub_bytes(a, b);
    proof {
        lemma_value_bound(a@);
        lemma_value_bound(b@);
        lemma_value_bound(d@);
    }
    borrow
}

/// `x` modulo the group order.
fn reduce(x: &[u8; 32]) -> (r: [u8; 32])
    ensures
        le_value(r@) == le_value(x@) % group_order(),
{
    proof {
        lemma_order_bounds();
    }
    let q = order_array();
    let mut cur: [u8; 32] = *x;
    while !less_than(&cur, &q)
        invariant
            q@ == order_bytes(),
            0 < group_order(),
            le_value(cur@) % group_order() == le_value(x@) % group_order(),
        decreases le_value(cur@),
    {
        let (next, _) = sub_bytes(&cur, &q);
        proof {
            lemma_value_bound(next@);
            lemma_value_bound(cur@);
            lemma_mod_sub_multiples_vanish(le_value(cur@) as int, group_order() as int);
        }
        cur = next;
    }
    proof {
        lemma_small_mod(le_value(cur@), group_order());
    }
    cur
}

/// `(a + b)` modulo the group order, for `a` and `b` below it.
fn add_mod(a: &[u8; 32], b: &[u8; 32]) -> (r: [u8; 32])
    requires
        le_value(a@) < group_order(),
        le_value(b@) < group_order(),
    ensures
        le_value(r@) == (le_value(a@) + le_value(b@)) % group_order(),
        le_value(r@) < group_order(),
{
    proof {
        lemma_order_bounds();
    }
    let q = order_array();
    let (sum, carry) = add_bytes(a, b);
    proof {
        lemma_value_bound(sum@);
    }
    let ghost total = le_value(a@) + le_value(b@);
    assert(le_value(sum@) == total);
    if less_than(&sum, &q) {
        proof {
            lemma_small_mod(total, group_order());
        }
        sum
    } else {
        let (diff, _) = sub_bytes(&sum, &q);
        proof {
            lemma_value_bound(diff@);
            lemma_mod_sub_multiples_vanish(total as int, group_order() as int);
            lemma_small_mod((total - group_order()) as nat, group_order());
        }
        diff
    }
}

/// `(a * le_value(s))` modulo the group order, for `a` below it.
fn mul_mod(a: &[u8; 32], s: &[u8; 32]) -> (r: [u8; 32])
    requires
        le_value(a@) < group_order(),
    ensures
        le_value(r@) == (le_value(a@) * le_value(s@)) % group_order(),
        le_value(r@) < group_order(),
{
    proof {
        lemma_order_bounds();
    }
    let ghost q = group_order() as int;
    let ghost av = le_value(a@) as int;
    let mut acc: [u8; 32] = [0u8; 32];
    let mut step: [u8; 32] = *a;
    proof {
        assert(le_value(acc@) == 0) by {
            lemma_all_zero_value(acc@);
        }
        assert(s@.subrange(0, 0) =~= Seq::<u8>::empty());
        assert(le_value(s@.subrange(0, 0)) == 0);
        assert(av * 0 == 0);
        assert(pow256(0) == 1);
        assert(av * pow256(0) == av);
        lemma_small_mod(le_value(a@), group_order());
        lemma_small_mod(0, group_order());
    }
    let mut k: usize = 0;
    while k < 32
        invariant
            k <= 32,
            0 < q,
            q == group_order(),
            av == le_value(a@),
            le_value(acc@) == (av * le_value(s@.subrange(0, k as int))) % q,
            le_value(step@) == (av * pow256(k as nat)) % q,
            le_value(acc@) < q,
            le_value(step@) < q,
        decreases 32 - k,
    {
        let ghost base = av * le_value(s@.subrange(0, k as int));
        let ghost unit = av * pow256(k as nat);
        let digit = s[k];
        let mut m: u8 = 0;
        while m < digit
            invariant
                0 < q,
                q == group_order(),
                m <= digit,
                le_value(acc@) == (base + m * unit) % q,
                le_value(step@) == unit % q,
                le_value(acc@) < q,
                le_value(step@) < q,
            decreases digit - m,
        {
            acc = add_mod(&acc, &step);
            proof {
                lemma_add_mod_noop(base + m * unit, unit, q);
                assert(base + m * unit + unit == base + (m + 1) * unit) by (nonlinear_arith);
            }
            m = m + 1;
        }
        proof {
            lemma_prefix_step(s@, k as int);
            assert(base + digit * unit == av * le_value(s@.subrange(0, k + 1))) by (nonlinear_arith)
                requires
                    base == av * le_value(s@.subrange(0, k as int)),
                    unit == av * pow256(k as nat),
                    le_value(s@.subrange(0, k + 1)) == le_value(s@.subrange(0, k as int)) + s@[k as int] as nat
                        * pow256(k as nat),
                    digit == s@[k as int],
            ;
        }
        proof {
            lemma2_to64();
            assert(unit * pow2(0) == unit);
        }
        let mut j: usize = 0;
        while j < 8
            invariant
                0 < q,
                q == group_order(),
                j <= 8,
                le_value(step@) == (unit * pow2(j as nat)) % q,
                le_value(step@) < q,
            decreases 8 - j,
        {
            let ghost before = unit * pow2(j as nat);
            step = add_mod(&step, &step);
            proof {
                lemma_add_mod_noop(before, before, q);
                lemma_pow2_unfold((j + 1) as nat);
                assert(before + before == unit * pow2((j + 1) as nat))
                    by (nonlinear_arith)
                    requires
                        before == unit * pow2(j as nat),
                        pow2((j + 1) as nat) == 2 * pow2(j as nat),
                ;
            }
            j = j + 1;
        }
        proof {
            lemma2_to64();
            assert(pow256((k + 1) as nat) == 256 * pow256(k as nat));
            assert(unit * 256 == av * pow256((k + 1) as nat)) by (nonlinear_arith)
                requires
                    unit == av * pow256(k as nat),
                    pow256((k + 1) as nat) == 256 * pow256(k as nat),
            ;
        }
        k = k + 1;
    }
    assert(s@.subrange(0, 32) =~= s@);
    acc
}

/// Bytes that are all zero write zero.
proof fn lemma_all_zero_value(s: Seq<u8>)
    requires
        forall|i: int| 0 <= i < s.len() ==> s[i] == 0,
    ensures
        le_value(s) == 0,
    decreases s.len(),
{
    if s.len() > 0 {
        lemma_all_zero_value(s.drop_last());
    }
}

/// Whether the signature value `v` (32 bytes) is canonical: below the group order.
#[allow(non_snake_case)]
pub fn IsCanonicalSignature(v: &[u8]) -> (r: bool)
    requires
        v@.len() == 32,
    ensures
        r == (le_value(v@) < group_order()),
{
    let value = to_array(v);
    let q = order_array();
    less_than(&value, &q)
}

/// Whether `public_key` (32 bytes) is the canonical encoding of a field
/// element: below the field prime `2^255 - 19`.
#[allow(non_snake_case)]
pub fn IsCanonicalPublicKey(public_key: &[u8]) -> (r: bool)
    requires
        public_key@.len() == 32,
    ensures
        r == (le_value(public_key@) < field_prime()),
{
    let value = to_array(public_key);
    let p = prime_array();
    less_than(&value, &p)
}

/// `(x - h)` modulo the group order.
fn sub_mod(x: &[u8; 32], h: &[u8; 32]) -> (r: [u8; 32])
    requires
        le_value(x@) < group_order(),
        le_value(h@) < group_order(),
    ensures
        le_value(r@) == (le_value(x@) - le_value(h@)) % (group_order() as int),
        le_value(r@) < group_order(),
{
    proof {
        lemma_order_bounds();
    }
    let ghost q = group_order() as int;
    let ghost diff = le_value(x@) - le_value(h@);
    let (t, borrow) = sub_bytes(x, h);
    proof {
        lemma_value_bound(t@);
    }
    if borrow {
        let order = order_array();
        let (d, carry) = add_bytes(&t, &order);
        proof {
            lemma_value_bound(d@);
            lemma_mod_add_multiples_vanish(diff, q);
            lemma_small_mod((q + diff) as nat, q as nat);
        }
        d
    } else {
        proof {
            lemma_small_mod(diff as nat, q as nat);
        }
        t
    }
}

/// The signature value of the scheme: writes `v = (x - h) * s` modulo the
/// group order, where `h` is the message digest, `x` the one-time private
/// value and `s` the signing key, all 32 little-endian bytes. Returns whether
/// `v` is non-zero, that is whether the signature can be used.
#[allow(non_snake_case)]
pub fn Sign(v: &mut [u8], h: &[u8], x: &[u8], s: &[u8]) -> (r: bool)
    requires
        old(v)@.len() == 32,
        h@.len() == 32,
        x@.len() == 32,
        s@.len() == 32,
    ensures
        final(v)@.len() == 32,
        le_value(final(v)@) == ((le_value(x@) - le_value(h@)) * le_value(s@)) % (group_order() as int),
        r == (le_value(final(v)@) != 0),
{
    proof {
        lemma_order_bounds();
    }
    let ghost q = group_order() as int;
    let x1 = reduce(&to_array(x));
    let h1 = reduce(&to_array(h));
    let d = sub_mod(&x1, &h1);
    let key = to_array(s);
    let res = mul_mod(&d, &key);
    proof {
        lemma_sub_mod_noop(le_value(x@) as int, le_value(h@) as int, q);
        lemma_mul_mod_noop_left(le_value(x@) - le_value(h@), le_value(s@) as int, q);
    }
    let mut i: usize = 0;
    while i < 32
        invariant
            v@.len() == 32,
            i <= 32,
            forall|k: int| 0 <= k < i ==> #[trigger] v@[k] == res@[k],
        decreases 32 - i,
    {
        v[i] = res[i];
        i = i + 1;
    }
    assert(v@ =~= res@);
    let zero: [u8; 32] = [0u8; 32];
    proof {
        lemma_all_zero_value(zero@);
    }
    less_than(&zero, &res)
}

/// The low `k` bytes of the field prime write `256^k - 19`.
proof fn lemma_prime_prefix(k: nat)
    requires
        1 <= k <= 31,
    ensures
        le_value(prime_bytes().subrange(0, k as int)) == pow256(k) - 19,
    decreases k,
{
    let p = prime_bytes();
    lemma_prefix_step(p, k - 1);
    if k == 1 {
        assert(p.subrange(0, 0) =~= Seq::<u8>::empty());
        assert(pow256(1) == 256 * pow256(0));
    } else {
        lemma_prime_prefix((k - 1) as nat);
    }
}

/// The field prime is `2^255 - 19`.
pub proof fn lemma_field_prime_value()
    ensures
        field_prime() == pow2(255) - 19,
{
    let p = prime_bytes();
    lemma_prime_prefix(31);
    lemma_prefix_step(p, 31);
    assert(p.subrange(0, 32) =~= p);
    lemma_pow256_is_pow2(31);
    vstd::arithmetic::power2::lemma_pow2_adds(248, 7);
    lemma2_to64();
}

/// `256^n` is `2^(8n)`.
proof fn lemma_pow256_is_pow2(n: nat)
    ensures
        pow256(n) == pow2(8 * n),
    decreases n,
{
    if n == 0 {
        lemma2_to64();
    } else {
        lemma_pow256_is_pow2((n - 1) as nat);
        vstd::arithmetic::power2::lemma_pow2_adds(8 * (n - 1) as nat, 8);
        lemma2_to64();
    }
}

/// The group order is `2^252 + 27742317777372353535851937790883648493`.
pub proof fn lemma_group_order_value()
    ensures
        group_order() == pow2(252) + 27742317777372353535851937790883648493,
{
    let o = order_bytes();
    assert(o.subrange(0, 0) =~= Seq::<u8>::empty());
    assert(o.subrange(0, 32) =~= o);
    assert(pow256(0) == 1);
    assert(pow256(1) == 256 * pow256(0));
    assert(pow256(2) == 256 * pow256(1));
    assert(pow256(3) == 256 * pow256(2));
    assert(pow256(4) == 256 * pow256(3));
    assert(pow256(5) == 256 * pow256(4));
    assert(pow256(6) == 256 * pow256(5));
    assert(pow256(7) == 256 * pow256(6));
    assert(pow256(8) == 256 * pow256(7));
    assert(pow256(9) == 256 * pow256(8));
    assert(pow256(10) == 256 * pow256(9));
    assert(pow256(11) == 256 * pow256(10));
    assert(pow256(12) == 256 * pow256(11));
    assert(pow256(13) == 256 * pow256(12));
    assert(pow256(14) == 256 * pow256(13));
    assert(pow256(15) == 256 * pow256(14));
    assert(pow256(16) == 256 * pow256(15));
    assert(pow256(17) == 256 * pow256(16));
    assert(pow256(18) == 256 * pow256(17));
    assert(pow256(19) == 256 * pow256(18));
    assert(pow256(20) == 256 * pow256(19));
    assert(pow256(21) == 256 * pow256(20));
    assert(pow256(22) == 256 * pow256(21));
    assert(pow256(23) == 256 * pow256(22));
    assert(pow256(24) == 256 * pow256(23));
    assert(pow256(25) == 256 * pow256(24));
    assert(pow256(26) == 256 * pow256(25));
    assert(pow256(27) == 256 * pow256(26));
    assert(pow256(28) == 256 * pow256(27));
    assert(pow256(29) == 256 * pow256(28));
    assert(pow256(30) == 256 * pow256(29));
    assert(pow256(31) == 256 * pow256(30));
    lemma_prefix_step(o, 0);
    lemma_prefix_step(o, 1);
    lemma_prefix_step(o, 2);
    lemma_prefix_step(o, 3);
    lemma_prefix_step(o, 4);
    lemma_prefix_step(o, 5);
    lemma_prefix_step(o, 6);
    lemma_prefix_step(o, 7);
    lemma_prefix_step(o, 8);
    lemma_prefix_step(o, 9);
    lemma_prefix_step(o, 10);
    lemma_prefix_step(o, 11);
    lemma_prefix_step(o, 12);
    lemma_prefix_step(o, 13);
    lemma_prefix_step(o, 14);
    lemma_prefix_step(o, 15);
    lemma_prefix_step(o, 16);
    lemma_prefix_step(o, 17);
    lemma_prefix_step(o, 18);
    lemma_prefix_step(o, 19);
    lemma_prefix_step(o, 20);
    lemma_prefix_step(o, 21);
    lemma_prefix_step(o, 22);
    lemma_prefix_step(o, 23);
    lemma_prefix_step(o, 24);
    lemma_prefix_step(o, 25);
    lemma_prefix_step(o, 26);
    lemma_prefix_step(o, 27);
    lemma_prefix_step(o, 28);
    lemma_prefix_step(o, 29);
    lemma_prefix_step(o, 30);
    lemma_prefix_step(o, 31);
    lemma_pow256_is_pow2(31);
    vstd::arithmetic::power2::lemma_pow2_adds(248, 4);
    lemma2_to64();
}

} // verus!
