//! Decimal digit fields of the wire format: specification, canonicity
//! lemmas, and the verified scanner and printer the codec builds on.

use vstd::prelude::*;
use crate::frame::dec_digits;

verus! {

/// Every byte of `b` is an ASCII decimal digit.
pub open spec fn all_digits(b: Seq<u8>) -> bool {
    forall|i: int| 0 <= i < b.len() ==> 48 <= #[trigger] b[i] <= 57
}

/// `b` is the canonical decimal spelling of some number: non-empty digits
/// with no leading zero (except the single digit `0` itself).
pub open spec fn canonical_digits(b: Seq<u8>) -> bool {
    all_digits(b) && b.len() > 0 && (b.len() > 1 ==> b[0] != 48)
}

/// Numeric value of a digit string, most significant digit first.
pub open spec fn digits_val(b: Seq<u8>) -> nat
    decreases b.len(),
{
    if b.len() == 0 {
        0
    } else {
        digits_val(b.drop_last()) * 10 + (b.last() - 48) as nat
    }
}

/// Powers of ten.
pub open spec fn ten_pow(k: nat) -> nat
    decreases k,
{
    if k == 0 {
        1
    } else {
        10 * ten_pow((k - 1) as nat)
    }
}

/// The digits printed for `n` are canonical and spell `n`.
pub proof fn lemma_dec_digits_canonical(n: nat)
    ensures
        canonical_digits(dec_digits(n)),
        digits_val(dec_digits(n)) == n,
    decreases n,
{
    if n < 10 {
        let b = dec_digits(n);
        assert(b =~= seq![(48 + n) as u8]);
        assert(b.drop_last() =~= Seq::<u8>::empty());
        assert(digits_val(Seq::<u8>::empty()) == 0);
    } else {
        lemma_dec_digits_canonical(n / 10);
        let d = dec_digits(n / 10);
        let whole = dec_digits(n);
        assert(whole == d.push((48 + n % 10) as u8));
        assert(whole.drop_last() =~= d);
        assert(n / 10 >= 1 && n % 10 < 10 && (n / 10) * 10 + n % 10 == n) by (nonlinear_arith)
            requires
                n >= 10,
        ;
        assert(whole[0] == d[0]);
        if d.len() == 1 {
            assert(d.drop_last() =~= Seq::<u8>::empty());
            assert(digits_val(Seq::<u8>::empty()) == 0);
            assert(digits_val(d) == (d[0] - 48) as nat);
        }
        assert(forall|i: int| 0 <= i < whole.len() - 1 ==> whole[i] == d[i]);
    }
}

/// A digit string whose first digit is not zero has a positive value.
pub proof fn lemma_digits_val_pos(b: Seq<u8>)
    requires
        all_digits(b),
        b.len() >= 1,
        b[0] != 48,
    ensures
        digits_val(b) >= 1,
    decreases b.len(),
{
    if b.len() == 1 {
        assert(digits_val(b.drop_last()) == 0);
    } else {
        lemma_digits_val_pos(b.drop_last());
    }
}

/// Printing the value of a canonical digit string gives back the string:
/// the canonical spelling is unique.
pub proof fn lemma_canonical_digits_inverse(b: Seq<u8>)
    requires
        canonical_digits(b),
    ensures
        dec_digits(digits_val(b)) == b,
    decreases b.len(),
{
    if b.len() == 1 {
        let v = digits_val(b);
        assert(digits_val(b.drop_last()) == 0);
        assert(v == (b[0] - 48) as nat);
        assert(dec_digits(v) =~= b);
    } else {
        let b2 = b.drop_last();
        assert(b2[0] == b[0]);
        assert(forall|i: int| 0 <= i < b2.len() ==> b2[i] == b[i]);
        lemma_canonical_digits_inverse(b2);
        lemma_digits_val_pos(b2);
        let hi = digits_val(b2);
        let d = (b.last() - 48) as nat;
        let v = digits_val(b);
        assert(v == hi * 10 + d);
        assert(v >= 10 && v / 10 == hi && v % 10 == d) by (nonlinear_arith)
            requires
                v == hi * 10 + d,
                hi >= 1,
                d < 10,
        ;
        assert(dec_digits(v) == dec_digits(hi).push((48 + d) as u8));
        assert(dec_digits(v) =~= b);
    }
}

/// Lower bound: a digit string with a non-zero first digit is at least
/// ten to its length less one.
pub proof fn lemma_digits_val_lower(b: Seq<u8>)
    requires
        all_digits(b),
        b.len() >= 1,
        b[0] != 48,
    ensures
        digits_val(b) >= ten_pow((b.len() - 1) as nat),
    decreases b.len(),
{
    if b.len() == 1 {
        assert(digits_val(b.drop_last()) == 0);
    } else {
        let b2 = b.drop_last();
        assert(b2[0] == b[0]);
        assert(forall|i: int| 0 <= i < b2.len() ==> b2[i] == b[i]);
        lemma_digits_val_lower(b2);
        let p = ten_pow((b2.len() - 1) as nat);
        assert(digits_val(b2) >= p ==> digits_val(b2) * 10 >= p * 10) by (nonlinear_arith);
    }
}

/// Upper bound: a digit string is below ten to its length.
pub proof fn lemma_digits_val_upper(b: Seq<u8>)
    requires
        all_digits(b),
    ensures
        digits_val(b) < ten_pow(b.len()),
    decreases b.len(),
{
    if b.len() == 0 {
    } else {
        let b2 = b.drop_last();
        assert(forall|i: int| 0 <= i < b2.len() ==> b2[i] == b[i]);
        lemma_digits_val_upper(b2);
        let p = ten_pow(b2.len());
        assert(digits_val(b2) < p ==> digits_val(b2) * 10 + 9 < p * 10) by (nonlinear_arith);
    }
}

/// Ten-to-the is monotone.
pub proof fn lemma_ten_pow_mono(i: nat, j: nat)
    requires
        i <= j,
    ensures
        ten_pow(i) <= ten_pow(j),
    decreases j,
{
    if i < j {
        lemma_ten_pow_mono(i, (j - 1) as nat);
        assert(ten_pow(j) == 10 * ten_pow((j - 1) as nat));
    }
}

/// Concrete value of ten to the nineteenth, the smallest power of ten
/// beyond every bound the codec uses.
pub proof fn lemma_ten_pow_19()
    ensures
        ten_pow(19) == 10000000000000000000,
{
    reveal_with_fuel(ten_pow, 21);
}

/// Scans `buf[s..e]` as a canonical decimal number no greater than `bound`.
/// Returns the value, or `None` when the range is not canonical digits or
/// its value exceeds `bound`.
pub fn scan_uint(buf: &[u8], s: usize, e: usize, bound: u64) -> (r: Option<u64>)
    requires
        s <= e <= buf@.len(),
        bound <= 9223372036854775808,
    ensures
        match r {
            Some(v) => canonical_digits(buf@.subrange(s as int, e as int)) && digits_val(
                buf@.subrange(s as int, e as int),
            ) == v && v <= bound,
            None => !(canonical_digits(buf@.subrange(s as int, e as int)) && digits_val(
                buf@.subrange(s as int, e as int),
            ) <= bound),
        },
{
    let ghost b = buf@.subrange(s as int, e as int);
    if e == s {
        return None;
    }
    if e - s > 1 && buf[s] == 48 {
        return None;
    }
    if e - s > 19 {
        proof {
            if canonical_digits(b) {
                lemma_digits_val_lower(b);
                lemma_ten_pow_mono(19, (b.len() - 1) as nat);
                lemma_ten_pow_19();
            }
        }
        return None;
    }
    let mut v: u64 = 0;
    let mut i: usize = s;
    while i < e
        invariant
            s <= i <= e <= buf@.len(),
            e - s <= 19,
            b == buf@.subrange(s as int, e as int),
            all_digits(buf@.subrange(s as int, i as int)),
            v == digits_val(buf@.subrange(s as int, i as int)),
            v < ten_pow((i - s) as nat),
        decreases e - i,
    {
        let c = buf[i];
        if c < 48 || c > 57 {
            proof {
                assert(b[i - s] == buf@[i as int]);
            }
            return None;
        }
        proof {
            let pre = buf@.subrange(s as int, i as int);
            lemma_digits_val_upper(pre);
            lemma_ten_pow_mono((i - s) as nat, 18);
            lemma_ten_pow_19();
            assert(ten_pow(18) == 1000000000000000000) by {
                reveal_with_fuel(ten_pow, 21);
            }
            assert(v < 1000000000000000000 ==> v * 10 + 9 < 10000000000000000000) by (
            nonlinear_arith);
        }
        let d = c - 48;
        let ghost old_v = v;
        v = v * 10 + (d as u64);
        i = i + 1;
        proof {
            let pre = buf@.subrange(s as int, (i - 1) as int);
            let cur = buf@.subrange(s as int, i as int);
            assert(cur.drop_last() =~= pre);
            assert(cur.last() == c);
            assert(ten_pow((i - s) as nat) == 10 * ten_pow((i - 1 - s) as nat));
            assert(old_v < ten_pow((i - 1 - s) as nat) ==> old_v * 10 + (d as nat) < 10 * ten_pow(
                (i - 1 - s) as nat,
            )) by (nonlinear_arith)
                requires
                    d <= 9,
            ;
        }
    }
    proof {
        assert(buf@.subrange(s as int, e as int) == b);
    }
    if v <= bound {
        Some(v)
    } else {
        None
    }
}

/// Seq reversal distributes over push as prepending.
proof fn lemma_reverse_push(s: Seq<u8>, x: u8)
    ensures
        s.push(x).reverse() =~= seq![x] + s.reverse(),
{
}

/// Appends the canonical decimal spelling of `n` to `out`.
pub fn push_digits(out: &mut Vec<u8>, n: u64)
    ensures
        final(out)@ == old(out)@ + dec_digits(n as nat),
{
    let ghost base = out@;
    if n == 0 {
        out.push(48);
        proof {
            assert(dec_digits(0) =~= seq![48u8]);
            assert(out@ =~= base + dec_digits(0));
        }
        return ;
    }
    let mut acc: Vec<u8> = Vec::new();
    let mut x: u64 = n;
    while x > 0
        invariant
            x > 0 ==> dec_digits(n as nat) == dec_digits(x as nat) + acc@.reverse(),
            x == 0 ==> dec_digits(n as nat) == acc@.reverse(),
        decreases x,
    {
        let d = (x % 10) as u8;
        let ghost old_acc = acc@;
        let ghost old_x = x;
        acc.push(48 + d);
        x = x / 10;
        proof {
            lemma_reverse_push(old_acc, (48 + d) as u8);
            if old_x >= 10 {
                assert(dec_digits(old_x as nat) == dec_digits((old_x as nat) / 10).push(
                    (48 + (old_x as nat) % 10) as u8,
                ));
                assert((old_x as nat) / 10 == x as nat && (old_x as nat) % 10 == d as nat);
                assert(x > 0);
                assert(dec_digits(x as nat).push((48 + d) as u8) =~= dec_digits(x as nat) + seq![
                    (48 + d) as u8,
                ]);
                assert(dec_digits(n as nat) =~= dec_digits(x as nat) + acc@.reverse());
            } else {
                assert(x == 0);
                assert(dec_digits(old_x as nat) =~= seq![(48 + d) as u8]);
                assert(dec_digits(n as nat) =~= acc@.reverse());
            }
        }
    }
    let mut i: usize = acc.len();
    while i > 0
        invariant
            i <= acc.len(),
            dec_digits(n as nat) == acc@.reverse(),
            out@ == base + acc@.reverse().take(acc.len() - i),
        decreases i,
    {
        i = i - 1;
        out.push(acc[i]);
        proof {
            let r = acc@.reverse();
            assert(r[acc@.len() - 1 - i] == acc@[i as int]);
            assert(out@ =~= base + r.take(acc.len() - i));
        }
    }
    proof {
        assert(acc@.reverse().take(acc.len() as int) =~= acc@.reverse());
    }
}

} // verus!
