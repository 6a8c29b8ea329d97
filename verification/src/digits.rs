//! Base-16 digit sequences and their numeric value: the arithmetic core that
//! both token encodings are built on, with the round-trip and canonical-form
//! lemmas.

use vstd::prelude::*;

verus! {

/// Sixteen to the power `k`.
pub open spec fn pow16(k: nat) -> nat
    decreases k,
{
    if k == 0 {
        1
    } else {
        16 * pow16((k - 1) as nat)
    }
}

/// The canonical base-16 digits of `n`, most significant first: no leading
/// zero, except that zero itself is the single digit 0.
pub open spec fn base_digits(n: nat) -> Seq<nat>
    decreases n,
{
    if n < 16 {
        seq![n]
    } else {
        base_digits(n / 16).push(n % 16)
    }
}

/// The base-16 digits of `n`, most significant first, padded to exactly `k`
/// digits (truncating high digits if `n` does not fit).
pub open spec fn fixed_digits(n: nat, k: nat) -> Seq<nat>
    decreases k,
{
    if k == 0 {
        Seq::empty()
    } else {
        fixed_digits(n / 16, (k - 1) as nat).push(n % 16)
    }
}

/// The numeric value of a most-significant-first digit sequence.
pub open spec fn fold_digits(ds: Seq<nat>) -> nat
    decreases ds.len(),
{
    if ds.len() == 0 {
        0
    } else {
        fold_digits(ds.drop_last()) * 16 + ds.last()
    }
}

/// Every digit that `base_digits` produces is below 16.
pub proof fn lemma_base_digits_in_range(n: nat)
    ensures
        base_digits(n).len() >= 1,
        forall|i: int| 0 <= i < base_digits(n).len() ==> base_digits(n)[i] < 16,
    decreases n,
{
    if n >= 16 {
        lemma_base_digits_in_range(n / 16);
    }
}

/// A multi-digit canonical sequence never starts with 0.
pub proof fn lemma_base_digits_no_leading_zero(n: nat)
    ensures
        base_digits(n).len() > 1 ==> base_digits(n)[0] != 0,
    decreases n,
{
    if n >= 16 {
        lemma_base_digits_no_leading_zero(n / 16);
        if n / 16 < 16 {
            assert(base_digits(n / 16) =~= seq![n / 16]);
            assert(n / 16 >= 1) by (nonlinear_arith)
                requires
                    n >= 16,
            ;
        } else {
            lemma_base_digits_in_range(n / 16 / 16);
            assert(base_digits(n / 16).len() > 1);
        }
        assert(base_digits(n)[0] == base_digits(n / 16)[0]);
    }
}

/// Folding the canonical digits of `n` gives `n` back.
pub proof fn lemma_fold_base_digits(n: nat)
    ensures
        fold_digits(base_digits(n)) == n,
    decreases n,
{
    if n < 16 {
        assert(base_digits(n) =~= seq![n]);
        assert(base_digits(n).drop_last() =~= Seq::<nat>::empty());
        assert(fold_digits(Seq::<nat>::empty()) == 0);
    } else {
        lemma_fold_base_digits(n / 16);
        assert(base_digits(n).drop_last() =~= base_digits(n / 16));
        assert(fold_digits(base_digits(n)) == (n / 16) * 16 + n % 16);
        assert(n == 16 * (n / 16) + n % 16) by (nonlinear_arith);
    }
}

/// A digit sequence whose first digit is non-zero folds to a non-zero value.
pub proof fn lemma_fold_positive(ds: Seq<nat>)
    requires
        ds.len() >= 1,
        ds[0] != 0,
    ensures
        fold_digits(ds) >= 1,
    decreases ds.len(),
{
    if ds.len() == 1 {
        assert(ds.drop_last() =~= Seq::<nat>::empty());
    } else {
        lemma_fold_positive(ds.drop_last());
    }
}

/// The value of a digit sequence is below 16 to the power of its length.
pub proof fn lemma_fold_bound(ds: Seq<nat>)
    requires
        forall|i: int| 0 <= i < ds.len() ==> ds[i] < 16,
    ensures
        fold_digits(ds) < pow16(ds.len()),
    decreases ds.len(),
{
    if ds.len() > 0 {
        lemma_fold_bound(ds.drop_last());
        assert(fold_digits(ds.drop_last()) <= pow16((ds.len() - 1) as nat) - 1);
        assert(pow16(ds.len()) == 16 * pow16((ds.len() - 1) as nat));
    }
}

/// Taking the canonical digits of a folded sequence gives the sequence back,
/// provided it is in canonical form: non-empty, digits below 16, and no
/// leading zero unless it is the single digit 0.
pub proof fn lemma_base_digits_fold(ds: Seq<nat>)
    requires
        ds.len() >= 1,
        forall|i: int| 0 <= i < ds.len() ==> ds[i] < 16,
        ds.len() == 1 || ds[0] != 0,
    ensures
        base_digits(fold_digits(ds)) == ds,
    decreases ds.len(),
{
    if ds.len() == 1 {
        assert(ds.drop_last() =~= Seq::<nat>::empty());
        assert(fold_digits(Seq::<nat>::empty()) == 0);
        assert(fold_digits(ds) == ds[0]);
        assert(base_digits(fold_digits(ds)) =~= ds);
    } else {
        let head = ds.drop_last();
        let m = fold_digits(head);
        lemma_fold_positive(head);
        let v = fold_digits(ds);
        assert(v == m * 16 + ds.last());
        assert(v >= 16);
        assert(v / 16 == m && v % 16 == ds.last()) by (nonlinear_arith)
            requires
                v == m * 16 + ds.last(),
                0 <= ds.last() < 16,
        ;
        lemma_base_digits_fold(head);
        assert(base_digits(v) =~= base_digits(m).push(v % 16));
        assert(base_digits(v) =~= ds);
    }
}

/// Folding the fixed-width digits of `n` gives `n` back when `n` fits.
pub proof fn lemma_fold_fixed_digits(n: nat, k: nat)
    requires
        n < pow16(k),
    ensures
        fixed_digits(n, k).len() == k,
        forall|i: int| 0 <= i < k ==> fixed_digits(n, k)[i] < 16,
        fold_digits(fixed_digits(n, k)) == n,
    decreases k,
{
    if k == 0 {
        assert(fixed_digits(n, 0) =~= Seq::<nat>::empty());
    } else {
        assert(pow16(k) == 16 * pow16((k - 1) as nat));
        assert(n / 16 < pow16((k - 1) as nat)) by (nonlinear_arith)
            requires
                n < 16 * pow16((k - 1) as nat),
        ;
        lemma_fold_fixed_digits(n / 16, (k - 1) as nat);
        assert(fixed_digits(n, k).drop_last() =~= fixed_digits(n / 16, (k - 1) as nat));
        assert(fold_digits(fixed_digits(n, k)) == (n / 16) * 16 + n % 16);
    }
}

/// Taking fixed-width digits of a folded sequence gives the sequence back.
pub proof fn lemma_fixed_digits_fold(ds: Seq<nat>)
    requires
        forall|i: int| 0 <= i < ds.len() ==> ds[i] < 16,
    ensures
        fixed_digits(fold_digits(ds), ds.len()) == ds,
    decreases ds.len(),
{
    if ds.len() == 0 {
        assert(fixed_digits(fold_digits(ds), 0) =~= ds);
    } else {
        let head = ds.drop_last();
        let m = fold_digits(head);
        let v = fold_digits(ds);
        assert(v == m * 16 + ds.last());
        assert(v / 16 == m && v % 16 == ds.last()) by (nonlinear_arith)
            requires
                v == m * 16 + ds.last(),
                0 <= ds.last() < 16,
        ;
        lemma_fixed_digits_fold(head);
        assert(fixed_digits(v, ds.len()).drop_last() =~= fixed_digits(m, head.len()));
        assert(fixed_digits(v, ds.len()) =~= ds);
    }
}

/// The canonical digits of a value below `pow16(k)` number at most `k`.
pub proof fn lemma_base_digits_len(n: nat, k: nat)
    requires
        k >= 1,
        n < pow16(k),
    ensures
        base_digits(n).len() <= k,
    decreases k,
{
    if n >= 16 {
        assert(pow16(k) == 16 * pow16((k - 1) as nat));
        assert(n / 16 < pow16((k - 1) as nat)) by (nonlinear_arith)
            requires
                n < 16 * pow16((k - 1) as nat),
        ;
        assert(pow16((k - 1) as nat) > 1);
        lemma_base_digits_len(n / 16, (k - 1) as nat);
    }
}

/// Sixteen to the sixteenth is exactly one beyond the largest 64-bit value.
pub proof fn lemma_pow16_u64()
    ensures
        pow16(16) == 0x1_0000_0000_0000_0000,
{
    reveal_with_fuel(pow16, 17);
}

/// `pow16` grows monotonically.
pub proof fn lemma_pow16_increases(a: nat, b: nat)
    requires
        a <= b,
    ensures
        pow16(a) <= pow16(b),
    decreases b,
{
    if a < b {
        lemma_pow16_increases(a, (b - 1) as nat);
        assert(pow16(b) == 16 * pow16((b - 1) as nat));
        assert(pow16((b - 1) as nat) >= 1) by {
            lemma_pow16_positive((b - 1) as nat);
        }
    }
}

/// `pow16` is always positive.
pub proof fn lemma_pow16_positive(k: nat)
    ensures
        pow16(k) >= 1,
    decreases k,
{
    if k > 0 {
        lemma_pow16_positive((k - 1) as nat);
    }
}

} // verus!
