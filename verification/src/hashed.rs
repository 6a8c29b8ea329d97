//! The salted token encoding: the identifier is masked with a configured
//! salt, then written as exactly sixteen base-16 digits, most significant
//! first, in a scrambled symbol alphabet. Same identifier space, different
//! looks: fixed width and no words.

use vstd::prelude::*;
use crate::digits::{
    fixed_digits, fold_digits, pow16, lemma_fold_fixed_digits, lemma_fixed_digits_fold,
    lemma_pow16_u64, lemma_pow16_increases,
};

verus! {

/// The symbol for one base-16 digit value.
pub open spec fn sym(d: nat) -> char {
    if d == 0 { 'k' }
    else if d == 1 { 'g' }
    else if d == 2 { 'x' }
    else if d == 3 { 'q' }
    else if d == 4 { 'w' }
    else if d == 5 { 'm' }
    else if d == 6 { 'z' }
    else if d == 7 { 'c' }
    else if d == 8 { 'p' }
    else if d == 9 { 'v' }
    else if d == 10 { 'r' }
    else if d == 11 { 't' }
    else if d == 12 { 'n' }
    else if d == 13 { 'd' }
    else if d == 14 { 'j' }
    else { 'h' }
}

/// The digit value a symbol stands for, if any.
pub open spec fn spec_sym_digit(c: char) -> Option<u64> {
    if c == 'k' { Some(0u64) }
    else if c == 'g' { Some(1u64) }
    else if c == 'x' { Some(2u64) }
    else if c == 'q' { Some(3u64) }
    else if c == 'w' { Some(4u64) }
    else if c == 'm' { Some(5u64) }
    else if c == 'z' { Some(6u64) }
    else if c == 'c' { Some(7u64) }
    else if c == 'p' { Some(8u64) }
    else if c == 'v' { Some(9u64) }
    else if c == 'r' { Some(10u64) }
    else if c == 't' { Some(11u64) }
    else if c == 'n' { Some(12u64) }
    else if c == 'd' { Some(13u64) }
    else if c == 'j' { Some(14u64) }
    else if c == 'h' { Some(15u64) }
    else { None }
}

/// The symbol text of a digit sequence.
pub open spec fn sym_chars(ds: Seq<nat>) -> Seq<char> {
    Seq::new(ds.len(), |i: int| sym(ds[i]))
}

/// The salted token of an identifier: the masked value in sixteen symbols.
pub open spec fn hashed_token(id: u64, salt: u64) -> Seq<char> {
    sym_chars(fixed_digits((id ^ salt) as nat, 16))
}

/// No two identifiers share a salted token under one salt.
pub proof fn lemma_hashed_token_injective(a: u64, b: u64, salt: u64)
    requires
        hashed_token(a, salt) == hashed_token(b, salt),
    ensures
        a == b,
{
    let ya = a ^ salt;
    let yb = b ^ salt;
    lemma_pow16_u64();
    lemma_fold_fixed_digits(ya as nat, 16);
    lemma_fold_fixed_digits(yb as nat, 16);
    let fa = fixed_digits(ya as nat, 16);
    let fb = fixed_digits(yb as nat, 16);
    let t = hashed_token(a, salt);
    assert forall|j: int| 0 <= j < 16 implies fa[j] == fb[j] by {
        assert(sym(fa[j]) == t[j]);
        assert(sym(fb[j]) == t[j]);
        assert(spec_sym_digit(sym(fa[j])) == Some(fa[j] as u64));
        assert(spec_sym_digit(sym(fb[j])) == Some(fb[j] as u64));
    }
    assert(fa =~= fb);
    assert(ya == yb);
    assert(ya == yb ==> a == b) by (bit_vector)
        requires
            ya == a ^ salt && yb == b ^ salt,
    ;
}

/// The symbol for one base-16 digit.
fn sym_str(d: u64) -> (r: &'static str)
    requires
        d < 16,
    ensures
        r@ =~= seq![sym(d as nat)],
{
    proof {
        reveal_strlit("k");
        reveal_strlit("g");
        reveal_strlit("x");
        reveal_strlit("q");
        reveal_strlit("w");
        reveal_strlit("m");
        reveal_strlit("z");
        reveal_strlit("c");
        reveal_strlit("p");
        reveal_strlit("v");
        reveal_strlit("r");
        reveal_strlit("t");
        reveal_strlit("n");
        reveal_strlit("d");
        reveal_strlit("j");
        reveal_strlit("h");
    }
    if d == 0 { "k" }
    else if d == 1 { "g" }
    else if d == 2 { "x" }
    else if d == 3 { "q" }
    else if d == 4 { "w" }
    else if d == 5 { "m" }
    else if d == 6 { "z" }
    else if d == 7 { "c" }
    else if d == 8 { "p" }
    else if d == 9 { "v" }
    else if d == 10 { "r" }
    else if d == 11 { "t" }
    else if d == 12 { "n" }
    else if d == 13 { "d" }
    else if d == 14 { "j" }
    else { "h" }
}

/// The digit a symbol stands for, if any.
fn sym_digit(c: char) -> (r: Option<u64>)
    ensures
        r == spec_sym_digit(c),
{
    if c == 'k' { Some(0u64) }
    else if c == 'g' { Some(1u64) }
    else if c == 'x' { Some(2u64) }
    else if c == 'q' { Some(3u64) }
    else if c == 'w' { Some(4u64) }
    else if c == 'm' { Some(5u64) }
    else if c == 'z' { Some(6u64) }
    else if c == 'c' { Some(7u64) }
    else if c == 'p' { Some(8u64) }
    else if c == 'v' { Some(9u64) }
    else if c == 'r' { Some(10u64) }
    else if c == 't' { Some(11u64) }
    else if c == 'n' { Some(12u64) }
    else if c == 'd' { Some(13u64) }
    else if c == 'j' { Some(14u64) }
    else if c == 'h' { Some(15u64) }
    else { None }
}

/// Encodes an identifier as its salted sixteen-symbol token.
pub fn encode_hashed(id: u64, salt: u64) -> (s: String)
    ensures
        s@ == hashed_token(id, salt),
{
    let x: u64 = id ^ salt;
    let ghost fd = fixed_digits(x as nat, 16);
    proof {
        lemma_pow16_u64();
        lemma_fold_fixed_digits(x as nat, 16);
    }
    let mut ds: Vec<u64> = Vec::new();
    let mut m: u64 = x;
    let mut j: usize = 0;
    while j < 16
        invariant
            0 <= j <= 16,
            ds@.len() == j,
            forall|i: int| 0 <= i < ds@.len() ==> ds@[i] < 16,
            fd =~= fixed_digits(m as nat, (16 - j) as nat) + Seq::new(
                ds@.len(),
                |i: int| ds@[ds@.len() - 1 - i] as nat,
            ),
        decreases 16 - j,
    {
        let d = m % 16;
        m = m / 16;
        ds.push(d);
        j = j + 1;
        proof {
            assert(fd =~= fixed_digits(m as nat, (16 - j) as nat) + Seq::new(
                ds@.len(),
                |i: int| ds@[ds@.len() - 1 - i] as nat,
            ));
        }
    }
    proof {
        assert(fixed_digits(m as nat, 0) =~= Seq::<nat>::empty());
        assert(fd =~= Seq::new(ds@.len(), |i: int| ds@[ds@.len() - 1 - i] as nat));
    }
    let mut s = String::new();
    let mut k: usize = 16;
    while k > 0
        invariant
            k <= 16,
            ds@.len() == 16,
            forall|i: int| 0 <= i < ds@.len() ==> ds@[i] < 16,
            fd =~= Seq::new(ds@.len(), |i: int| ds@[ds@.len() - 1 - i] as nat),
            fd.len() == 16,
            s@ =~= sym_chars(fd.subrange(0, 16 - k)),
        decreases k,
    {
        s.append(sym_str(ds[k - 1]));
        proof {
            assert(fd[16 - k] == ds@[k - 1] as nat);
            assert(s@ =~= sym_chars(fd.subrange(0, 16 - k + 1)));
        }
        k = k - 1;
    }
    proof {
        assert(fd.subrange(0, 16) =~= fd);
    }
    s
}

/// Decodes a salted sixteen-symbol token.
///
/// Exactly the tokens that `encode_hashed` produces under the same salt
/// decode: the result is `Some(id)` precisely when the input is the token of
/// `id`, so the round trip returns the original identifier and no other
/// string reaches a stored identifier.
pub fn decode_hashed(s: &str, salt: u64) -> (r: Option<u64>)
    ensures
        r matches Some(id) ==> s@ == hashed_token(id, salt),
        forall|id: u64| s@ == hashed_token(id, salt) ==> r == Some(id),
{
    let n = s.unicode_len();
    if n != 16 {
        proof {
            assert forall|id: u64| s@ != hashed_token(id, salt) by {
                lemma_pow16_u64();
                lemma_fold_fixed_digits((id ^ salt) as nat, 16);
                assert(hashed_token(id, salt).len() == 16);
            }
        }
        return None;
    }
    let ghost mut ds: Seq<nat> = Seq::empty();
    let mut x: u64 = 0;
    let mut i: usize = 0;
    while i < 16
        invariant
            0 <= i <= 16,
            n == s@.len(),
            n == 16,
            ds.len() == i,
            forall|j: int| 0 <= j < i ==> ds[j] < 16,
            forall|j: int| 0 <= j < i ==> sym(#[trigger] ds[j]) == s@[j],
            x as nat == fold_digits(ds),
            x < pow16(i as nat),
        decreases 16 - i,
    {
        let c = s.get_char(i);
        let d = match sym_digit(c) {
            Some(d) => d,
            None => {
                proof {
                    assert forall|idx: u64| s@ != hashed_token(idx, salt) by {
                        let y = (idx ^ salt) as nat;
                        lemma_pow16_u64();
                        lemma_fold_fixed_digits(y, 16);
                        if s@ == hashed_token(idx, salt) {
                            let fd = fixed_digits(y, 16);
                            assert(s@[i as int] == sym(fd[i as int]));
                            assert(spec_sym_digit(sym(fd[i as int])) == Some(fd[i as int] as u64));
                        }
                    }
                }
                return None;
            },
        };
        proof {
            assert(spec_sym_digit(c) == Some(d));
            assert(d < 16 && sym(d as nat) == c);
            lemma_pow16_u64();
            lemma_pow16_increases(i as nat + 1, 16);
            assert(pow16(i as nat + 1) == 16 * pow16(i as nat));
            assert(x * 16 + d < pow16(i as nat + 1));
            let ds0 = ds;
            ds = ds.push(d as nat);
            assert(ds.drop_last() =~= ds0);
            assert(ds.last() == d as nat);
            assert(fold_digits(ds) == fold_digits(ds0) * 16 + d as nat);
        }
        x = x * 16 + d;
        i = i + 1;
    }
    let id = x ^ salt;
    proof {
        lemma_fixed_digits_fold(ds);
        let y: u64 = id ^ salt;
        assert(y == x) by (bit_vector)
            requires
                y == (x ^ salt) ^ salt,
        ;
        assert(s@ =~= sym_chars(fixed_digits(x as nat, 16)));
        assert(s@ == hashed_token(id, salt));
        assert forall|idx: u64| s@ == hashed_token(idx, salt) implies Some(id) == Some(idx) by {
            let y2 = idx ^ salt;
            lemma_pow16_u64();
            lemma_fold_fixed_digits(y2 as nat, 16);
            let fd = fixed_digits(y2 as nat, 16);
            assert forall|j: int| 0 <= j < 16 implies ds[j] == fd[j] by {
                assert(sym(ds[j]) == s@[j]);
                assert(s@[j] == sym(fd[j]));
                assert(spec_sym_digit(sym(ds[j])) == Some(ds[j] as u64));
                assert(spec_sym_digit(sym(fd[j])) == Some(fd[j] as u64));
            }
            assert(ds =~= fd);
            assert(x == y2);
            assert(idx == x ^ salt) by (bit_vector)
                requires
                    x == idx ^ salt,
            ;
        }
    }
    Some(id)
}

} // verus!
