//! The word-sequence token encoding: an identifier is written base 16, most
//! significant digit first with no leading zero, each digit as a three-letter
//! animal word, the words joined by dashes.

use vstd::prelude::*;
use vstd::arithmetic::div_mod::lemma_fundamental_div_mod;
use crate::digits::{
    base_digits, fold_digits, pow16, lemma_base_digits_in_range, lemma_base_digits_no_leading_zero,
    lemma_fold_base_digits, lemma_base_digits_fold, lemma_base_digits_len, lemma_pow16_u64,
    lemma_pow16_increases,
};

verus! {

/// The word for one base-16 digit value.
pub open spec fn word(d: nat) -> Seq<char> {
    if d == 0 { "ant"@ }
    else if d == 1 { "bat"@ }
    else if d == 2 { "cat"@ }
    else if d == 3 { "dog"@ }
    else if d == 4 { "eel"@ }
    else if d == 5 { "fox"@ }
    else if d == 6 { "gnu"@ }
    else if d == 7 { "hen"@ }
    else if d == 8 { "jay"@ }
    else if d == 9 { "koi"@ }
    else if d == 10 { "moa"@ }
    else if d == 11 { "owl"@ }
    else if d == 12 { "pig"@ }
    else if d == 13 { "ram"@ }
    else if d == 14 { "sow"@ }
    else { "yak"@ }
}

/// The token text for a digit sequence: the digits' words joined by dashes.
pub open spec fn words_token_of(ds: Seq<nat>) -> Seq<char>
    decreases ds.len(),
{
    if ds.len() == 0 {
        Seq::empty()
    } else if ds.len() == 1 {
        word(ds[0])
    } else {
        words_token_of(ds.drop_last()) + "-"@ + word(ds.last())
    }
}

/// The token text for an identifier.
pub open spec fn words_token(n: nat) -> Seq<char> {
    words_token_of(base_digits(n))
}

/// Whether the character just before the word at stride `i` is a dash.
pub open spec fn dash_before(t: Seq<char>, i: int) -> bool {
    t[4 * i - 1] == '-'
}

/// The digit value named by three characters, if they spell a word.
pub open spec fn spec_digit_of(c0: char, c1: char, c2: char) -> Option<u64> {
    if c0 == 'a' && c1 == 'n' && c2 == 't' { Some(0u64) }
    else if c0 == 'b' && c1 == 'a' && c2 == 't' { Some(1u64) }
    else if c0 == 'c' && c1 == 'a' && c2 == 't' { Some(2u64) }
    else if c0 == 'd' && c1 == 'o' && c2 == 'g' { Some(3u64) }
    else if c0 == 'e' && c1 == 'e' && c2 == 'l' { Some(4u64) }
    else if c0 == 'f' && c1 == 'o' && c2 == 'x' { Some(5u64) }
    else if c0 == 'g' && c1 == 'n' && c2 == 'u' { Some(6u64) }
    else if c0 == 'h' && c1 == 'e' && c2 == 'n' { Some(7u64) }
    else if c0 == 'j' && c1 == 'a' && c2 == 'y' { Some(8u64) }
    else if c0 == 'k' && c1 == 'o' && c2 == 'i' { Some(9u64) }
    else if c0 == 'm' && c1 == 'o' && c2 == 'a' { Some(10u64) }
    else if c0 == 'o' && c1 == 'w' && c2 == 'l' { Some(11u64) }
    else if c0 == 'p' && c1 == 'i' && c2 == 'g' { Some(12u64) }
    else if c0 == 'r' && c1 == 'a' && c2 == 'm' { Some(13u64) }
    else if c0 == 's' && c1 == 'o' && c2 == 'w' { Some(14u64) }
    else if c0 == 'y' && c1 == 'a' && c2 == 'k' { Some(15u64) }
    else { None }
}

proof fn reveal_words()
    ensures
        forall|d: nat| d < 16 ==> (#[trigger] word(d)).len() == 3,
        forall|d: nat| d < 16 ==> spec_digit_of(#[trigger] word(d)[0], word(d)[1], word(d)[2])
            == Some(d as u64),
{
    reveal_strlit("ant");
    reveal_strlit("bat");
    reveal_strlit("cat");
    reveal_strlit("dog");
    reveal_strlit("eel");
    reveal_strlit("fox");
    reveal_strlit("gnu");
    reveal_strlit("hen");
    reveal_strlit("jay");
    reveal_strlit("koi");
    reveal_strlit("moa");
    reveal_strlit("owl");
    reveal_strlit("pig");
    reveal_strlit("ram");
    reveal_strlit("sow");
    reveal_strlit("yak");
}

/// Three characters spell at most one word, and spell it exactly.
proof fn lemma_digit_of_chars(c0: char, c1: char, c2: char)
    ensures
        spec_digit_of(c0, c1, c2) matches Some(v) ==> v < 16 && word(v as nat) =~= seq![c0, c1, c2],
{
    reveal_words();
    reveal_strlit("ant");
    reveal_strlit("bat");
    reveal_strlit("cat");
    reveal_strlit("dog");
    reveal_strlit("eel");
    reveal_strlit("fox");
    reveal_strlit("gnu");
    reveal_strlit("hen");
    reveal_strlit("jay");
    reveal_strlit("koi");
    reveal_strlit("moa");
    reveal_strlit("owl");
    reveal_strlit("pig");
    reveal_strlit("ram");
    reveal_strlit("sow");
    reveal_strlit("yak");
}

/// Character-level shape of a token: each digit's word sits at a fixed
/// four-character stride, with a dash before every word but the first.
proof fn lemma_token_shape(ds: Seq<nat>)
    requires
        ds.len() >= 1,
        forall|i: int| 0 <= i < ds.len() ==> ds[i] < 16,
    ensures
        words_token_of(ds).len() == 4 * ds.len() - 1,
        forall|i: int, j: int| 0 <= i < ds.len() && 0 <= j < 3
            ==> words_token_of(ds)[4 * i + j] == #[trigger] word(ds[i])[j],
        forall|i: int| 1 <= i < ds.len() ==> #[trigger] dash_before(words_token_of(ds), i),
    decreases ds.len(),
{
    reveal_words();
    reveal_strlit("-");
    if ds.len() == 1 {
        assert(words_token_of(ds) == word(ds[0]));
    } else {
        let head = ds.drop_last();
        lemma_token_shape(head);
        let t = words_token_of(ds);
        let ht = words_token_of(head);
        let l = ds.len() - 1;
        assert(t == ht + "-"@ + word(ds.last()));
        assert("-"@.len() == 1);
        assert(t.len() == 4 * ds.len() - 1);
        assert forall|i: int, j: int| 0 <= i < ds.len() && 0 <= j < 3
            implies t[4 * i + j] == #[trigger] word(ds[i])[j] by {
            if i < l {
                assert(head[i] == ds[i]);
                assert(ht[4 * i + j] == word(head[i])[j]);
                assert(t[4 * i + j] == ht[4 * i + j]);
            } else {
                assert(ds.last() == ds[i]);
                assert(4 * i + j - (ht.len() + 1) == j);
                assert(t[4 * i + j] == word(ds.last())[j]);
            }
        }
        assert forall|i: int| 1 <= i < ds.len() implies #[trigger] dash_before(t, i) by {
            if i < l {
                assert(dash_before(ht, i));
                assert(t[4 * i - 1] == ht[4 * i - 1]);
            } else {
                assert(t[4 * i - 1] == "-"@[0]);
            }
        }
    }
}

/// Everything the decoder needs to know about the token of one identifier.
proof fn lemma_token_of_id(idx: u64)
    ensures
        ({
            let bd = base_digits(idx as nat);
            let t = words_token(idx as nat);
            &&& 1 <= bd.len() <= 16
            &&& forall|i: int| 0 <= i < bd.len() ==> bd[i] < 16
            &&& bd.len() > 1 ==> bd[0] != 0
            &&& fold_digits(bd) == idx as nat
            &&& t.len() == 4 * bd.len() - 1
            &&& forall|i: int, j: int| 0 <= i < bd.len() && 0 <= j < 3
                ==> t[4 * i + j] == #[trigger] word(bd[i])[j]
            &&& forall|i: int| 1 <= i < bd.len() ==> #[trigger] dash_before(t, i)
        }),
{
    lemma_pow16_u64();
    lemma_base_digits_len(idx as nat, 16);
    lemma_base_digits_in_range(idx as nat);
    lemma_base_digits_no_leading_zero(idx as nat);
    lemma_fold_base_digits(idx as nat);
    lemma_token_shape(base_digits(idx as nat));
}

/// No two identifiers share a word-sequence token.
pub proof fn lemma_words_token_injective(a: u64, b: u64)
    requires
        words_token(a as nat) == words_token(b as nat),
    ensures
        a == b,
{
    lemma_token_of_id(a);
    lemma_token_of_id(b);
    let bda = base_digits(a as nat);
    let bdb = base_digits(b as nat);
    let t = words_token(a as nat);
    assert(bda.len() == bdb.len());
    assert forall|j: int| 0 <= j < bda.len() implies bda[j] == bdb[j] by {
        reveal_words();
        assert(word(bda[j])[0] == t[4 * j]);
        assert(word(bda[j])[1] == t[4 * j + 1]);
        assert(word(bda[j])[2] == t[4 * j + 2]);
        assert(word(bdb[j])[0] == t[4 * j]);
        assert(word(bdb[j])[1] == t[4 * j + 1]);
        assert(word(bdb[j])[2] == t[4 * j + 2]);
        assert(spec_digit_of(word(bda[j])[0], word(bda[j])[1], word(bda[j])[2]) == Some(
            bda[j] as u64,
        ));
        assert(spec_digit_of(word(bdb[j])[0], word(bdb[j])[1], word(bdb[j])[2]) == Some(
            bdb[j] as u64,
        ));
    }
    assert(bda =~= bdb);
    assert(fold_digits(bda) == fold_digits(bdb));
}

/// The word for one base-16 digit.
fn word_str(d: u64) -> (r: &'static str)
    requires
        d < 16,
    ensures
        r@ =~= word(d as nat),
{
    if d == 0 { "ant" }
    else if d == 1 { "bat" }
    else if d == 2 { "cat" }
    else if d == 3 { "dog" }
    else if d == 4 { "eel" }
    else if d == 5 { "fox" }
    else if d == 6 { "gnu" }
    else if d == 7 { "hen" }
    else if d == 8 { "jay" }
    else if d == 9 { "koi" }
    else if d == 10 { "moa" }
    else if d == 11 { "owl" }
    else if d == 12 { "pig" }
    else if d == 13 { "ram" }
    else if d == 14 { "sow" }
    else { "yak" }
}

/// The digit named by three characters, if they spell a word.
fn digit_of(c0: char, c1: char, c2: char) -> (r: Option<u64>)
    ensures
        r == spec_digit_of(c0, c1, c2),
{
    if c0 == 'a' && c1 == 'n' && c2 == 't' { Some(0u64) }
    else if c0 == 'b' && c1 == 'a' && c2 == 't' { Some(1u64) }
    else if c0 == 'c' && c1 == 'a' && c2 == 't' { Some(2u64) }
    else if c0 == 'd' && c1 == 'o' && c2 == 'g' { Some(3u64) }
    else if c0 == 'e' && c1 == 'e' && c2 == 'l' { Some(4u64) }
    else if c0 == 'f' && c1 == 'o' && c2 == 'x' { Some(5u64) }
    else if c0 == 'g' && c1 == 'n' && c2 == 'u' { Some(6u64) }
    else if c0 == 'h' && c1 == 'e' && c2 == 'n' { Some(7u64) }
    else if c0 == 'j' && c1 == 'a' && c2 == 'y' { Some(8u64) }
    else if c0 == 'k' && c1 == 'o' && c2 == 'i' { Some(9u64) }
    else if c0 == 'm' && c1 == 'o' && c2 == 'a' { Some(10u64) }
    else if c0 == 'o' && c1 == 'w' && c2 == 'l' { Some(11u64) }
    else if c0 == 'p' && c1 == 'i' && c2 == 'g' { Some(12u64) }
    else if c0 == 'r' && c1 == 'a' && c2 == 'm' { Some(13u64) }
    else if c0 == 's' && c1 == 'o' && c2 == 'w' { Some(14u64) }
    else if c0 == 'y' && c1 == 'a' && c2 == 'k' { Some(15u64) }
    else { None }
}

/// Encodes an identifier as its word-sequence token.
pub fn encode_words(id: u64) -> (s: String)
    ensures
        s@ == words_token(id as nat),
{
    let ghost bd = base_digits(id as nat);
    let mut ds: Vec<u64> = Vec::new();
    let mut m: u64 = id;
    while m >= 16
        invariant
            forall|i: int| 0 <= i < ds@.len() ==> ds@[i] < 16,
            bd =~= base_digits(m as nat) + Seq::new(
                ds@.len(),
                |i: int| ds@[ds@.len() - 1 - i] as nat,
            ),
        decreases m,
    {
        let d = m % 16;
        m = m / 16;
        ds.push(d);
        proof {
            assert(bd =~= base_digits(m as nat) + Seq::new(
                ds@.len(),
                |i: int| ds@[ds@.len() - 1 - i] as nat,
            ));
        }
    }
    proof {
        assert(base_digits(m as nat) =~= seq![m as nat]);
    }
    let mut s = String::from_str(word_str(m));
    proof {
        assert(bd.len() == 1 + ds@.len());
        assert(bd.subrange(0, 1) =~= seq![m as nat]);
        assert(words_token_of(bd.subrange(0, 1)) == word(m as nat));
        assert(s@ =~= words_token_of(bd.subrange(0, 1)));
    }
    let mut k: usize = ds.len();
    while k > 0
        invariant
            k <= ds@.len(),
            m < 16,
            forall|i: int| 0 <= i < ds@.len() ==> ds@[i] < 16,
            bd =~= seq![m as nat] + Seq::new(
                ds@.len(),
                |i: int| ds@[ds@.len() - 1 - i] as nat,
            ),
            s@ =~= words_token_of(bd.subrange(0, bd.len() - k)),
        decreases k,
    {
        s.append("-");
        s.append(word_str(ds[k - 1]));
        proof {
            let l = bd.len() - k;
            let p = bd.subrange(0, l);
            let p2 = bd.subrange(0, l + 1);
            assert(bd[l] == ds@[k - 1] as nat);
            assert(p2 =~= p.push(bd[l]));
            assert(p2.drop_last() =~= p);
            assert(p2.len() >= 2);
            assert(words_token_of(p2) == words_token_of(p) + "-"@ + word(bd[l]));
            assert(s@ =~= words_token_of(p2));
        }
        k = k - 1;
    }
    proof {
        assert(bd.subrange(0, bd.len() as int) =~= bd);
    }
    s
}

/// Decodes a word-sequence token.
///
/// Exactly the canonical tokens decode: the result is `Some(id)` precisely
/// when the input is the token that `encode_words(id)` produces, so decoding
/// what was encoded returns the original identifier, and no other string —
/// well-formed or garbage — ever reaches a stored identifier by accident.
pub fn decode_words(s: &str) -> (r: Option<u64>)
    ensures
        r matches Some(id) ==> s@ == words_token(id as nat),
        forall|id: u64| s@ == words_token(id as nat) ==> r == Some(id),
{
    let n = s.unicode_len();
    if n < 3 || n > 63 || (n + 1) % 4 != 0 {
        proof {
            assert forall|id: u64| s@ != words_token(id as nat) by {
                lemma_token_of_id(id);
            }
        }
        return None;
    }
    let k = (n + 1) / 4;
    let ghost mut ds: Seq<nat> = Seq::empty();
    let mut id: u64 = 0;
    let mut i: usize = 0;
    while i < k
        invariant
            1 <= k <= 16,
            0 <= i <= k,
            n == s@.len(),
            n + 1 == 4 * k,
            ds.len() == i,
            forall|j: int| 0 <= j < i ==> ds[j] < 16,
            i >= 1 && k > 1 ==> ds[0] != 0,
            forall|j: int| 0 <= j < i ==> word(#[trigger] ds[j]) =~= s@.subrange(4 * j, 4 * j + 3),
            forall|j: int| 1 <= j < i ==> #[trigger] dash_before(s@, j),
            id as nat == fold_digits(ds),
            id < pow16(i as nat),
        decreases k - i,
    {
        if i > 0 {
            if s.get_char(4 * i - 1) != '-' {
                proof {
                    assert forall|idx: u64| s@ != words_token(idx as nat) by {
                        lemma_token_of_id(idx);
                        if s@ == words_token(idx as nat) {
                            assert(base_digits(idx as nat).len() == k);
                            assert(dash_before(s@, i as int));
                        }
                    }
                }
                return None;
            }
        }
        let c0 = s.get_char(4 * i);
        let c1 = s.get_char(4 * i + 1);
        let c2 = s.get_char(4 * i + 2);
        let d = match digit_of(c0, c1, c2) {
            Some(d) => d,
            None => {
                proof {
                    assert forall|idx: u64| s@ != words_token(idx as nat) by {
                        lemma_token_of_id(idx);
                        if s@ == words_token(idx as nat) {
                            let bd = base_digits(idx as nat);
                            assert(bd.len() == k);
                            reveal_words();
                            assert(c0 == word(bd[i as int])[0]);
                            assert(c1 == word(bd[i as int])[1]);
                            assert(c2 == word(bd[i as int])[2]);
                            assert(spec_digit_of(c0, c1, c2) == Some(bd[i as int] as u64));
                        }
                    }
                }
                return None;
            },
        };
        if i == 0 && k > 1 && d == 0 {
            proof {
                assert forall|idx: u64| s@ != words_token(idx as nat) by {
                    lemma_token_of_id(idx);
                    if s@ == words_token(idx as nat) {
                        let bd = base_digits(idx as nat);
                        assert(bd.len() == k);
                        reveal_words();
                        assert(c0 == word(bd[0])[0]);
                        assert(c1 == word(bd[0])[1]);
                        assert(c2 == word(bd[0])[2]);
                        assert(spec_digit_of(c0, c1, c2) == Some(bd[0] as u64));
                        assert(bd[0] != 0);
                    }
                }
            }
            return None;
        }
        proof {
            lemma_digit_of_chars(c0, c1, c2);
            assert(word(d as nat) =~= seq![c0, c1, c2]);
            assert(seq![c0, c1, c2] =~= s@.subrange(4 * i, 4 * i + 3));
            if i > 0 {
                assert(dash_before(s@, i as int));
            }
            lemma_pow16_u64();
            lemma_pow16_increases(i as nat + 1, 16);
            assert(pow16(i as nat + 1) == 16 * pow16(i as nat));
            assert(id * 16 + d < pow16(i as nat + 1));
            let ds0 = ds;
            ds = ds.push(d as nat);
            assert(ds.drop_last() =~= ds0);
            assert(ds.last() == d as nat);
            assert(fold_digits(ds) == fold_digits(ds0) * 16 + d as nat);
        }
        id = id * 16 + d;
        i = i + 1;
    }
    proof {
        lemma_base_digits_fold(ds);
        lemma_token_shape(ds);
        let t = words_token_of(ds);
        assert forall|u: int| 0 <= u < s@.len() implies s@[u] == t[u] by {
            lemma_fundamental_div_mod(u, 4);
            let q = u / 4;
            let w = u % 4;
            if w < 3 {
                assert(word(ds[q])[w] == s@.subrange(4 * q, 4 * q + 3)[w]);
                assert(t[4 * q + w] == word(ds[q])[w]);
            } else {
                assert(dash_before(s@, q + 1));
                assert(dash_before(t, q + 1));
            }
        }
        assert(s@ =~= t);
        assert(s@ == words_token(id as nat));
        assert forall|idx: u64| s@ == words_token(idx as nat) implies Some(id) == Some(idx) by {
            lemma_token_of_id(idx);
            let bd = base_digits(idx as nat);
            assert(bd.len() == k);
            assert forall|j: int| 0 <= j < k implies ds[j] == bd[j] by {
                reveal_words();
                assert(word(bd[j])[0] == s@[4 * j]);
                assert(word(bd[j])[1] == s@[4 * j + 1]);
                assert(word(bd[j])[2] == s@[4 * j + 2]);
                assert(word(ds[j]) =~= s@.subrange(4 * j, 4 * j + 3));
                assert(spec_digit_of(s@[4 * j], s@[4 * j + 1], s@[4 * j + 2]) == Some(bd[j] as u64));
                assert(word(ds[j])[0] == s@[4 * j]);
                assert(word(ds[j])[1] == s@[4 * j + 1]);
                assert(word(ds[j])[2] == s@[4 * j + 2]);
                assert(spec_digit_of(word(ds[j])[0], word(ds[j])[1], word(ds[j])[2])
                    == Some(ds[j] as u64));
            }
            assert(ds =~= bd);
        }
    }
    Some(id)
}

} // verus!
