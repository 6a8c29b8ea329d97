//! Access control: given the flags of a record and a caller-supplied secret,
//! decide whether viewing, editing or deleting may proceed, and whether a
//! destructive operation needs a typed confirmation phrase.

use vstd::prelude::*;

verus! {

/// The five independent per-record flags that drive authorization.
#[derive(Clone, Copy, PartialEq, Eq, Structural, Debug)]
pub struct Flags {
    pub readonly: bool,
    pub private: bool,
    pub editable: bool,
    pub encrypt_server: bool,
    pub encrypt_client: bool,
}

/// Viewing needs authorization when the record is server-side encrypted or
/// private. Client-side encryption alone never forces a server-side prompt.
pub open spec fn spec_view_needs_auth(f: Flags) -> bool {
    f.encrypt_server || f.private
}

/// Editing needs authorization when the record is server-side encrypted,
/// read-only, or not editable.
pub open spec fn spec_edit_needs_auth(f: Flags) -> bool {
    f.encrypt_server || f.readonly || !f.editable
}

/// Deleting is gated exactly as editing is.
pub open spec fn spec_delete_needs_auth(f: Flags) -> bool {
    spec_edit_needs_auth(f)
}

pub fn view_needs_auth(f: Flags) -> (r: bool)
    ensures
        r == spec_view_needs_auth(f),
{
    f.encrypt_server || f.private
}

pub fn edit_needs_auth(f: Flags) -> (r: bool)
    ensures
        r == spec_edit_needs_auth(f),
{
    f.encrypt_server || f.readonly || !f.editable
}

pub fn delete_needs_auth(f: Flags) -> (r: bool)
    ensures
        r == spec_delete_needs_auth(f),
{
    f.encrypt_server || f.readonly || !f.editable
}

/// Outcome of one delete attempt, before any state is touched.
#[derive(Clone, Copy, PartialEq, Eq, Structural, Debug)]
pub enum DeleteDecision {
    /// No flag gates the record: delete right away, no secret, no confirmation.
    Unrestricted,
    /// The record is gated and the supplied confirmation phrase matches.
    Confirmed,
    /// The record is gated and no input was supplied: prompt for input.
    AuthPrompt,
    /// The record is gated and the supplied input does not match: prompt again.
    ReAuthPrompt,
}

/// Whitespace characters stripped from around a typed confirmation.
pub open spec fn spec_is_space(c: char) -> bool {
    c == ' ' || c == '\t' || c == '\n' || c == '\r'
}

pub fn is_space(c: char) -> (r: bool)
    ensures
        r == spec_is_space(c),
{
    c == ' ' || c == '\t' || c == '\n' || c == '\r'
}

/// The sequence with leading whitespace removed.
pub open spec fn trim_front(s: Seq<char>) -> Seq<char>
    decreases s.len(),
{
    if s.len() > 0 && spec_is_space(s[0]) {
        trim_front(s.drop_first())
    } else {
        s
    }
}

/// The sequence with trailing whitespace removed.
pub open spec fn trim_back(s: Seq<char>) -> Seq<char>
    decreases s.len(),
{
    if s.len() > 0 && spec_is_space(s[s.len() - 1]) {
        trim_back(s.drop_last())
    } else {
        s
    }
}

/// The sequence with surrounding whitespace removed.
pub open spec fn trimmed(s: Seq<char>) -> Seq<char> {
    trim_back(trim_front(s))
}

/// What one delete attempt decides, as a function of the record's flags, the
/// caller's free-text input, and the localized confirmation phrase. The input
/// is compared case-sensitively after trimming surrounding whitespace.
pub open spec fn spec_decide_delete(f: Flags, supplied: Seq<char>, phrase: Seq<char>) -> DeleteDecision {
    if !spec_delete_needs_auth(f) {
        DeleteDecision::Unrestricted
    } else if supplied.len() == 0 {
        DeleteDecision::AuthPrompt
    } else if trimmed(supplied) == phrase {
        DeleteDecision::Confirmed
    } else {
        DeleteDecision::ReAuthPrompt
    }
}

/// Deleting an editable, non-read-only, non-server-encrypted record needs no
/// secret and no confirmation, whatever was supplied; once any of those flags
/// is flipped against that open setting, deletion goes through exactly when
/// the supplied input, trimmed of surrounding whitespace, equals the
/// localized confirmation phrase, compared case-sensitively.
pub proof fn lemma_delete_gating(f: Flags, supplied: Seq<char>, phrase: Seq<char>)
    ensures
        !f.readonly && f.editable && !f.encrypt_server ==> spec_decide_delete(
            f,
            supplied,
            phrase,
        ) is Unrestricted,
        (f.readonly || !f.editable || f.encrypt_server) && supplied.len() > 0 ==> (
        spec_decide_delete(f, supplied, phrase) is Confirmed <==> trimmed(supplied) == phrase),
        (f.readonly || !f.editable || f.encrypt_server) && supplied.len() == 0
            ==> spec_decide_delete(f, supplied, phrase) is AuthPrompt,
{
}

proof fn lemma_trim_front_is_subrange(s: Seq<char>, k: int)
    requires
        0 <= k <= s.len(),
        forall|j: int| 0 <= j < k ==> spec_is_space(s[j]),
        k == s.len() || !spec_is_space(s[k]),
    ensures
        trim_front(s) =~= s.subrange(k, s.len() as int),
    decreases k,
{
    if k == 0 {
        if s.len() > 0 && spec_is_space(s[0]) {
            assert(false);
        }
        assert(trim_front(s) =~= s.subrange(0, s.len() as int));
    } else {
        let t = s.drop_first();
        assert(forall|j: int| 0 <= j < k - 1 ==> spec_is_space(t[j]));
        lemma_trim_front_is_subrange(t, k - 1);
        assert(t.subrange(k - 1, t.len() as int) =~= s.subrange(k, s.len() as int));
    }
}

proof fn lemma_trim_back_is_subrange(s: Seq<char>, k: int)
    requires
        0 <= k <= s.len(),
        forall|j: int| k <= j < s.len() ==> spec_is_space(s[j]),
        k == 0 || !spec_is_space(s[k - 1]),
    ensures
        trim_back(s) =~= s.subrange(0, k),
    decreases s.len() - k,
{
    if k == s.len() {
        if s.len() > 0 && spec_is_space(s[s.len() - 1]) {
            assert(false);
        }
        assert(trim_back(s) =~= s.subrange(0, k));
    } else {
        let t = s.drop_last();
        lemma_trim_back_is_subrange(t, k);
        assert(t.subrange(0, k) =~= s.subrange(0, k));
    }
}

/// Whether the caller's input, after trimming surrounding whitespace, equals
/// the localized confirmation phrase exactly (case-sensitive).
pub fn confirm_matches(supplied: &str, phrase: &str) -> (r: bool)
    ensures
        r == (trimmed(supplied@) == phrase@),
{
    let n = supplied.unicode_len();
    let mut a: usize = 0;
    while a < n && is_space(supplied.get_char(a))
        invariant
            0 <= a <= n,
            n == supplied@.len(),
            forall|j: int| 0 <= j < a ==> spec_is_space(supplied@[j]),
        decreases n - a,
    {
        a = a + 1;
    }
    let mut b: usize = n;
    while b > a && is_space(supplied.get_char(b - 1))
        invariant
            a <= b <= n,
            n == supplied@.len(),
            forall|j: int| 0 <= j < a ==> spec_is_space(supplied@[j]),
            a == n || !spec_is_space(supplied@[a as int]),
            forall|j: int| b <= j < n ==> spec_is_space(supplied@[j]),
        decreases b,
    {
        b = b - 1;
    }
    proof {
        lemma_trim_front_is_subrange(supplied@, a as int);
        let t = supplied@.subrange(a as int, n as int);
        if b > a {
            lemma_trim_back_is_subrange(t, b - a);
        } else {
            lemma_trim_back_is_subrange(t, 0);
        }
        assert(t.subrange(0, b - a) =~= supplied@.subrange(a as int, b as int));
        assert(trimmed(supplied@) =~= supplied@.subrange(a as int, b as int));
    }
    let m = phrase.unicode_len();
    if b - a != m {
        proof {
            assert(trimmed(supplied@).len() != phrase@.len());
        }
        return false;
    }
    let mut i: usize = 0;
    while i < m
        invariant
            0 <= i <= m,
            a + m == b <= n,
            n == supplied@.len(),
            m == phrase@.len(),
            trimmed(supplied@) =~= supplied@.subrange(a as int, b as int),
            forall|j: int| 0 <= j < i ==> supplied@[a + j] == phrase@[j],
        decreases m - i,
    {
        if supplied.get_char(a + i) != phrase.get_char(i) {
            proof {
                assert(trimmed(supplied@)[i as int] != phrase@[i as int]);
            }
            return false;
        }
        i = i + 1;
    }
    proof {
        assert(trimmed(supplied@) =~= phrase@);
    }
    true
}

/// Decide one delete attempt: unrestricted records are deleted right away;
/// gated records need a non-empty input that matches the confirmation phrase.
pub fn decide_delete(f: Flags, supplied: &str, phrase: &str) -> (d: DeleteDecision)
    ensures
        d == spec_decide_delete(f, supplied@, phrase@),
{
    if !delete_needs_auth(f) {
        DeleteDecision::Unrestricted
    } else if supplied.unicode_len() == 0 {
        DeleteDecision::AuthPrompt
    } else if confirm_matches(supplied, phrase) {
        DeleteDecision::Confirmed
    } else {
        DeleteDecision::ReAuthPrompt
    }
}

} // verus!
