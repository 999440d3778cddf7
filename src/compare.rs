//! Direct comparison of two manifest texts.

use vstd::prelude::*;
use vstd::string::*;

verus! {

/// The text from index `i` on, with each `\r\n` turned into `\n`.
pub open spec fn unified_from(s: Seq<char>, i: int) -> Seq<char>
    decreases s.len() - i,
{
    if i >= s.len() {
        Seq::empty()
    } else if s[i] == '\r' && i + 1 < s.len() && s[i + 1] == '\n' {
        seq!['\n'] + unified_from(s, i + 2)
    } else {
        seq![s[i]] + unified_from(s, i + 1)
    }
}

/// The text with each `\r\n` line ending turned into `\n`.
pub open spec fn unify_line_endings(s: Seq<char>) -> Seq<char> {
    unified_from(s, 0)
}

/// Whether two manifest texts are the same once line endings are unified.
pub open spec fn same_manifest(expected: Seq<char>, actual: Seq<char>) -> bool {
    unify_line_endings(expected) == unify_line_endings(actual)
}

/// Two manifests that differ.
#[derive(Clone, Copy, Debug, PartialEq, Eq)]
pub struct ChecksumMismatch;

/// Appends `s[i]` to `out`.
fn push_at(out: &mut String, s: &str, i: usize)
    requires
        i < s@.len() <= usize::MAX,
    ensures
        final(out)@ == old(out)@ + seq![s@[i as int]],
{
    let one = s.substring_char(i, i + 1);
    out.append(one);
    assert(one@ =~= seq![s@[i as int]]);
}

/// The text with each `\r\n` line ending turned into `\n`.
pub fn unified_line_endings(text: &str) -> (r: String)
    ensures
        r@ == unify_line_endings(text@),
{
    let n = text.unicode_len();
    let mut out = String::new();
    let mut i: usize = 0;
    while i < n
        invariant
            i <= n,
            n == text@.len(),
            out@ + unified_from(text@, i as int) == unify_line_endings(text@),
        decreases n - i,
    {
        if text.get_char(i) == '\r' && i + 1 < n && text.get_char(i + 1) == '\n' {
            proof {
                reveal_strlit("\n");
            }
            out.append("\n");
            assert("\n"@ =~= seq!['\n']);
            assert(out@ + unified_from(text@, i + 2) =~= unify_line_endings(text@));
            i = i + 2;
        } else {
            push_at(&mut out, text, i);
            assert(out@ + unified_from(text@, i + 1) =~= unify_line_endings(text@));
            i = i + 1;
        }
    }
    assert(out@ =~= out@ + unified_from(text@, i as int));
    out
}

/// Compares the committed manifest text with a freshly built one: `Ok` where
/// they are the same once line endings are unified, a mismatch otherwise.
pub fn compare_manifests(expected: &str, actual: &str) -> (r: Result<(), ChecksumMismatch>)
    ensures
        r is Ok <==> same_manifest(expected@, actual@),
{
    let a = unified_line_endings(expected);
    let b = unified_line_endings(actual);
    if a == b {
        Ok(())
    } else {
        Err(ChecksumMismatch)
    }
}

proof fn lemma_same_tail(s: Seq<char>, t: Seq<char>, j: int)
    requires
        s.len() == t.len(),
        0 <= j,
        forall|m: int| j <= m < s.len() ==> s[m] == t[m],
    ensures
        unified_from(s, j) == unified_from(t, j),
    decreases s.len() - j,
{
    if j < s.len() {
        lemma_same_tail(s, t, j + 1);
        if j + 1 < s.len() {
            lemma_same_tail(s, t, j + 2);
        }
    }
}

proof fn lemma_differ_from(s: Seq<char>, t: Seq<char>, k: int, i: int)
    requires
        s.len() == t.len(),
        0 <= i <= k < s.len(),
        s[k] != t[k],
        forall|m: int| 0 <= m < s.len() && m != k ==> s[m] == t[m],
    ensures
        unified_from(s, i) != unified_from(t, i),
    decreases k - i,
{
    let us = unified_from(s, i);
    let ut = unified_from(t, i);
    if i + 1 < k {
        if s[i] == '\r' && s[i + 1] == '\n' {
            lemma_differ_from(s, t, k, i + 2);
            assert(us.drop_first() =~= unified_from(s, i + 2));
            assert(ut.drop_first() =~= unified_from(t, i + 2));
        } else {
            lemma_differ_from(s, t, k, i + 1);
            assert(us.drop_first() =~= unified_from(s, i + 1));
            assert(ut.drop_first() =~= unified_from(t, i + 1));
        }
    } else if i + 1 == k {
        if s[i] == '\r' && s[k] == '\n' {
            assert(us[0] == '\n' && ut[0] == '\r');
        } else if s[i] == '\r' && t[k] == '\n' {
            assert(us[0] == '\r' && ut[0] == '\n');
        } else {
            lemma_differ_from(s, t, k, k);
            assert(us.drop_first() =~= unified_from(s, k));
            assert(ut.drop_first() =~= unified_from(t, k));
        }
    } else {
        let crlf_s = s[k] == '\r' && k + 1 < s.len() && s[k + 1] == '\n';
        let crlf_t = t[k] == '\r' && k + 1 < t.len() && t[k + 1] == '\n';
        if !crlf_s && !crlf_t {
            assert(us[0] == s[k] && ut[0] == t[k]);
        } else if crlf_s {
            if t[k] == '\n' {
                lemma_same_tail(s, t, k + 2);
                assert(t[k + 1] == '\n');
                assert(unified_from(t, k + 1) == seq![t[k + 1]] + unified_from(t, k + 2));
                assert(us.len() + 1 == ut.len());
            } else {
                assert(us[0] == '\n' && ut[0] == t[k]);
            }
        } else {
            if s[k] == '\n' {
                lemma_same_tail(s, t, k + 2);
                assert(s[k + 1] == '\n');
                assert(unified_from(s, k + 1) == seq![s[k + 1]] + unified_from(s, k + 2));
                assert(ut.len() + 1 == us.len());
            } else {
                assert(ut[0] == '\n' && us[0] == s[k]);
            }
        }
    }
}

/// Two manifest texts of one length that differ in a single character do not
/// match, so comparing them reports a mismatch.
pub proof fn lemma_single_change_mismatch(expected: Seq<char>, actual: Seq<char>, k: int)
    requires
        expected.len() == actual.len(),
        0 <= k < expected.len(),
        expected[k] != actual[k],
        forall|m: int| 0 <= m < expected.len() && m != k ==> expected[m] == actual[m],
    ensures
        !same_manifest(expected, actual),
{
    lemma_differ_from(expected, actual, k, 0);
}

} // verus!
