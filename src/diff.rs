//! Reading the text of a unified line diff between two manifests: which
//! manifest paths were removed or added.

use vstd::prelude::*;
use vstd::string::*;
use crate::manifest::record_line;
use crate::text::{
    decimal, lemma_decimal_injective, lemma_lex_antisymmetric, lemma_lex_total,
    lemma_lex_transitive, lex_lt, str_le,
};

verus! {

/// The fields of `s` from `start`, scanning at `i`, split on the delimiter `", "`.
pub open spec fn fields_from(s: Seq<char>, start: int, i: int) -> Seq<Seq<char>>
    decreases s.len() - i,
{
    if i + 1 >= s.len() {
        seq![s.subrange(start, s.len() as int)]
    } else if s[i] == ',' && s[i + 1] == ' ' {
        seq![s.subrange(start, i)] + fields_from(s, i + 2, i + 2)
    } else {
        fields_from(s, start, i + 1)
    }
}

/// `s` split on every `", "`, left to right; there is always at least one field.
pub open spec fn split_fields(s: Seq<char>) -> Seq<Seq<char>> {
    fields_from(s, 0, 0)
}

/// The field at index `k`, or the empty sequence where there are fewer fields.
pub open spec fn field_or_empty(fields: Seq<Seq<char>>, k: int) -> Seq<char> {
    if 0 <= k < fields.len() {
        fields[k]
    } else {
        Seq::empty()
    }
}

/// The views of a sequence of strings.
pub open spec fn string_views(s: Seq<String>) -> Seq<Seq<char>> {
    s.map_values(|x: String| x@)
}

/// Splits a manifest line into its three fields on `", "`; a missing field is
/// empty, and anything after the third delimiter is not kept.
pub fn split_diff_line(line: &str) -> (r: [String; 3])
    ensures
        forall|k: int| 0 <= k < 3 ==> #[trigger] r@[k]@ == field_or_empty(split_fields(line@), k),
{
    let n = line.unicode_len();
    let mut parts: Vec<String> = Vec::new();
    let mut start: usize = 0;
    let mut i: usize = 0;
    while i < n && i + 1 < n
        invariant
            start <= i <= n,
            n == line@.len(),
            string_views(parts@) + fields_from(line@, start as int, i as int) == split_fields(
                line@,
            ),
        decreases n - i,
    {
        let c = line.get_char(i);
        let d = line.get_char(i + 1);
        if c == ',' && d == ' ' {
            let field = line.substring_char(start, i);
            let ghost before = parts@;
            parts.push(String::from_str(field));
            assert(string_views(parts@) =~= string_views(before) + seq![field@]);
            i = i + 2;
            start = i;
        } else {
            i = i + 1;
        }
    }
    let last = line.substring_char(start, n);
    let ghost before = parts@;
    parts.push(String::from_str(last));
    assert(string_views(parts@) =~= string_views(before) + seq![last@]);
    assert(string_views(parts@) =~= split_fields(line@));
    let f0 = if 0 < parts.len() { parts[0].clone() } else { String::new() };
    let f1 = if 1 < parts.len() { parts[1].clone() } else { String::new() };
    let f2 = if 2 < parts.len() { parts[2].clone() } else { String::new() };
    let r = [f0, f1, f2];
    assert(r@[0] == f0 && r@[1] == f1 && r@[2] == f2);
    r
}

/// A line without one trailing carriage return.
pub open spec fn strip_cr(line: Seq<char>) -> Seq<char> {
    if line.len() > 0 && line.last() == '\r' {
        line.drop_last()
    } else {
        line
    }
}

/// The lines of `s` from `start`, scanning at `i`: split on `\n`, each line
/// that a `\n` ends without a trailing `\r`, and no empty line after a final `\n`.
pub open spec fn lines_from(s: Seq<char>, start: int, i: int) -> Seq<Seq<char>>
    decreases s.len() - i,
{
    if i >= s.len() {
        if start < s.len() {
            seq![s.subrange(start, s.len() as int)]
        } else {
            Seq::empty()
        }
    } else if s[i] == '\n' {
        seq![strip_cr(s.subrange(start, i))] + lines_from(s, i + 1, i + 1)
    } else {
        lines_from(s, start, i + 1)
    }
}

/// The lines of a text.
pub open spec fn text_lines(s: Seq<char>) -> Seq<Seq<char>> {
    lines_from(s, 0, 0)
}

/// Whether `s` begins with `p`.
pub open spec fn starts_with(s: Seq<char>, p: Seq<char>) -> bool {
    s.len() >= p.len() && s.take(p.len() as int) == p
}

/// Whether a diff line is a file header (`---`, `+++`) or a hunk marker (`@@`).
pub open spec fn is_diff_header(line: Seq<char>) -> bool {
    starts_with(line, seq!['-', '-', '-']) || starts_with(line, seq!['+', '+', '+'])
        || starts_with(line, seq!['@', '@'])
}

/// The manifest path of a removed or added line: the first field after the
/// marker. Headers, hunk markers and context lines have none.
pub open spec fn changed_path(line: Seq<char>) -> Option<Seq<char>> {
    if is_diff_header(line) {
        None
    } else if line.len() > 0 && (line[0] == '-' || line[0] == '+') {
        Some(field_or_empty(split_fields(line.drop_first()), 0))
    } else {
        None
    }
}

/// The distinct paths that the lines remove or add.
pub open spec fn affected_set(lines: Seq<Seq<char>>) -> Set<Seq<char>> {
    Set::new(|p: Seq<char>| exists|i: int| 0 <= i < lines.len() && changed_path(lines[i]) == Some(p))
}

/// The set of the views of the strings.
pub open spec fn view_set(s: Seq<String>) -> Set<Seq<char>> {
    Set::new(|p: Seq<char>| exists|i: int| 0 <= i < s.len() && s[i]@ == p)
}

/// Whether the strings are in strictly increasing code-point order, hence distinct.
pub open spec fn strictly_sorted(s: Seq<String>) -> bool {
    forall|i: int, j: int| 0 <= i < j < s.len() ==> lex_lt(#[trigger] s[i]@, #[trigger] s[j]@)
}

/// The lines of a text, split on `\n`; a `\r` before a `\n` is dropped too.
pub fn diff_lines(text: &str) -> (r: Vec<String>)
    ensures
        string_views(r@) == text_lines(text@),
{
    let n = text.unicode_len();
    let mut lines: Vec<String> = Vec::new();
    let mut start: usize = 0;
    let mut i: usize = 0;
    while i < n
        invariant
            start <= i <= n,
            n == text@.len(),
            string_views(lines@) + lines_from(text@, start as int, i as int) == text_lines(text@),
        decreases n - i,
    {
        if text.get_char(i) == '\n' {
            let line = without_cr(text, start, i);
            let ghost before = lines@;
            lines.push(line);
            assert(string_views(lines@) =~= string_views(before) + seq![line@]);
            i = i + 1;
            start = i;
        } else {
            i = i + 1;
        }
    }
    if start < n {
        let line = String::from_str(text.substring_char(start, n));
        let ghost before = lines@;
        lines.push(line);
        assert(string_views(lines@) =~= string_views(before) + seq![line@]);
    }
    assert(string_views(lines@) =~= text_lines(text@));
    lines
}

/// The characters of `text` from `start` to `end`, without a trailing `\r`.
fn without_cr(text: &str, start: usize, end: usize) -> (r: String)
    requires
        start <= end <= text@.len(),
    ensures
        r@ == strip_cr(text@.subrange(start as int, end as int)),
{
    if start < end && text.get_char(end - 1) == '\r' {
        String::from_str(text.substring_char(start, end - 1))
    } else {
        String::from_str(text.substring_char(start, end))
    }
}

/// Whether `line` begins with the two or three characters given.
fn line_starts_with(line: &str, n: usize, a: char, b: char, c: Option<char>) -> (r: bool)
    requires
        n == line@.len(),
    ensures
        r == match c {
            Some(c) => starts_with(line@, seq![a, b, c]),
            None => starts_with(line@, seq![a, b]),
        },
{
    let k: usize = if c.is_some() { 3 } else { 2 };
    if n < k {
        return false;
    }
    let r = line.get_char(0) == a && line.get_char(1) == b && match c {
        Some(c) => line.get_char(2) == c,
        None => true,
    };
    proof {
        let p = match c {
            Some(c) => seq![a, b, c],
            None => seq![a, b],
        };
        if r {
            assert(line@.take(k as int) =~= p);
        } else {
            assert(line@.take(k as int)[0] == line@[0]);
            assert(line@.take(k as int)[1] == line@[1]);
        }
    }
    r
}

/// The manifest path that a diff line removes or adds, if it is such a line.
pub fn changed_path_of(line: &str) -> (r: Option<String>)
    ensures
        match r {
            Some(p) => changed_path(line@) == Some(p@),
            None => changed_path(line@) is None,
        },
{
    let n = line.unicode_len();
    if line_starts_with(line, n, '-', '-', Some('-')) || line_starts_with(line, n, '+', '+', Some('+'))
        || line_starts_with(line, n, '@', '@', None) {
        return None;
    }
    if n > 0 {
        let c = line.get_char(0);
        if c == '-' || c == '+' {
            let body = line.substring_char(1, n);
            assert(body@ =~= line@.drop_first());
            let parts = split_diff_line(body);
            let first = parts[0].clone();
            assert(first@ == parts@[0]@);
            return Some(first);
        }
    }
    None
}

/// Adds `x` to a strictly sorted sequence of strings, where it is not there yet.
fn insert_sorted_unique(set: &mut Vec<String>, x: String)
    requires
        strictly_sorted(old(set)@),
    ensures
        strictly_sorted(final(set)@),
        view_set(final(set)@) == view_set(old(set)@).insert(x@),
{
    let mut k: usize = 0;
    while k < set.len() && !str_le(x.as_str(), set[k].as_str())
        invariant
            k <= set@.len(),
            forall|j: int| 0 <= j < k ==> lex_lt(#[trigger] set@[j]@, x@),
        decreases set@.len() - k,
    {
        proof {
            lemma_lex_total(x@, set@[k as int]@);
        }
        k = k + 1;
    }
    if k < set.len() && set[k] == x {
        assert(view_set(set@) =~= view_set(set@).insert(x@));
        return;
    }
    let ghost before = set@;
    proof {
        assert forall|j: int| k <= j < before.len() implies lex_lt(x@, #[trigger] before[j]@) by {
            if j > k {
                lemma_lex_transitive(x@, before[k as int]@, before[j]@);
                if x@ == before[j]@ {
                    lemma_lex_antisymmetric(x@, before[k as int]@);
                }
            }
        }
    }
    set.insert(k, x);
    proof {
        assert forall|i: int, j: int| 0 <= i < j < set@.len() implies lex_lt(
            #[trigger] set@[i]@,
            #[trigger] set@[j]@,
        ) by {
            if i < k && j > k {
                assert(set@[i] == before[i] && set@[j] == before[j - 1]);
                lemma_lex_transitive(set@[i]@, x@, set@[j]@);
                if set@[i]@ == set@[j]@ {
                    lemma_lex_antisymmetric(x@, set@[j]@);
                }
            } else if j < k {
                assert(set@[i] == before[i] && set@[j] == before[j]);
            } else if i > k {
                assert(set@[i] == before[i - 1] && set@[j] == before[j - 1]);
            }
        }
        assert forall|p: Seq<char>| view_set(set@).contains(p) <==> #[trigger] view_set(
            before,
        ).insert(x@).contains(p) by {
            if view_set(set@).contains(p) {
                let i = choose|i: int| 0 <= i < set@.len() && set@[i]@ == p;
                if i < k {
                    assert(set@[i] == before[i]);
                } else if i > k {
                    assert(set@[i] == before[i - 1]);
                }
            }
            if view_set(before).contains(p) {
                let i = choose|i: int| 0 <= i < before.len() && before[i]@ == p;
                if i < k {
                    assert(set@[i] == before[i]);
                } else {
                    assert(set@[i + 1] == before[i]);
                }
            }
            if p == x@ {
                assert(set@[k as int] == x);
            }
        }
        assert(view_set(set@) =~= view_set(before).insert(x@));
    }
}

/// The distinct paths that the lines of a diff remove or add, in increasing
/// code-point order.
pub fn affected_paths(lines: &[String]) -> (r: Vec<String>)
    ensures
        strictly_sorted(r@),
        view_set(r@) == affected_set(string_views(lines@)),
{
    let mut set: Vec<String> = Vec::new();
    let mut i: usize = 0;
    while i < lines.len()
        invariant
            i <= lines@.len(),
            strictly_sorted(set@),
            view_set(set@) == affected_set(string_views(lines@.take(i as int))),
        decreases lines@.len() - i,
    {
        let ghost before = view_set(set@);
        let changed = changed_path_of(lines[i].as_str());
        match changed {
            Some(p) => {
                insert_sorted_unique(&mut set, p);
            },
            None => {},
        }
        proof {
            let prev = string_views(lines@.take(i as int));
            let next = string_views(lines@.take(i + 1));
            assert(next =~= prev.push(lines@[i as int]@));
            let cp = changed_path(lines@[i as int]@);
            assert(next[i as int] == lines@[i as int]@);
            assert(view_set(set@) == match cp {
                Some(q) => before.insert(q),
                None => before,
            });
            assert forall|p: Seq<char>| view_set(set@).contains(p) <==> #[trigger] affected_set(
                next,
            ).contains(p) by {
                if affected_set(next).contains(p) {
                    let j = choose|j: int| 0 <= j < next.len() && changed_path(next[j]) == Some(p);
                    if j < i {
                        assert(prev[j] == next[j]);
                        assert(affected_set(prev).contains(p));
                    }
                }
                if affected_set(prev).contains(p) {
                    let j = choose|j: int| 0 <= j < prev.len() && changed_path(prev[j]) == Some(p);
                    assert(next[j] == prev[j]);
                }
                if cp == Some(p) {
                    assert(changed_path(next[i as int]) == Some(p));
                }
            }
            assert(view_set(set@) =~= affected_set(next));
        }
        i = i + 1;
    }
    assert(lines@.take(lines@.len() as int) =~= lines@);
    set
}

/// The distinct manifest paths that a unified diff's text removes or adds,
/// in increasing code-point order; empty where nothing changed.
pub fn affected_entries(diff_text: &str) -> (r: Vec<String>)
    ensures
        strictly_sorted(r@),
        view_set(r@) == affected_set(text_lines(diff_text@)),
{
    let lines = diff_lines(diff_text);
    affected_paths(lines.as_slice())
}

/// Whether `", "` begins at index `i` of `s`.
pub open spec fn delim_at(s: Seq<char>, i: int) -> bool {
    0 <= i && i + 1 < s.len() && s[i] == ',' && s[i + 1] == ' '
}

/// Whether `", "` occurs nowhere in `s`.
pub open spec fn free_of_delimiter(s: Seq<char>) -> bool {
    forall|i: int| !#[trigger] delim_at(s, i)
}

proof fn lemma_fields_to_delimiter(s: Seq<char>, start: int, i: int, k: int)
    requires
        0 <= start <= i <= k,
        delim_at(s, k),
        forall|j: int| i <= j < k ==> !#[trigger] delim_at(s, j),
    ensures
        fields_from(s, start, i) == seq![s.subrange(start, k)] + fields_from(s, k + 2, k + 2),
    decreases k - i,
{
    if i < k {
        assert(!delim_at(s, i));
        lemma_fields_to_delimiter(s, start, i + 1, k);
    }
}

proof fn lemma_fields_to_end(s: Seq<char>, start: int, i: int)
    requires
        0 <= start <= i,
        forall|j: int| i <= j ==> !#[trigger] delim_at(s, j),
    ensures
        fields_from(s, start, i) == seq![s.subrange(start, s.len() as int)],
    decreases s.len() - i,
{
    if i + 1 < s.len() {
        assert(!delim_at(s, i));
        lemma_fields_to_end(s, start, i + 1);
    }
}

proof fn lemma_decimal_has_no_comma(n: nat)
    ensures
        forall|i: int| 0 <= i < decimal(n).len() ==> #[trigger] decimal(n)[i] != ',',
        decimal(n).len() > 0,
    decreases n,
{
    if n >= 10 {
        lemma_decimal_has_no_comma(n / 10);
    }
}

/// A serialized record reads back: its line, without the newline, split on
/// `", "` gives the path, the size's numeral and the digest, where neither the
/// path nor the digest holds `", "`; the numeral is that of no other size.
pub proof fn lemma_record_round_trip(record: (Seq<char>, nat, Seq<char>))
    requires
        free_of_delimiter(record.0),
        free_of_delimiter(record.2),
    ensures
        split_fields(record_line(record).drop_last()) == seq![record.0, decimal(record.1), record.2],
        forall|m: nat| #[trigger] decimal(m) == decimal(record.1) ==> m == record.1,
{
    assert forall|m: nat| #[trigger] decimal(m) == decimal(record.1) implies m == record.1 by {
        lemma_decimal_injective(m, record.1);
    }
    let (p, n, d) = record;
    let ds = decimal(n);
    let s = record_line(record).drop_last();
    let sep = seq![',', ' '];
    lemma_decimal_has_no_comma(n);
    assert(s =~= p + sep + ds + sep + d);
    let k1 = p.len() as int;
    let k2 = k1 + 2 + ds.len();
    assert forall|j: int| 0 <= j < k1 implies !#[trigger] delim_at(s, j) by {
        if j + 1 < k1 {
            assert(!delim_at(p, j));
        } else {
            assert(s[j + 1] == ',');
        }
    }
    assert(delim_at(s, k1));
    lemma_fields_to_delimiter(s, 0, 0, k1);
    assert forall|j: int| k1 + 2 <= j < k2 implies !#[trigger] delim_at(s, j) by {
        assert(s[j] == ds[j - k1 - 2]);
    }
    assert(delim_at(s, k2));
    lemma_fields_to_delimiter(s, k1 + 2, k1 + 2, k2);
    assert forall|j: int| k2 + 2 <= j implies !#[trigger] delim_at(s, j) by {
        if j + 1 < s.len() {
            assert(s[j] == d[j - k2 - 2] && s[j + 1] == d[j - k2 - 1]);
            assert(!delim_at(d, j - k2 - 2));
        }
    }
    lemma_fields_to_end(s, k2 + 2, k2 + 2);
    assert(s.subrange(0, k1) =~= p);
    assert(s.subrange(k1 + 2, k2) =~= ds);
    assert(s.subrange(k2 + 2, s.len() as int) =~= d);
    assert(split_fields(s) =~= seq![p, ds, d]);
}

/// A diff whose lines are all headers and hunk markers affects no path.
pub proof fn lemma_headers_only_no_drift(lines: Seq<Seq<char>>)
    requires
        forall|i: int| 0 <= i < lines.len() ==> is_diff_header(#[trigger] lines[i]),
    ensures
        affected_set(lines) == Set::<Seq<char>>::empty(),
{
    assert(affected_set(lines) =~= Set::<Seq<char>>::empty());
}

} // verus!
