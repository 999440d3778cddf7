//! Path handling: the platform-independent display form of a path, and joining
//! path parts with the platform separator.

use vstd::prelude::*;
use vstd::string::*;

verus! {

/// Every backslash replaced by a forward slash.
pub open spec fn forward_slashes(s: Seq<char>) -> Seq<char> {
    s.map_values(|c: char| if c == '\\' { '/' } else { c })
}

/// Whether `s` starts with the relative-parent prefix `../`.
pub open spec fn has_parent_prefix(s: Seq<char>) -> bool {
    s.len() >= 3 && s[0] == '.' && s[1] == '.' && s[2] == '/'
}

/// The display form of a raw path: backslashes become forward slashes, then
/// one leading `../` is dropped. Nothing else changes.
pub open spec fn normalize(raw: Seq<char>) -> Seq<char> {
    let t = forward_slashes(raw);
    if has_parent_prefix(t) {
        t.skip(3)
    } else {
        t
    }
}

/// The parts joined, with `sep` between each two neighbours.
pub open spec fn join(parts: Seq<Seq<char>>, sep: Seq<char>) -> Seq<char>
    decreases parts.len(),
{
    if parts.len() == 0 {
        Seq::empty()
    } else if parts.len() == 1 {
        parts[0]
    } else {
        join(parts.drop_last(), sep) + sep + parts.last()
    }
}

/// The views of a slice of string slices.
pub open spec fn views(parts: Seq<&str>) -> Seq<Seq<char>> {
    parts.map_values(|p: &str| p@)
}

/// A path made explicitly relative: kept when it starts with `.` or `/`,
/// otherwise prefixed with `./`.
pub open spec fn explicit_relative(path: Seq<char>) -> Seq<char> {
    if path.len() > 0 && (path[0] == '.' || path[0] == '/') {
        path
    } else {
        seq!['.', '/'] + path
    }
}

/// Appends the single character `s[i]` to `out`.
fn push_char_of(out: &mut String, s: &str, i: usize)
    requires
        i < s@.len() <= usize::MAX,
    ensures
        final(out)@ == old(out)@.push(s@[i as int]),
{
    let one = s.substring_char(i, i + 1);
    out.append(one);
    assert(one@ =~= seq![s@[i as int]]);
}

/// The display form of a raw path.
pub fn fix_path_string(path: &str) -> (r: String)
    ensures
        r@ == normalize(path@),
{
    let n = path.unicode_len();
    let ghost t = forward_slashes(path@);
    let mut start: usize = 0;
    if n >= 3 {
        let c0 = path.get_char(0);
        let c1 = path.get_char(1);
        let c2 = path.get_char(2);
        if c0 == '.' && c1 == '.' && (c2 == '/' || c2 == '\\') {
            start = 3;
        }
    }
    assert(has_parent_prefix(t) <==> start == 3);
    let mut out = String::new();
    let mut i: usize = start;
    while i < n
        invariant
            start <= i <= n,
            n == path@.len(),
            t == forward_slashes(path@),
            out@ == t.subrange(start as int, i as int),
        decreases n - i,
    {
        let c = path.get_char(i);
        assert(t[i as int] == if c == '\\' { '/' } else { c });
        if c == '\\' {
            proof {
                reveal_strlit("/");
            }
            out.append("/");
            assert("/"@ =~= seq!['/']);
        } else {
            push_char_of(&mut out, path, i);
        }
        assert(out@ =~= t.subrange(start as int, i + 1));
        i = i + 1;
    }
    assert(out@ =~= normalize(path@));
    out
}

/// The path prefixed with `./` unless it already starts with `.` or `/`.
pub fn fix_path_prefix_for_linux(path: &str) -> (r: String)
    ensures
        r@ == explicit_relative(path@),
{
    proof {
        reveal_strlit("./");
    }
    let n = path.unicode_len();
    if n > 0 {
        let c = path.get_char(0);
        if c == '.' || c == '/' {
            return String::from_str(path);
        }
    }
    let mut out = String::from_str("./");
    out.append(path);
    out
}

/// The parts joined with `sep` between each two neighbours.
pub fn join_with(parts: &[&str], sep: &str) -> (r: String)
    ensures
        r@ == join(views(parts@), sep@),
{
    let mut out = String::new();
    let mut i: usize = 0;
    while i < parts.len()
        invariant
            i <= parts@.len(),
            out@ == join(views(parts@.take(i as int)), sep@),
        decreases parts@.len() - i,
    {
        if i > 0 {
            out.append(sep);
        }
        out.append(parts[i]);
        proof {
            let next = views(parts@.take(i + 1));
            assert(next.drop_last() =~= views(parts@.take(i as int)));
            assert(next.last() == parts@[i as int]@);
            if i == 0 {
                assert(next =~= seq![parts@[0]@]);
            }
        }
        i = i + 1;
    }
    assert(parts@.take(parts@.len() as int) =~= parts@);
    out
}

/// Relies on std::path::MAIN_SEPARATOR_STR: the platform's path separator,
/// which is `/` or `\`.
#[verifier::external_body]
fn main_separator() -> (r: &'static str)
    ensures
        r@ == seq!['/'] || r@ == seq!['\\'],
{
    std::path::MAIN_SEPARATOR_STR
}

/// The parts joined with the platform's path separator.
pub fn concat_path_parts(parts: &[&str]) -> (r: String)
    ensures
        r@ == join(views(parts@), seq!['/']) || r@ == join(views(parts@), seq!['\\']),
{
    let sep = main_separator();
    join_with(parts, sep)
}

/// The spelled-out parts of the component directory, relative to the tool's
/// working directory.
pub open spec fn component_dir_parts() -> Seq<Seq<char>> {
    seq![seq!['.', '.'], seq!['s', 'r', 'c'], seq!['c', 'o', 'm', 'p', 'o', 'n', 'e', 'n', 't', 's'],
        seq!['c', 'h', 'a', 'k', 'r', 'a']]
}

/// The location of the generated component directory, `../src/components/chakra`
/// with the platform's separator.
pub fn detect_src_component_location() -> (r: String)
    ensures
        r@ == join(component_dir_parts(), seq!['/'])
            || r@ == join(component_dir_parts(), seq!['\\']),
{
    let parts: [&str; 4] = ["..", "src", "components", "chakra"];
    let slice = parts.as_slice();
    let r = concat_path_parts(slice);
    proof {
        reveal_strlit("..");
        reveal_strlit("src");
        reveal_strlit("components");
        reveal_strlit("chakra");
        let v = views(slice@);
        assert(v[0] =~= seq!['.', '.']);
        assert(v[1] =~= seq!['s', 'r', 'c']);
        assert(v[2] =~= seq!['c', 'o', 'm', 'p', 'o', 'n', 'e', 'n', 't', 's']);
        assert(v[3] =~= seq!['c', 'h', 'a', 'k', 'r', 'a']);
        assert(v =~= component_dir_parts());
    }
    r
}

} // verus!
