//! Manifests: one record of display path, size and content digest per file of
//! a directory listing, ordered by the raw path, and their text form.

use vstd::prelude::*;
use vstd::string::*;
use vstd::seq_lib::*;
use crate::path::{fix_path_string, normalize};
use crate::text::{
    decimal, hex_of, lemma_hex_len, lemma_lex_antisymmetric, lemma_lex_total, lemma_lex_transitive, lex_le, push_decimal, str_le, to_hex,
};

verus! {

broadcast use group_to_multiset_ensures;

/// What the `md5` crate computes as the MD5 digest of the data.
pub uninterp spec fn md5_of(data: Seq<u8>) -> Seq<u8>;

/// Relies on md5::compute: the 16-byte MD5 digest of the data, which depends
/// on the data alone.
#[verifier::external_body]
fn md5_digest(data: &[u8]) -> (r: [u8; 16])
    ensures
        r@ == md5_of(data@),
{
    md5::compute(data).0
}

/// The digest text of a file's content: its MD5 digest in lowercase hex.
pub open spec fn digest_text(content: Seq<u8>) -> Seq<char> {
    hex_of(md5_of(content))
}

/// The lowercase hexadecimal MD5 digest of the content, 32 characters long.
pub fn content_digest(content: &[u8]) -> (r: String)
    ensures
        r@ == digest_text(content@),
        r@.len() == 32,
{
    let d = md5_digest(content);
    proof {
        lemma_hex_len(d@);
    }
    to_hex(d.as_slice())
}

/// A direct child of the listed directory, as the listing gave it.
pub struct ListedEntry {
    pub raw_path: String,
    pub is_dir: bool,
}

/// The raw paths of the entries that are not directories, in listing order.
pub open spec fn file_paths(entries: Seq<ListedEntry>) -> Seq<Seq<char>>
    decreases entries.len(),
{
    if entries.len() == 0 {
        Seq::empty()
    } else if entries.last().is_dir {
        file_paths(entries.drop_last())
    } else {
        file_paths(entries.drop_last()).push(entries.last().raw_path@)
    }
}

/// The entries of a listing that go into a manifest: its files, in listing
/// order. Subdirectories are skipped, not descended into.
pub fn files_to_digest(entries: &[ListedEntry]) -> (r: Vec<String>)
    ensures
        r@.map_values(|p: String| p@) == file_paths(entries@),
{
    let mut out: Vec<String> = Vec::new();
    let mut i: usize = 0;
    while i < entries.len()
        invariant
            i <= entries@.len(),
            out@.map_values(|p: String| p@) == file_paths(entries@.take(i as int)),
        decreases entries@.len() - i,
    {
        let ghost before = out@;
        if !entries[i].is_dir {
            out.push(entries[i].raw_path.clone());
            assert(out@.map_values(|p: String| p@) =~= before.map_values(|p: String| p@).push(
                entries@[i as int].raw_path@,
            ));
        }
        assert(entries@.take(i + 1).drop_last() =~= entries@.take(i as int));
        i = i + 1;
    }
    assert(entries@.take(entries@.len() as int) =~= entries@);
    out
}

proof fn lemma_file_paths_from_files(entries: Seq<ListedEntry>, p: Seq<char>)
    requires
        file_paths(entries).contains(p),
    ensures
        exists|i: int| 0 <= i < entries.len() && !entries[i].is_dir && entries[i].raw_path@ == p,
    decreases entries.len(),
{
    let rest = entries.drop_last();
    if file_paths(rest).contains(p) {
        lemma_file_paths_from_files(rest, p);
        let i = choose|i: int| 0 <= i < rest.len() && !rest[i].is_dir && rest[i].raw_path@ == p;
        assert(entries[i] == rest[i]);
    } else {
        assert(entries[entries.len() - 1] == entries.last());
    }
}

/// A subdirectory of the listed directory is not in the manifest: where the
/// listing's paths are distinct, no path chosen for digesting is a directory's.
pub proof fn lemma_directories_skipped(entries: Seq<ListedEntry>, d: int)
    requires
        0 <= d < entries.len(),
        entries[d].is_dir,
        forall|i: int, j: int|
            0 <= i < entries.len() && 0 <= j < entries.len() && i != j ==> #[trigger] entries[i].raw_path@
                != #[trigger] entries[j].raw_path@,
    ensures
        !file_paths(entries).contains(entries[d].raw_path@),
{
    if file_paths(entries).contains(entries[d].raw_path@) {
        lemma_file_paths_from_files(entries, entries[d].raw_path@);
    }
}

/// A file of the listed directory: the path as the listing gave it, and the
/// bytes read from it.
pub struct SourceFile {
    pub raw_path: String,
    pub content: Vec<u8>,
}

/// One manifest record.
#[derive(Debug, PartialEq, Eq)]
pub struct ManifestEntry {
    pub display_path: String,
    pub size_bytes: u64,
    pub digest_hex: String,
}

impl View for ManifestEntry {
    type V = (Seq<char>, nat, Seq<char>);

    open spec fn view(&self) -> (Seq<char>, nat, Seq<char>) {
        (self.display_path@, self.size_bytes as nat, self.digest_hex@)
    }
}

/// The record of a file: its normalized path, its length and its digest.
pub open spec fn file_record(f: SourceFile) -> (Seq<char>, nat, Seq<char>) {
    (normalize(f.raw_path@), f.content@.len(), digest_text(f.content@))
}

/// Whether the files are ordered by raw path.
pub open spec fn sorted_by_raw_path(s: Seq<SourceFile>) -> bool {
    forall|i: int, j: int|
        0 <= i < j < s.len() ==> lex_le(#[trigger] s[i].raw_path@, #[trigger] s[j].raw_path@)
}

/// Whether `sorted` holds the files of `listing`, ordered by raw path.
pub open spec fn is_sorted_listing(sorted: Seq<SourceFile>, listing: Seq<SourceFile>) -> bool {
    sorted.to_multiset() == listing.to_multiset() && sorted_by_raw_path(sorted)
}

/// The views of a sequence of entries.
pub open spec fn entry_views(entries: Seq<ManifestEntry>) -> Seq<(Seq<char>, nat, Seq<char>)> {
    entries.map_values(|e: ManifestEntry| e@)
}

/// Whether `records` is a manifest of `listing`: the records of its files,
/// in the order of their raw paths.
pub open spec fn is_manifest_of(
    records: Seq<(Seq<char>, nat, Seq<char>)>,
    listing: Seq<SourceFile>,
) -> bool {
    exists|sorted: Seq<SourceFile>|
        #[trigger] is_sorted_listing(sorted, listing) && records == sorted.map_values(
            |f: SourceFile| file_record(f),
        )
}

/// The text line of a record, `path, size, digest` and a newline.
pub open spec fn record_line(r: (Seq<char>, nat, Seq<char>)) -> Seq<char> {
    r.0 + seq![',', ' '] + decimal(r.1) + seq![',', ' '] + r.2 + seq!['\n']
}

/// The text of a manifest: its lines one after another.
pub open spec fn manifest_text(records: Seq<(Seq<char>, nat, Seq<char>)>) -> Seq<char>
    decreases records.len(),
{
    if records.len() == 0 {
        Seq::empty()
    } else {
        manifest_text(records.drop_last()) + record_line(records.last())
    }
}

/// The record of one file.
pub fn manifest_entry(file: &SourceFile) -> (r: ManifestEntry)
    ensures
        r@ == file_record(*file),
{
    let display_path = fix_path_string(file.raw_path.as_str());
    let digest_hex = content_digest(file.content.as_slice());
    ManifestEntry { display_path, size_bytes: file.content.len() as u64, digest_hex }
}

proof fn lemma_insert_to_multiset<A>(s: Seq<A>, k: int, x: A)
    requires
        0 <= k <= s.len(),
    ensures
        s.insert(k, x).to_multiset() =~= s.to_multiset().insert(x),
{
    let t = s.insert(k, x);
    assert(t.remove(k) =~= s);
    assert(t.to_multiset().count(x) > 0);
}

/// The files ordered by raw path, in code-point order.
pub fn sort_by_raw_path(files: Vec<SourceFile>) -> (r: Vec<SourceFile>)
    ensures
        is_sorted_listing(r@, files@),
{
    let mut rest = files;
    let mut out: Vec<SourceFile> = Vec::new();
    while rest.len() > 0
        invariant
            rest@.to_multiset().add(out@.to_multiset()) == files@.to_multiset(),
            sorted_by_raw_path(out@),
        decreases rest@.len(),
    {
        let ghost before = rest@;
        let x = rest.pop().unwrap();
        assert(before =~= rest@.push(x));
        let mut k: usize = 0;
        while k < out.len() && str_le(out[k].raw_path.as_str(), x.raw_path.as_str())
            invariant
                k <= out@.len(),
                forall|j: int| 0 <= j < k ==> lex_le(#[trigger] out@[j].raw_path@, x.raw_path@),
            decreases out@.len() - k,
        {
            k = k + 1;
        }
        proof {
            if k < out@.len() {
                lemma_lex_total(out@[k as int].raw_path@, x.raw_path@);
            }
            assert forall|j: int| k <= j < out@.len() implies lex_le(
                x.raw_path@,
                #[trigger] out@[j].raw_path@,
            ) by {
                if j > k {
                    lemma_lex_transitive(
                        x.raw_path@,
                        out@[k as int].raw_path@,
                        out@[j].raw_path@,
                    );
                }
            }
            lemma_insert_to_multiset(out@, k as int, x);
        }
        let ghost old_out = out@;
        out.insert(k, x);
        proof {
            assert forall|i: int, j: int| 0 <= i < j < out@.len() implies lex_le(
                #[trigger] out@[i].raw_path@,
                #[trigger] out@[j].raw_path@,
            ) by {
                if i < k && j > k {
                    assert(out@[i] == old_out[i] && out@[j] == old_out[j - 1]);
                } else if j < k {
                    assert(out@[i] == old_out[i] && out@[j] == old_out[j]);
                } else if i > k {
                    assert(out@[i] == old_out[i - 1] && out@[j] == old_out[j - 1]);
                }
            }
        }
    }
    assert(rest@ =~= Seq::<SourceFile>::empty());
    assert(rest@.to_multiset().add(out@.to_multiset()) =~= out@.to_multiset());
    out
}

/// The manifest of a directory listing: its files ordered by raw path, each
/// with its normalized path, length and digest.
pub fn build_manifest(files: Vec<SourceFile>) -> (r: Vec<ManifestEntry>)
    ensures
        is_manifest_of(entry_views(r@), files@),
{
    let sorted = sort_by_raw_path(files);
    let mut out: Vec<ManifestEntry> = Vec::new();
    let mut i: usize = 0;
    while i < sorted.len()
        invariant
            i <= sorted@.len(),
            entry_views(out@) =~= sorted@.take(i as int).map_values(
                |f: SourceFile| file_record(f),
            ),
        decreases sorted@.len() - i,
    {
        let e = manifest_entry(&sorted[i]);
        let ghost before = out@;
        out.push(e);
        assert(sorted@.take(i + 1) =~= sorted@.take(i as int).push(sorted@[i as int]));
        assert(entry_views(out@) =~= entry_views(out@.drop_last()).push(e@));
        assert(out@.drop_last() =~= before);
        i = i + 1;
    }
    assert(sorted@.take(sorted@.len() as int) =~= sorted@);
    assert(is_sorted_listing(sorted@, files@));
    out
}

/// The text line of one record.
pub fn manifest_line(entry: &ManifestEntry) -> (r: String)
    ensures
        r@ == record_line(entry@),
{
    proof {
        reveal_strlit(", ");
        reveal_strlit("\n");
    }
    let mut out = String::from_str(entry.display_path.as_str());
    out.append(", ");
    push_decimal(&mut out, entry.size_bytes);
    out.append(", ");
    out.append(entry.digest_hex.as_str());
    out.append("\n");
    assert(out@ =~= record_line(entry@));
    out
}

/// The text of a manifest: one line per record, in order.
pub fn serialize_manifest(entries: &[ManifestEntry]) -> (r: String)
    ensures
        r@ == manifest_text(entry_views(entries@)),
{
    let mut out = String::new();
    let mut i: usize = 0;
    while i < entries.len()
        invariant
            i <= entries@.len(),
            out@ == manifest_text(entry_views(entries@.take(i as int))),
        decreases entries@.len() - i,
    {
        let line = manifest_line(&entries[i]);
        out.append(line.as_str());
        proof {
            let next = entry_views(entries@.take(i + 1));
            assert(next.drop_last() =~= entry_views(entries@.take(i as int)));
        }
        i = i + 1;
    }
    assert(entries@.take(entries@.len() as int) =~= entries@);
    out
}

/// Whether no two files of the listing share a raw path, as in a directory.
pub open spec fn unique_raw_paths(s: Seq<SourceFile>) -> bool {
    forall|i: int, j: int|
        0 <= i < s.len() && 0 <= j < s.len() && i != j ==> #[trigger] s[i].raw_path@
            != #[trigger] s[j].raw_path@
}

proof fn lemma_unique_raw_paths_permutation(a: Seq<SourceFile>, b: Seq<SourceFile>)
    requires
        a.to_multiset() == b.to_multiset(),
        unique_raw_paths(a),
    ensures
        unique_raw_paths(b),
{
    assert forall|i: int, j: int| 0 <= i < a.len() && 0 <= j < a.len() && i != j implies a[i]
        != a[j] by {
        assert(a[i].raw_path@ != a[j].raw_path@);
    }
    assert(a.no_duplicates());
    a.lemma_multiset_has_no_duplicates();
    b.lemma_multiset_has_no_duplicates_conv();
    assert forall|i: int, j: int|
        0 <= i < b.len() && 0 <= j < b.len() && i != j implies #[trigger] b[i].raw_path@
        != #[trigger] b[j].raw_path@ by {
        assert(b.to_multiset().count(b[i]) > 0);
        assert(b.to_multiset().count(b[j]) > 0);
        assert(a.contains(b[i]));
        assert(a.contains(b[j]));
        let ia = choose|k: int| 0 <= k < a.len() && a[k] == b[i];
        let ja = choose|k: int| 0 <= k < a.len() && a[k] == b[j];
        assert(ia != ja);
    }
}

proof fn lemma_sorted_permutations_equal(x: Seq<SourceFile>, y: Seq<SourceFile>)
    requires
        x.to_multiset() == y.to_multiset(),
        sorted_by_raw_path(x),
        sorted_by_raw_path(y),
        unique_raw_paths(x),
    ensures
        x == y,
    decreases x.len(),
{
    if x.len() == 0 {
        assert(y.to_multiset().len() == 0);
        assert(x =~= y);
    } else {
        assert(x.to_multiset().len() == x.len());
        assert(y.to_multiset().len() == y.len());
        assert(x.to_multiset().count(x[0]) > 0);
        assert(y.contains(x[0]));
        let k = choose|k: int| 0 <= k < y.len() && y[k] == x[0];
        assert(y.to_multiset().count(y[0]) > 0);
        assert(x.contains(y[0]));
        let j = choose|j: int| 0 <= j < x.len() && x[j] == y[0];
        lemma_lex_total(x[0].raw_path@, x[0].raw_path@);
        if j > 0 {
            assert(lex_le(x[0].raw_path@, x[j].raw_path@));
        }
        if k > 0 {
            assert(lex_le(y[0].raw_path@, y[k].raw_path@));
        }
        lemma_lex_antisymmetric(x[0].raw_path@, y[0].raw_path@);
        assert(j == 0);
        let xt = x.drop_first();
        let yt = y.drop_first();
        assert(x.remove(0) =~= xt);
        assert(y.remove(0) =~= yt);
        assert(xt.to_multiset() =~= yt.to_multiset());
        lemma_sorted_permutations_equal(xt, yt);
        assert(x =~= seq![x[0]] + xt);
        assert(y =~= seq![y[0]] + yt);
    }
}

/// Building twice over the same directory snapshot gives the same manifest:
/// two listings of the same files, whose raw paths are distinct, have one
/// manifest and one text, in whatever order the files were listed.
pub proof fn lemma_build_deterministic(
    a: Seq<SourceFile>,
    b: Seq<SourceFile>,
    x: Seq<(Seq<char>, nat, Seq<char>)>,
    y: Seq<(Seq<char>, nat, Seq<char>)>,
)
    requires
        a.to_multiset() == b.to_multiset(),
        unique_raw_paths(a),
        is_manifest_of(x, a),
        is_manifest_of(y, b),
    ensures
        x == y,
        manifest_text(x) == manifest_text(y),
{
    let sa = choose|sorted: Seq<SourceFile>|
        #[trigger] is_sorted_listing(sorted, a) && x == sorted.map_values(
            |f: SourceFile| file_record(f),
        );
    let sb = choose|sorted: Seq<SourceFile>|
        #[trigger] is_sorted_listing(sorted, b) && y == sorted.map_values(
            |f: SourceFile| file_record(f),
        );
    lemma_unique_raw_paths_permutation(a, sa);
    lemma_sorted_permutations_equal(sa, sb);
}

/// Digesting the same content twice gives the same digest text.
pub proof fn lemma_digest_stable(a: Seq<u8>, b: Seq<u8>)
    requires
        a == b,
    ensures
        digest_text(a) == digest_text(b),
{
}

} // verus!
