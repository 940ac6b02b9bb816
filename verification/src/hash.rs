//! The fingerprint of a circuit: one SHA-256 digest over the contents of its
//! build artifacts, fed to a single running hash file after file, in an
//! order that the files themselves fix.

use crate::bytes::{
    bytes_eq, bytes_le, lemma_lex_le_antisymmetric, lemma_lex_le_reflexive,
    lemma_lex_le_total, lemma_lex_le_transitive, lex_le,
};
use sha2::Digest;
use vstd::prelude::*;
use vstd::relations::{sorted_by, total_ordering};
use vstd::seq_lib::{lemma_sorted_unique, to_multiset_build, to_multiset_insert};

verus! {

/// How many bytes are handed to the running hash at a time.
pub const CHUNK_LEN: usize = 1024;

/// One build artifact: the path under which it was found, and what it holds.
#[derive(Clone, Debug, PartialEq, Eq)]
pub struct ArtifactFile {
    pub path: Vec<u8>,
    pub content: Vec<u8>,
}

/// A build artifact over plain byte strings.
pub struct FileView {
    pub path: Seq<u8>,
    pub content: Seq<u8>,
}

impl View for ArtifactFile {
    type V = FileView;

    open spec fn view(&self) -> FileView {
        FileView { path: self.path@, content: self.content@ }
    }
}

/// The files of a list, as plain values.
pub open spec fn file_views(files: Seq<ArtifactFile>) -> Seq<FileView> {
    Seq::new(files.len(), |i: int| files[i]@)
}

/// The order in which files are hashed: by path, lexicographically, and
/// between files of one path by content.
pub open spec fn file_le(a: FileView, b: FileView) -> bool {
    if a.path == b.path {
        lex_le(a.content, b.content)
    } else {
        lex_le(a.path, b.path)
    }
}

/// `file_le` as a relation.
pub open spec fn file_order() -> spec_fn(FileView, FileView) -> bool {
    |a: FileView, b: FileView| file_le(a, b)
}

/// The files in the order in which they are hashed, however they were
/// enumerated.
pub open spec fn canonical_order(files: Seq<FileView>) -> Seq<FileView> {
    files.sort_by(file_order())
}

/// The contents of the files, one after the other.
pub open spec fn contents(files: Seq<FileView>) -> Seq<u8>
    decreases files.len(),
{
    if files.len() == 0 {
        Seq::empty()
    } else {
        contents(files.drop_last()) + files.last().content
    }
}

/// The SHA-256 digest of a message. The name stands for what `sha2` computes
/// and has no definition here: contracts say of which message a digest was
/// taken, not what its bytes are.
pub uninterp spec fn sha256_digest(message: Seq<u8>) -> Seq<u8>;

/// The fingerprint of a set of files.
pub open spec fn fingerprint_of(files: Seq<FileView>) -> Seq<u8> {
    sha256_digest(contents(canonical_order(files)))
}

/// A running SHA-256 computation: a `sha2::Sha256`, which Verus does not
/// look into. All that is said of one goes through `absorbed`.
#[verifier::external_body]
pub struct RunningHash {
    state: sha2::Sha256,
}

/// The bytes that a running hash has been fed so far, in the order fed. The
/// name has no definition: the three functions below say how it changes.
pub uninterp spec fn absorbed(hash: RunningHash) -> Seq<u8>;

/// Calls `sha2::Sha256::new`. Taken on trust: the new running hash has been
/// fed nothing.
#[verifier::external_body]
fn sha256_new() -> (hash: RunningHash)
    ensures
        absorbed(hash) == Seq::<u8>::empty(),
{
    RunningHash { state: sha2::Sha256::new() }
}

/// Calls `sha2::Sha256::update`. Taken on trust: the running hash has then
/// been fed what it was fed before, followed by `data`.
#[verifier::external_body]
fn sha256_update(hash: &mut RunningHash, data: &[u8])
    ensures
        absorbed(*final(hash)) == absorbed(*old(hash)) + data@,
{
    hash.state.update(data);
}

/// Calls `sha2::Sha256::finalize`. Taken on trust: the thirty-two bytes that
/// come back are the digest of all that the running hash was fed, and of
/// nothing else, however the bytes were divided among the calls of `update`.
#[verifier::external_body]
fn sha256_finalize(hash: RunningHash) -> (digest: [u8; 32])
    ensures
        digest@ == sha256_digest(absorbed(hash)),
{
    hash.state.finalize().into()
}

/// The order in which files are hashed is a total order: any two files are
/// comparable, and two files that each come before the other are the same.
pub proof fn lemma_file_order_total()
    ensures
        total_ordering(file_order()),
{
    let r = file_order();
    assert forall|x: FileView| #[trigger] r(x, x) by {
        lemma_lex_le_reflexive(x.content);
    }
    assert forall|x: FileView, y: FileView| #[trigger] r(x, y) && #[trigger] r(y, x) implies x
        == y by {
        if x.path == y.path {
            lemma_lex_le_antisymmetric(x.content, y.content);
        } else {
            lemma_lex_le_antisymmetric(x.path, y.path);
        }
    }
    assert forall|x: FileView, y: FileView, z: FileView| #[trigger] r(x, y) && #[trigger] r(
        y,
        z,
    ) implies r(x, z) by {
        lemma_file_le_transitive(x, y, z);
    }
    assert forall|x: FileView, y: FileView| #[trigger] r(x, y) || #[trigger] r(y, x) by {
        lemma_lex_le_total(x.content, y.content);
        lemma_lex_le_total(x.path, y.path);
    }
}

/// A file that comes before a second, which comes before a third, comes
/// before the third.
proof fn lemma_file_le_transitive(x: FileView, y: FileView, z: FileView)
    requires
        file_le(x, y),
        file_le(y, z),
    ensures
        file_le(x, z),
{
    if x.path == y.path && y.path == z.path {
        lemma_lex_le_transitive(x.content, y.content, z.content);
    } else if x.path == y.path || y.path == z.path {
    } else {
        lemma_lex_le_transitive(x.path, y.path, z.path);
        if x.path == z.path {
            lemma_lex_le_antisymmetric(x.path, y.path);
        }
    }
}

/// Whether `a` is hashed before `b`, or is the same file.
pub fn file_before(a: &ArtifactFile, b: &ArtifactFile) -> (le: bool)
    ensures
        le == file_le(a@, b@),
{
    if bytes_eq(a.path.as_slice(), b.path.as_slice()) {
        bytes_le(a.content.as_slice(), b.content.as_slice())
    } else {
        bytes_le(a.path.as_slice(), b.path.as_slice())
    }
}

/// Puts the files into the order in which they are hashed.
pub fn sort_files(files: Vec<ArtifactFile>) -> (sorted: Vec<ArtifactFile>)
    ensures
        file_views(sorted@) == canonical_order(file_views(files@)),
{
    let ghost given = file_views(files@);
    let mut rest = files;
    let mut sorted: Vec<ArtifactFile> = Vec::new();
    proof {
        assert(file_views(sorted@).to_multiset().add(file_views(rest@).to_multiset())
            =~= given.to_multiset()) by {
            assert(file_views(sorted@) =~= Seq::<FileView>::empty());
            broadcast use vstd::seq_lib::group_to_multiset_ensures;
        }
    }
    while rest.len() > 0
        invariant
            sorted_by(file_views(sorted@), file_order()),
            file_views(sorted@).to_multiset().add(file_views(rest@).to_multiset())
                == given.to_multiset(),
        decreases rest@.len(),
    {
        let ghost rest_before = file_views(rest@);
        let ghost sorted_before = file_views(sorted@);
        let file = rest.pop().unwrap();
        let mut at: usize = 0;
        while at < sorted.len() && file_before(&sorted[at], &file)
            invariant
                at <= sorted@.len(),
                file_views(sorted@) == sorted_before,
                forall|j: int| 0 <= j < at ==> file_le(sorted_before[j], file@),
            decreases sorted@.len() - at,
        {
            at += 1;
        }
        sorted.insert(at, file);
        proof {
            let now = file_views(sorted@);
            assert(now =~= sorted_before.insert(at as int, file@));
            assert(rest_before =~= file_views(rest@).push(file@));
            to_multiset_build(file_views(rest@), file@);
            to_multiset_insert(sorted_before, at as int, file@);
            assert(now.to_multiset().add(file_views(rest@).to_multiset())
                =~= sorted_before.to_multiset().add(rest_before.to_multiset()));
            lemma_file_order_total();
            assert forall|i: int, j: int| 0 <= i < j < now.len() implies #[trigger] file_order()(
                now[i],
                now[j],
            ) by {
                if j < at {
                    assert(file_order()(sorted_before[i], sorted_before[j]));
                } else if j == at {
                } else if i == at {
                    // the file at `at` before the insertion is not before `file`
                    lemma_lex_le_total(sorted_before[at as int].path, file@.path);
                    lemma_lex_le_total(sorted_before[at as int].content, file@.content);
                    assert(file_le(file@, sorted_before[at as int]));
                    if j - 1 > at {
                        assert(file_order()(sorted_before[at as int], sorted_before[j - 1]));
                        lemma_file_le_transitive(
                            file@,
                            sorted_before[at as int],
                            sorted_before[j - 1],
                        );
                    }
                } else if i < at {
                    assert(file_order()(sorted_before[i], sorted_before[j - 1]));
                } else {
                    assert(file_order()(sorted_before[i - 1], sorted_before[j - 1]));
                }
            }
        }
    }
    proof {
        assert(file_views(rest@) =~= Seq::<FileView>::empty());
        assert(file_views(sorted@).to_multiset() =~= given.to_multiset()) by {
            broadcast use vstd::seq_lib::group_to_multiset_ensures;
        }
        lemma_file_order_total();
        given.lemma_sort_by_ensures(file_order());
        lemma_sorted_unique(file_views(sorted@), canonical_order(given), file_order());
    }
    sorted
}

/// Feeds `data` to the running hash, in pieces of at most `CHUNK_LEN` bytes.
fn absorb_in_chunks(hash: &mut RunningHash, data: &[u8])
    ensures
        absorbed(*final(hash)) == absorbed(*old(hash)) + data@,
{
    let mut done: usize = 0;
    assert(data@.take(0) =~= Seq::<u8>::empty());
    assert(absorbed(*hash) + Seq::<u8>::empty() =~= absorbed(*hash));
    while done < data.len()
        invariant
            done <= data@.len(),
            absorbed(*hash) == absorbed(*old(hash)) + data@.take(done as int),
        decreases data@.len() - done,
    {
        let left = data.len() - done;
        let step = if left < CHUNK_LEN {
            left
        } else {
            CHUNK_LEN
        };
        let chunk = vstd::slice::slice_subrange(data, done, done + step);
        sha256_update(hash, chunk);
        assert(data@.take(done as int) + data@.subrange(done as int, done + step) =~= data@.take(
            done + step,
        ));
        done += step;
    }
    assert(data@.take(done as int) =~= data@);
}

/// The fingerprint of a circuit's build artifacts: the SHA-256 digest of
/// their contents, taken one after the other in the canonical order. The
/// order in which `files` lists them has no part in it.
pub fn hash_circuit(files: Vec<ArtifactFile>) -> (fingerprint: [u8; 32])
    ensures
        fingerprint@ == fingerprint_of(file_views(files@)),
{
    let sorted = sort_files(files);
    let mut hash = sha256_new();
    let mut i: usize = 0;
    assert(file_views(sorted@).take(0) =~= Seq::<FileView>::empty());
    while i < sorted.len()
        invariant
            i <= sorted@.len(),
            absorbed(hash) == contents(file_views(sorted@).take(i as int)),
        decreases sorted@.len() - i,
    {
        absorb_in_chunks(&mut hash, sorted[i].content.as_slice());
        proof {
            let next = file_views(sorted@).take(i + 1);
            assert(next.drop_last() =~= file_views(sorted@).take(i as int));
            assert(next.last() == sorted@[i as int]@);
        }
        i += 1;
    }
    assert(file_views(sorted@).take(i as int) =~= file_views(sorted@));
    sha256_finalize(hash)
}

/// The fingerprint depends on the set of files alone: two enumerations of
/// the same files, in any two orders, have the same fingerprint.
pub proof fn lemma_fingerprint_ignores_enumeration_order(a: Seq<FileView>, b: Seq<FileView>)
    requires
        a.to_multiset() == b.to_multiset(),
    ensures
        canonical_order(a) == canonical_order(b),
        fingerprint_of(a) == fingerprint_of(b),
{
    lemma_file_order_total();
    a.lemma_sort_by_ensures(file_order());
    b.lemma_sort_by_ensures(file_order());
    lemma_sorted_unique(canonical_order(a), canonical_order(b), file_order());
}

/// The canonical order holds the files that were given, each as often as it
/// was given, and no file in it comes before one that precedes it.
pub proof fn lemma_canonical_order_sorts(files: Seq<FileView>)
    ensures
        canonical_order(files).to_multiset() == files.to_multiset(),
        forall|i: int, j: int|
            0 <= i < j < canonical_order(files).len() ==> file_le(
                #[trigger] canonical_order(files)[i],
                #[trigger] canonical_order(files)[j],
            ),
{
    lemma_file_order_total();
    files.lemma_sort_by_ensures(file_order());
    let sorted = canonical_order(files);
    assert forall|i: int, j: int| 0 <= i < j < sorted.len() implies file_le(
        #[trigger] sorted[i],
        #[trigger] sorted[j],
    ) by {
        assert(file_order()(sorted[i], sorted[j]));
    }
}

} // verus!
