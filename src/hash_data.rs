use vstd::prelude::*;
use vstd::string::StringExecFns;
use vstd::utf8::encode_utf8;
use vstd::utf8::encode_utf8_decode_utf8;

use core::cmp::Ordering;

use crate::errors::AppError;
use crate::errors::is_abort_with;

verus! {

/// The name of the snapshot file kept in the root of an indexed tree.
pub const HASH_DATA_FILENAME: &'static str = "hash.json";

/// One indexed file: its path, its size and modification time (seconds since the
/// epoch) when it was last hashed, and the lowercase hex digest of its content.
#[derive(Debug, Default, Clone)]
pub struct FileEntry {
    pub file_name: String,
    pub file_size: u64,
    pub hash: String,
    pub modified: u64,
}

/// Lexicographic order on byte strings, comparing from position `i` on.
pub open spec fn lex_lt_from(a: Seq<u8>, b: Seq<u8>, i: int) -> bool
    decreases a.len() - i,
{
    if i >= a.len() {
        i < b.len()
    } else if i >= b.len() {
        false
    } else if a[i] != b[i] {
        a[i] < b[i]
    } else {
        lex_lt_from(a, b, i + 1)
    }
}

/// The order of paths in an index: byte order of their UTF-8 encodings.
pub open spec fn path_lt(a: Seq<char>, b: Seq<char>) -> bool {
    lex_lt_from(encode_utf8(a), encode_utf8(b), 0)
}

/// An index: strictly ascending, hence unique, paths.
pub open spec fn index_wf(s: Seq<FileEntry>) -> bool {
    forall|i: int, j: int|
        0 <= i < j < s.len() ==> path_lt(#[trigger] s[i].file_name@, #[trigger] s[j].file_name@)
}

/// Whether some record of `s` has path `p`.
pub open spec fn has_path(s: Seq<FileEntry>, p: Seq<char>) -> bool {
    exists|k: int| 0 <= k < s.len() && #[trigger] s[k].file_name@ == p
}

/// `restored` is an index of records taken from `read`, holding a record for every
/// path that `read` holds.
pub open spec fn restored_from(read: Seq<FileEntry>, restored: Seq<FileEntry>) -> bool {
    &&& index_wf(restored)
    &&& forall|e: FileEntry| #[trigger] restored.contains(e) ==> read.contains(e)
    &&& forall|k: int| 0 <= k < read.len() ==> has_path(restored, #[trigger] read[k].file_name@)
}

/// `after` is `before` with `entry` recorded: it replaces the record with the same
/// path, or joins the index where there was none.
pub open spec fn recorded(before: Seq<FileEntry>, after: Seq<FileEntry>, entry: FileEntry) -> bool {
    &&& index_wf(after)
    &&& forall|e: FileEntry| #[trigger]
        after.contains(e) <==> (e == entry || (before.contains(e) && e.file_name@
            != entry.file_name@))
}

proof fn lemma_lex_irrefl(a: Seq<u8>, i: int)
    requires
        0 <= i,
    ensures
        !lex_lt_from(a, a, i),
    decreases a.len() - i,
{
    if i < a.len() {
        lemma_lex_irrefl(a, i + 1);
    }
}

proof fn lemma_lex_asym(a: Seq<u8>, b: Seq<u8>, i: int)
    requires
        0 <= i,
        lex_lt_from(a, b, i),
    ensures
        !lex_lt_from(b, a, i),
    decreases a.len() - i,
{
    if i < a.len() && i < b.len() && a[i] == b[i] {
        lemma_lex_asym(a, b, i + 1);
    }
}

proof fn lemma_lex_trans(a: Seq<u8>, b: Seq<u8>, c: Seq<u8>, i: int)
    requires
        0 <= i,
        lex_lt_from(a, b, i),
        lex_lt_from(b, c, i),
    ensures
        lex_lt_from(a, c, i),
    decreases a.len() - i,
{
    if i < a.len() && i < b.len() && i < c.len() && a[i] == b[i] && b[i] == c[i] {
        lemma_lex_trans(a, b, c, i + 1);
    }
}

/// No path comes before itself.
pub proof fn lemma_path_lt_irrefl(a: Seq<char>)
    ensures
        !path_lt(a, a),
{
    lemma_lex_irrefl(encode_utf8(a), 0);
}

/// Of two paths, at most one comes first, and they differ.
pub proof fn lemma_path_lt_asym(a: Seq<char>, b: Seq<char>)
    requires
        path_lt(a, b),
    ensures
        !path_lt(b, a),
        a != b,
{
    lemma_lex_asym(encode_utf8(a), encode_utf8(b), 0);
    lemma_lex_irrefl(encode_utf8(a), 0);
}

/// The order of paths is transitive.
pub proof fn lemma_path_lt_trans(a: Seq<char>, b: Seq<char>, c: Seq<char>)
    requires
        path_lt(a, b),
        path_lt(b, c),
    ensures
        path_lt(a, c),
{
    lemma_lex_trans(encode_utf8(a), encode_utf8(b), encode_utf8(c), 0);
}

/// Compares two paths in index order.
pub fn compare_paths(a: &str, b: &str) -> (r: Ordering)
    ensures
        (r == Ordering::Less) == path_lt(a@, b@),
        (r == Ordering::Greater) == path_lt(b@, a@),
        (r == Ordering::Equal) == (a@ == b@),
{
    let x = a.as_bytes();
    let y = b.as_bytes();
    let ghost xs = encode_utf8(a@);
    let ghost ys = encode_utf8(b@);
    let mut i: usize = 0;
    while i < x.len() && i < y.len()
        invariant
            xs == encode_utf8(a@),
            ys == encode_utf8(b@),
            x@ == xs,
            y@ == ys,
            0 <= i <= x@.len(),
            i <= y@.len(),
            forall|t: int| 0 <= t < i ==> x@[t] == y@[t],
            lex_lt_from(xs, ys, 0) == lex_lt_from(xs, ys, i as int),
            lex_lt_from(ys, xs, 0) == lex_lt_from(ys, xs, i as int),
        decreases x@.len() - i,
    {
        if x[i] < y[i] {
            proof {
                assert(xs[i as int] < ys[i as int]);
                assert(lex_lt_from(xs, ys, i as int));
                lemma_path_lt_asym(a@, b@);
            }
            return Ordering::Less;
        }
        if x[i] > y[i] {
            proof {
                assert(xs[i as int] > ys[i as int]);
                assert(lex_lt_from(ys, xs, i as int));
                lemma_path_lt_asym(b@, a@);
            }
            return Ordering::Greater;
        }
        i = i + 1;
    }
    if x.len() < y.len() {
        proof {
            lemma_path_lt_asym(a@, b@);
        }
        Ordering::Less
    } else if x.len() > y.len() {
        proof {
            lemma_path_lt_asym(b@, a@);
        }
        Ordering::Greater
    } else {
        proof {
            assert(xs =~= ys);
            encode_utf8_decode_utf8(a@);
            encode_utf8_decode_utf8(b@);
            lemma_path_lt_irrefl(a@);
        }
        Ordering::Equal
    }
}

/// Binary search of the index by path: `Ok` with the position of the record for
/// `path`, or `Err` with the position where such a record would keep the order.
pub fn find_entry(hash_data: &Vec<FileEntry>, path: &str) -> (r: Result<usize, usize>)
    requires
        index_wf(hash_data@),
    ensures
        r is Ok ==> r->Ok_0 < hash_data@.len() && hash_data@[r->Ok_0 as int].file_name@ == path@,
        r is Err ==> {
            &&& r->Err_0 <= hash_data@.len()
            &&& !has_path(hash_data@, path@)
            &&& forall|k: int|
                0 <= k < r->Err_0 ==> path_lt(#[trigger] hash_data@[k].file_name@, path@)
            &&& forall|k: int|
                r->Err_0 <= k < hash_data@.len() ==> path_lt(
                    path@,
                    #[trigger] hash_data@[k].file_name@,
                )
        },
{
    let ghost s = hash_data@;
    let mut lo: usize = 0;
    let mut hi: usize = hash_data.len();
    while lo < hi
        invariant
            s == hash_data@,
            index_wf(s),
            0 <= lo <= hi <= s.len(),
            forall|k: int| 0 <= k < lo ==> path_lt(#[trigger] s[k].file_name@, path@),
            forall|k: int| hi <= k < s.len() ==> path_lt(path@, #[trigger] s[k].file_name@),
        decreases hi - lo,
    {
        let mid = lo + (hi - lo) / 2;
        match compare_paths(hash_data[mid].file_name.as_str(), path) {
            Ordering::Equal => {
                return Ok(mid);
            },
            Ordering::Less => {
                proof {
                    assert forall|k: int| 0 <= k < mid + 1 implies path_lt(
                        #[trigger] s[k].file_name@,
                        path@,
                    ) by {
                        if k < mid {
                            lemma_path_lt_trans(s[k].file_name@, s[mid as int].file_name@, path@);
                        }
                    }
                }
                lo = mid + 1;
            },
            Ordering::Greater => {
                proof {
                    assert forall|k: int| mid <= k < s.len() implies path_lt(
                        path@,
                        #[trigger] s[k].file_name@,
                    ) by {
                        if k > mid {
                            lemma_path_lt_trans(path@, s[mid as int].file_name@, s[k].file_name@);
                        }
                    }
                }
                hi = mid;
            },
        }
    }
    proof {
        assert forall|k: int| 0 <= k < s.len() implies #[trigger] s[k].file_name@ != path@ by {
            if k < lo {
                lemma_path_lt_asym(s[k].file_name@, path@);
            } else {
                lemma_path_lt_asym(path@, s[k].file_name@);
            }
        }
    }
    Err(lo)
}

/// Records `entry`: the record with its path is replaced in place, or a new record is
/// inserted where it keeps the order.
pub fn record_file(hash_data: &mut Vec<FileEntry>, entry: FileEntry)
    requires
        index_wf(old(hash_data)@),
    ensures
        recorded(old(hash_data)@, final(hash_data)@, entry),
{
    let ghost s = hash_data@;
    let ghost name = entry.file_name@;
    match find_entry(hash_data, entry.file_name.as_str()) {
        Ok(i) => {
            hash_data[i] = entry;
            proof {
                let t = hash_data@;
                assert(t == s.update(i as int, entry));
                assert forall|a: int, b: int| 0 <= a < b < t.len() implies path_lt(
                    #[trigger] t[a].file_name@,
                    #[trigger] t[b].file_name@,
                ) by {
                    assert(s[a].file_name@ == t[a].file_name@);
                    assert(s[b].file_name@ == t[b].file_name@);
                }
                assert forall|e: FileEntry| #[trigger]
                    t.contains(e) <==> (e == entry || (s.contains(e) && e.file_name@ != name)) by {
                    if t.contains(e) && e != entry {
                        let k = choose|k: int| 0 <= k < t.len() && t[k] == e;
                        assert(k != i);
                        assert(s[k] == e);
                        if k < i {
                            lemma_path_lt_asym(s[k].file_name@, s[i as int].file_name@);
                        } else {
                            lemma_path_lt_asym(s[i as int].file_name@, s[k].file_name@);
                        }
                    }
                    if e == entry {
                        assert(t[i as int] == e);
                    }
                    if s.contains(e) && e.file_name@ != name {
                        let k = choose|k: int| 0 <= k < s.len() && s[k] == e;
                        assert(k != i);
                        assert(t[k] == e);
                    }
                }
            }
        },
        Err(i) => {
            hash_data.insert(i, entry);
            proof {
                let t = hash_data@;
                assert(t == s.insert(i as int, entry));
                assert forall|a: int, b: int| 0 <= a < b < t.len() implies path_lt(
                    #[trigger] t[a].file_name@,
                    #[trigger] t[b].file_name@,
                ) by {
                    if b < i {
                        assert(t[a] == s[a] && t[b] == s[b]);
                    } else if b == i {
                        assert(t[a] == s[a]);
                    } else if a < i {
                        assert(t[a] == s[a] && t[b] == s[b - 1]);
                        lemma_path_lt_trans(s[a].file_name@, name, s[b - 1].file_name@);
                    } else if a == i {
                        assert(t[b] == s[b - 1]);
                    } else {
                        assert(t[a] == s[a - 1] && t[b] == s[b - 1]);
                    }
                }
                assert forall|e: FileEntry| #[trigger]
                    t.contains(e) <==> (e == entry || (s.contains(e) && e.file_name@ != name)) by {
                    if t.contains(e) && e != entry {
                        let k = choose|k: int| 0 <= k < t.len() && t[k] == e;
                        if k < i {
                            assert(s[k] == e);
                        } else {
                            assert(k != i);
                            assert(s[k - 1] == e);
                        }
                    }
                    if e == entry {
                        assert(t[i as int] == e);
                    }
                    if s.contains(e) && e.file_name@ != name {
                        let k = choose|k: int| 0 <= k < s.len() && s[k] == e;
                        if k < i {
                            assert(t[k] == e);
                        } else {
                            assert(t[k + 1] == e);
                        }
                    }
                }
            }
        },
    }
}

/// Builds an index from records read back from a snapshot, in whatever order they
/// were stored. Where two records share a path, the later one is kept. Records already
/// in order are appended one after the other.
pub fn restore_index(records: Vec<FileEntry>) -> (r: Vec<FileEntry>)
    ensures
        restored_from(records@, r@),
{
    let ghost orig = records@;
    let n = records.len();
    let mut rest = records;
    let mut reversed: Vec<FileEntry> = Vec::new();
    while rest.len() > 0
        invariant
            n == orig.len(),
            rest.len() + reversed.len() == n,
            rest@ == orig.subrange(0, rest.len() as int),
            forall|j: int| 0 <= j < reversed.len() ==> #[trigger] reversed@[j] == orig[n - 1 - j],
        decreases rest.len(),
    {
        let ghost m = rest.len() as int;
        match rest.pop() {
            Some(entry) => {
                reversed.push(entry);
                proof {
                    assert(rest@ =~= orig.subrange(0, m - 1));
                }
            },
            None => {},
        }
    }
    let mut index: Vec<FileEntry> = Vec::new();
    let mut k: usize = 0;
    while reversed.len() > 0
        invariant
            n == orig.len(),
            k + reversed.len() == n,
            forall|j: int| 0 <= j < reversed.len() ==> #[trigger] reversed@[j] == orig[n - 1 - j],
            index_wf(index@),
            forall|e: FileEntry| #[trigger] index@.contains(e) ==> orig.contains(e),
            forall|j: int| 0 <= j < k ==> has_path(index@, #[trigger] orig[j].file_name@),
        decreases reversed.len(),
    {
        let ghost before = index@;
        match reversed.pop() {
            Some(entry) => {
                proof {
                    assert(entry == orig[k as int]);
                }
                record_file(&mut index, entry);
                proof {
                    let after = index@;
                    assert(after.contains(entry));
                    let w = choose|w: int| 0 <= w < after.len() && after[w] == entry;
                    assert(after[w].file_name@ == orig[k as int].file_name@);
                    assert forall|j: int| 0 <= j < k + 1 implies has_path(
                        after,
                        #[trigger] orig[j].file_name@,
                    ) by {
                        if j == k {
                            assert(after[w].file_name@ == orig[j].file_name@);
                        } else {
                            let m = choose|m: int|
                                0 <= m < before.len() && #[trigger] before[m].file_name@
                                    == orig[j].file_name@;
                            let e = before[m];
                            if e.file_name@ == entry.file_name@ {
                                assert(after[w].file_name@ == orig[j].file_name@);
                            } else {
                                assert(before.contains(e));
                                assert(after.contains(e));
                                let v = choose|v: int| 0 <= v < after.len() && after[v] == e;
                                assert(after[v].file_name@ == orig[j].file_name@);
                            }
                        }
                    }
                    assert forall|e: FileEntry| #[trigger] after.contains(e) implies orig.contains(e) by {
                        if e == entry {
                            assert(orig[k as int] == e);
                        } else {
                            assert(before.contains(e));
                        }
                    }
                }
                k = k + 1;
            },
            None => {},
        }
    }
    index
}

/// Reading a saved index back yields the same set of records, whatever the order in
/// which the records were stored.
pub proof fn lemma_reload_same_records(saved: Seq<FileEntry>, read: Seq<FileEntry>, restored: Seq<FileEntry>)
    requires
        index_wf(saved),
        forall|e: FileEntry| #[trigger] read.contains(e) <==> saved.contains(e),
        restored_from(read, restored),
    ensures
        forall|e: FileEntry| #[trigger] restored.contains(e) <==> saved.contains(e),
{
    assert forall|e: FileEntry| saved.contains(e) implies #[trigger] restored.contains(e) by {
        assert(read.contains(e));
        let k = choose|k: int| 0 <= k < read.len() && read[k] == e;
        assert(has_path(restored, read[k].file_name@));
        let m = choose|m: int|
            0 <= m < restored.len() && #[trigger] restored[m].file_name@ == read[k].file_name@;
        let f = restored[m];
        assert(restored.contains(f));
        assert(saved.contains(f));
        let a = choose|a: int| 0 <= a < saved.len() && saved[a] == e;
        let b = choose|b: int| 0 <= b < saved.len() && saved[b] == f;
        if a < b {
            lemma_path_lt_asym(saved[a].file_name@, saved[b].file_name@);
        } else if b < a {
            lemma_path_lt_asym(saved[b].file_name@, saved[a].file_name@);
        }
    }
}

/// What a location on disk turned out to be.
#[derive(PartialEq, Eq, Structural, Clone, Copy, Debug)]
pub enum PathKind {
    Missing,
    File,
    Directory,
    Other,
}

/// Where the snapshot of an index is: the given path itself, or the well-known file
/// inside the given directory.
#[derive(PartialEq, Eq, Structural, Clone, Copy, Debug)]
pub enum HashDataLocation {
    Given,
    Inside,
}

/// How loading an index goes on once its snapshot is located.
#[derive(PartialEq, Eq, Structural, Clone, Copy, Debug)]
pub enum LoadPlan {
    StartEmpty,
    ReadSnapshot,
}

/// Resolves the snapshot of the index at `source_path`, of kind `source`; `inside` is
/// what the well-known file inside it is, where `source` is a directory. A directory
/// without that file is accepted only where the snapshot may be created.
pub fn get_hash_data_file_path(source_path: &str, source: PathKind, inside: PathKind, create: bool) -> (r: Result<
    HashDataLocation,
    AppError,
>)
    ensures
        source == PathKind::File ==> r == Ok::<HashDataLocation, AppError>(HashDataLocation::Given),
        source == PathKind::Directory && (inside == PathKind::File || create) ==> r == Ok::<
            HashDataLocation,
            AppError,
        >(HashDataLocation::Inside),
        source == PathKind::Directory && !(inside == PathKind::File || create) ==> r is Err
            && is_abort_with(r->Err_0, "Comparison path does not contain hash data file"@),
        source != PathKind::File && source != PathKind::Directory ==> r is Err
            && is_abort_with(r->Err_0, "Comparison path "@ + source_path@ + " not found"@),
{
    if source == PathKind::File {
        return Ok(HashDataLocation::Given);
    }
    if source == PathKind::Directory {
        if inside == PathKind::File || create {
            return Ok(HashDataLocation::Inside);
        } else {
            return Err(AppError::new(String::from_str("Comparison path does not contain hash data file")));
        }
    }
    let mut message = String::from_str("Comparison path ");
    message.append(source_path);
    message.append(" not found");
    Err(AppError::new(message))
}

/// Decides how to load from the snapshot at `target_path`, of kind `target`: a missing
/// snapshot starts an empty index where `create` allows it, and is an error otherwise;
/// anything there but a regular file is an error.
pub fn plan_load(target_path: &str, target: PathKind, create: bool) -> (r: Result<LoadPlan, AppError>)
    ensures
        target == PathKind::File ==> r == Ok::<LoadPlan, AppError>(LoadPlan::ReadSnapshot),
        target == PathKind::Missing && create ==> r == Ok::<LoadPlan, AppError>(LoadPlan::StartEmpty),
        target == PathKind::Missing && !create ==> r is Err
            && is_abort_with(r->Err_0, "Comparison hash data file not found"@),
        target == PathKind::Directory || target == PathKind::Other ==> r is Err
            && is_abort_with(r->Err_0, "Expected "@ + target_path@ + " to be a file"@),
{
    match target {
        PathKind::File => Ok(LoadPlan::ReadSnapshot),
        PathKind::Missing => {
            if create {
                Ok(LoadPlan::StartEmpty)
            } else {
                Err(AppError::new(String::from_str("Comparison hash data file not found")))
            }
        },
        _ => {
            let mut message = String::from_str("Expected ");
            message.append(target_path);
            message.append(" to be a file");
            Err(AppError::new(message))
        },
    }
}

} // verus!
