use vstd::prelude::*;
use vstd::string::StringExecFns;

use crate::errors::AppError;
use crate::errors::CaughtError;
use crate::errors::is_abort_with;
use crate::hash_data::FileEntry;
use crate::hash_data::index_wf;
use crate::hash_data::path_lt;
use crate::hash_data::has_path;
use crate::hash_data::find_entry;
use crate::hash_data::record_file;
use crate::hash_data::recorded;
use crate::hash_data::lemma_path_lt_asym;

verus! {

/// Whether the record of index position `t` is kept by a pruning pass that checked the
/// first `present.len()` records: records past that point were not checked and stay.
pub open spec fn kept(present: Seq<bool>, t: int) -> bool {
    t >= present.len() || present[t]
}

/// `r` is what pruning leaves of the index `s`: a sub-index holding exactly the records
/// that `kept` selects.
pub open spec fn pruned_from(s: Seq<FileEntry>, present: Seq<bool>, r: Seq<FileEntry>) -> bool {
    &&& index_wf(r)
    &&& forall|e: FileEntry| #[trigger] r.contains(e) ==> s.contains(e)
    &&& forall|t: int| 0 <= t < s.len() ==> (r.contains(#[trigger] s[t]) <==> kept(present, t))
}

/// Drops from the index the records whose file is gone. `present[t]` tells whether the
/// file of record `t` still exists; where the pass stopped early, `present` is shorter
/// than the index and the records it does not reach are kept.
pub fn scan_for_deleted(hash_data: Vec<FileEntry>, present: &Vec<bool>) -> (r: Vec<FileEntry>)
    requires
        index_wf(hash_data@),
        present.len() <= hash_data.len(),
    ensures
        pruned_from(hash_data@, present@, r@),
{
    let ghost s = hash_data@;
    let n = hash_data.len();
    let mut rest = hash_data;
    let mut reversed: Vec<FileEntry> = Vec::new();
    while rest.len() > 0
        invariant
            n == s.len(),
            rest.len() + reversed.len() == n,
            rest@ == s.subrange(0, rest.len() as int),
            forall|j: int| 0 <= j < reversed.len() ==> #[trigger] reversed@[j] == s[n - 1 - j],
        decreases rest.len(),
    {
        let ghost m = rest.len() as int;
        match rest.pop() {
            Some(entry) => {
                reversed.push(entry);
                proof {
                    assert(rest@ =~= s.subrange(0, m - 1));
                }
            },
            None => {},
        }
    }
    let mut result: Vec<FileEntry> = Vec::new();
    let mut i: usize = 0;
    while reversed.len() > 0
        invariant
            n == s.len(),
            index_wf(s),
            present.len() <= n,
            i + reversed.len() == n,
            forall|j: int| 0 <= j < reversed.len() ==> #[trigger] reversed@[j] == s[n - 1 - j],
            index_wf(result@),
            forall|e: FileEntry| #[trigger] result@.contains(e) ==> s.contains(e),
            forall|k: int, j: int|
                0 <= k < result.len() && i <= j < n ==> path_lt(
                    #[trigger] result@[k].file_name@,
                    #[trigger] s[j].file_name@,
                ),
            forall|t: int| 0 <= t < i ==> (result@.contains(#[trigger] s[t]) <==> kept(present@, t)),
        decreases reversed.len(),
    {
        let ghost before = result@;
        match reversed.pop() {
            Some(entry) => {
                proof {
                    assert(entry == s[i as int]);
                }
                let keep = i >= present.len() || present[i];
                if keep {
                    result.push(entry);
                }
                proof {
                    let after = result@;
                    if keep {
                        assert(after == before.push(s[i as int]));
                        assert forall|a: int, b: int| 0 <= a < b < after.len() implies path_lt(
                            #[trigger] after[a].file_name@,
                            #[trigger] after[b].file_name@,
                        ) by {
                            if b < before.len() {
                                assert(after[a] == before[a] && after[b] == before[b]);
                            } else {
                                assert(after[a] == before[a]);
                            }
                        }
                        assert forall|k: int, j: int|
                            0 <= k < after.len() && i + 1 <= j < n implies path_lt(
                            #[trigger] after[k].file_name@,
                            #[trigger] s[j].file_name@,
                        ) by {
                            if k < before.len() {
                                assert(after[k] == before[k]);
                            }
                        }
                        assert forall|e: FileEntry| #[trigger] after.contains(e) implies s.contains(e) by {
                            let w = choose|w: int| 0 <= w < after.len() && after[w] == e;
                            if w < before.len() {
                                assert(before[w] == e);
                                assert(before.contains(e));
                            } else {
                                assert(s[i as int] == e);
                                assert(s.contains(e));
                            }
                        }
                    }
                    assert forall|t: int| 0 <= t < i + 1 implies (after.contains(#[trigger] s[t])
                        <==> kept(present@, t)) by {
                        if t < i {
                            if keep && after.contains(s[t]) && !before.contains(s[t]) {
                                let w = choose|w: int| 0 <= w < after.len() && after[w] == s[t];
                                assert(w == before.len());
                                lemma_path_lt_asym(s[t].file_name@, s[i as int].file_name@);
                            }
                            if before.contains(s[t]) {
                                let w = choose|w: int| 0 <= w < before.len() && before[w] == s[t];
                                assert(after[w] == s[t]);
                            }
                        } else {
                            if keep {
                                assert(after[after.len() - 1] == s[t]);
                            } else if before.contains(s[t]) {
                                let w = choose|w: int| 0 <= w < before.len() && before[w] == s[t];
                                lemma_path_lt_asym(before[w].file_name@, s[t].file_name@);
                            }
                        }
                    }
                }
                i = i + 1;
            },
            None => {},
        }
    }
    result
}

/// After pruning, no record is left for a path whose file was found gone.
pub proof fn lemma_gone_file_absent(s: Seq<FileEntry>, present: Seq<bool>, r: Seq<FileEntry>, t: int)
    requires
        index_wf(s),
        pruned_from(s, present, r),
        0 <= t < present.len(),
        t < s.len(),
        !present[t],
    ensures
        !has_path(r, s[t].file_name@),
{
    if has_path(r, s[t].file_name@) {
        let m = choose|m: int| 0 <= m < r.len() && #[trigger] r[m].file_name@ == s[t].file_name@;
        assert(r.contains(r[m]));
        assert(s.contains(r[m]));
        let a = choose|a: int| 0 <= a < s.len() && s[a] == r[m];
        assert(r.contains(s[a]));
        if a < t {
            lemma_path_lt_asym(s[a].file_name@, s[t].file_name@);
        } else if a > t {
            lemma_path_lt_asym(s[t].file_name@, s[a].file_name@);
        }
    }
}

/// Whether the index holds a record for `path` whose size and modification time are
/// exactly `size` and `modified`.
pub open spec fn is_unchanged(s: Seq<FileEntry>, path: Seq<char>, size: u64, modified: u64) -> bool {
    exists|k: int|
        0 <= k < s.len() && #[trigger] s[k].file_name@ == path && s[k].file_size == size
            && s[k].modified == modified
}

/// Whether the file at `path`, now of `size` bytes and modified at `modified`, must be
/// hashed. A file whose record has the same size and modification time is taken as
/// unchanged and is not hashed again, even if its content differs.
pub fn needs_rehash(hash_data: &Vec<FileEntry>, path: &str, size: u64, modified: u64) -> (r: bool)
    requires
        index_wf(hash_data@),
    ensures
        r == !is_unchanged(hash_data@, path@, size, modified),
{
    match find_entry(hash_data, path) {
        Ok(i) => {
            let same = hash_data[i].file_size == size && hash_data[i].modified == modified;
            proof {
                if !same {
                    assert forall|k: int| 0 <= k < hash_data@.len() && #[trigger] hash_data@[k].file_name@
                        == path@ implies !(hash_data@[k].file_size == size && hash_data@[k].modified
                        == modified) by {
                        if k < i {
                            lemma_path_lt_asym(hash_data@[k].file_name@, hash_data@[i as int].file_name@);
                        } else if k > i {
                            lemma_path_lt_asym(hash_data@[i as int].file_name@, hash_data@[k].file_name@);
                        }
                    }
                }
            }
            !same
        },
        Err(_) => true,
    }
}

/// A file whose size or modification time differs from its record must be hashed
/// again, and recording the new digest leaves that digest, size and time as the only
/// record for its path.
pub proof fn lemma_change_forces_rehash(
    before: Seq<FileEntry>,
    after: Seq<FileEntry>,
    k: int,
    entry: FileEntry,
)
    requires
        index_wf(before),
        0 <= k < before.len(),
        entry.file_name@ == before[k].file_name@,
        entry.file_size != before[k].file_size || entry.modified != before[k].modified,
        recorded(before, after, entry),
    ensures
        !is_unchanged(before, entry.file_name@, entry.file_size, entry.modified),
        forall|e: FileEntry|
            #[trigger] after.contains(e) && e.file_name@ == entry.file_name@ ==> e == entry,
        after.contains(entry),
{
    assert forall|j: int|
        0 <= j < before.len() && #[trigger] before[j].file_name@ == entry.file_name@ implies !(
        before[j].file_size == entry.file_size && before[j].modified == entry.modified) by {
        if j < k {
            lemma_path_lt_asym(before[j].file_name@, before[k].file_name@);
        } else if j > k {
            lemma_path_lt_asym(before[k].file_name@, before[j].file_name@);
        }
    }
}

/// How hashing a file ended.
pub enum HashOutcome {
    /// The lowercase hex digest of the whole content.
    Completed(String),
    /// An abort was requested before the last chunk was read.
    Aborted,
    /// Reading the file failed.
    Failed(CaughtError),
}

/// The error that stops a pass on an abort request.
pub fn abort_error() -> (r: AppError)
    ensures
        is_abort_with(r, "Abort key pressed"@),
{
    AppError::new(String::from_str("Abort key pressed"))
}

/// Applies the outcome of hashing the file at `file_name`: a completed digest is
/// recorded with the size and modification time read before hashing; an abort or a
/// read failure leaves the index as it was and stops the pass.
pub fn commit_hash(
    hash_data: &mut Vec<FileEntry>,
    file_name: String,
    file_size: u64,
    modified: u64,
    outcome: HashOutcome,
) -> (r: Result<(), AppError>)
    requires
        index_wf(old(hash_data)@),
    ensures
        index_wf(final(hash_data)@),
        outcome matches HashOutcome::Completed(d) ==> r is Ok && recorded(
            old(hash_data)@,
            final(hash_data)@,
            (FileEntry { file_name, file_size, hash: d, modified }),
        ),
        outcome is Aborted ==> final(hash_data)@ == old(hash_data)@ && r is Err && is_abort_with(
            r->Err_0,
            "Abort key pressed"@,
        ),
        outcome matches HashOutcome::Failed(e) ==> final(hash_data)@ == old(hash_data)@ && r
            == Err::<(), AppError>(AppError::Caught(e)),
{
    match outcome {
        HashOutcome::Completed(hash) => {
            record_file(hash_data, FileEntry { file_name, file_size, hash, modified });
            Ok(())
        },
        HashOutcome::Aborted => Err(abort_error()),
        HashOutcome::Failed(e) => Err(AppError::Caught(e)),
    }
}

/// The progress through a directory, in whole percent, once its file number `index`
/// (from zero) of `total` is under way.
pub fn progress_percent(index: usize, total: usize) -> (r: usize)
    requires
        index < total,
        (index + 1) * 100 <= usize::MAX,
    ensures
        r == (index + 1) * 100 / total as int,
        r <= 100,
{
    let r = (index + 1) * 100 / total;
    proof {
        assert((index + 1) * 100 / total as int <= 100) by (nonlinear_arith)
            requires
                index < total,
        ;
    }
    r
}

} // verus!
