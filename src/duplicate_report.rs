use vstd::prelude::*;

use crate::byte_size::ByteSize;
use core::cmp::Ordering;

use crate::hash_data::FileEntry;
use crate::hash_data::compare_paths;
use crate::hash_data::path_lt;
use crate::hash_data::lemma_path_lt_asym;
use crate::hash_data::lemma_path_lt_trans;

verus! {

/// Records that share one digest.
pub struct DuplicateGroup {
    pub hash: String,
    pub files: Vec<FileEntry>,
}

/// The records of `s` whose digest is `d`, in the order of `s`.
pub open spec fn members(s: Seq<FileEntry>, d: Seq<char>) -> Seq<FileEntry>
    decreases s.len(),
{
    if s.len() == 0 {
        Seq::empty()
    } else {
        let m = members(s.drop_last(), d);
        if s.last().hash@ == d {
            m.push(s.last())
        } else {
            m
        }
    }
}

/// Every record that a report compares: the scanned index, then the other one.
pub open spec fn all_records(data: Seq<FileEntry>, other: Option<Vec<FileEntry>>) -> Seq<FileEntry> {
    match other {
        Some(o) => data + o@,
        None => data,
    }
}

/// The smallest size a reported group may have; one byte where none is given.
pub open spec fn min_size(minimum: Option<ByteSize>) -> int {
    match minimum {
        Some(b) => b.spec_bytes(),
        None => 1,
    }
}

/// Whether one of `g` is the group of digest `d`.
pub open spec fn has_group(g: Seq<DuplicateGroup>, d: Seq<char>) -> bool {
    exists|i: int| 0 <= i < g.len() && (#[trigger] g[i]).hash@ == d
}

/// Whether the records with digest `d` form a group to report: two or more of them,
/// the first of which is at least `min` bytes.
pub open spec fn qualifies(all: Seq<FileEntry>, d: Seq<char>, min: int) -> bool {
    members(all, d).len() >= 2 && members(all, d)[0].file_size >= min
}

/// The size a group is reported with: that of its first record.
pub open spec fn group_size(g: DuplicateGroup) -> u64 {
    g.files@[0].file_size
}

/// `r` is the report on `all`: one group for each digest that qualifies, holding all
/// records with that digest in their order, the groups by size, largest first.
pub open spec fn is_report(all: Seq<FileEntry>, min: int, r: Seq<DuplicateGroup>) -> bool {
    &&& forall|i: int|
        0 <= i < r.len() ==> (#[trigger] r[i]).files@ == members(all, r[i].hash@) && qualifies(
            all,
            r[i].hash@,
            min,
        )
    &&& forall|i: int, j: int| 0 <= i < j < r.len() ==> (#[trigger] r[i]).hash@ != (#[trigger] r[j]).hash@
    &&& forall|k: int|
        0 <= k < all.len() && qualifies(all, (#[trigger] all[k]).hash@, min) ==> exists|i: int|
            0 <= i < r.len() && (#[trigger] r[i]).hash@ == all[k].hash@
    &&& forall|i: int, j: int|
        0 <= i < j < r.len() ==> group_size(#[trigger] r[i]) >= group_size(#[trigger] r[j])
}

proof fn lemma_members_step(s: Seq<FileEntry>, k: int, d: Seq<char>)
    requires
        0 <= k < s.len(),
    ensures
        members(s.take(k + 1), d) == if s[k].hash@ == d {
            members(s.take(k), d).push(s[k])
        } else {
            members(s.take(k), d)
        },
{
    assert(s.take(k + 1).drop_last() =~= s.take(k));
}

/// Groups ordered by digest, in the order of paths in an index.
pub open spec fn groups_sorted(g: Seq<DuplicateGroup>) -> bool {
    forall|a: int, b: int| 0 <= a < b < g.len() ==> path_lt(#[trigger] g[a].hash@, #[trigger] g[b].hash@)
}

/// Binary search of groups ordered by digest: `Ok` with the position of the group of
/// `hash`, or `Err` with the position where it would keep the order.
fn find_group(groups: &Vec<DuplicateGroup>, hash: &str) -> (r: Result<usize, usize>)
    requires
        groups_sorted(groups@),
    ensures
        r is Ok ==> r->Ok_0 < groups@.len() && groups@[r->Ok_0 as int].hash@ == hash@,
        r is Err ==> {
            &&& r->Err_0 <= groups@.len()
            &&& !has_group(groups@, hash@)
            &&& forall|k: int| 0 <= k < r->Err_0 ==> path_lt(#[trigger] groups@[k].hash@, hash@)
            &&& forall|k: int|
                r->Err_0 <= k < groups@.len() ==> path_lt(hash@, #[trigger] groups@[k].hash@)
        },
{
    let ghost s = groups@;
    let mut lo: usize = 0;
    let mut hi: usize = groups.len();
    while lo < hi
        invariant
            s == groups@,
            groups_sorted(s),
            0 <= lo <= hi <= s.len(),
            forall|k: int| 0 <= k < lo ==> path_lt(#[trigger] s[k].hash@, hash@),
            forall|k: int| hi <= k < s.len() ==> path_lt(hash@, #[trigger] s[k].hash@),
        decreases hi - lo,
    {
        let mid = lo + (hi - lo) / 2;
        match compare_paths(groups[mid].hash.as_str(), hash) {
            Ordering::Equal => {
                return Ok(mid);
            },
            Ordering::Less => {
                proof {
                    assert forall|k: int| 0 <= k < mid + 1 implies path_lt(#[trigger] s[k].hash@, hash@) by {
                        if k < mid {
                            lemma_path_lt_trans(s[k].hash@, s[mid as int].hash@, hash@);
                        }
                    }
                }
                lo = mid + 1;
            },
            Ordering::Greater => {
                proof {
                    assert forall|k: int| mid <= k < s.len() implies path_lt(hash@, #[trigger] s[k].hash@) by {
                        if k > mid {
                            lemma_path_lt_trans(hash@, s[mid as int].hash@, s[k].hash@);
                        }
                    }
                }
                hi = mid;
            },
        }
    }
    proof {
        assert forall|k: int| 0 <= k < s.len() implies #[trigger] s[k].hash@ != hash@ by {
            if k < lo {
                lemma_path_lt_asym(s[k].hash@, hash@);
            } else {
                lemma_path_lt_asym(hash@, s[k].hash@);
            }
        }
    }
    Err(lo)
}

/// Groups by digest.
fn group_by_hash(all: Vec<FileEntry>) -> (r: Vec<DuplicateGroup>)
    ensures
        forall|i: int|
            0 <= i < r.len() ==> (#[trigger] r[i]).files@ == members(all@, r[i].hash@)
                && r[i].files.len() >= 1,
        forall|i: int, j: int| 0 <= i < j < r.len() ==> (#[trigger] r[i]).hash@ != (#[trigger] r[j]).hash@,
        forall|k: int| 0 <= k < all@.len() ==> has_group(r@, (#[trigger] all@[k]).hash@),
{
    let ghost s = all@;
    let n = all.len();
    let mut rest = all;
    let mut reversed: Vec<FileEntry> = Vec::new();
    while rest.len() > 0
        invariant
            n == s.len(),
            rest.len() + reversed.len() == n,
            rest@ == s.subrange(0, rest.len() as int),
            forall|j: int| 0 <= j < reversed.len() ==> #[trigger] reversed@[j] == s[n - 1 - j],
        decreases rest.len(),
    {
        let ghost m = rest.len() as int;
        match rest.pop() {
            Some(entry) => {
                reversed.push(entry);
                proof {
                    assert(rest@ =~= s.subrange(0, m - 1));
                }
            },
            None => {},
        }
    }
    let mut groups: Vec<DuplicateGroup> = Vec::new();
    let mut k: usize = 0;
    while reversed.len() > 0
        invariant
            n == s.len(),
            k + reversed.len() == n,
            forall|j: int| 0 <= j < reversed.len() ==> #[trigger] reversed@[j] == s[n - 1 - j],
            forall|i: int|
                0 <= i < groups.len() ==> (#[trigger] groups[i]).files@ == members(
                    s.take(k as int),
                    groups[i].hash@,
                ) && groups[i].files.len() >= 1,
            groups_sorted(groups@),
            forall|j: int| 0 <= j < k ==> has_group(groups@, (#[trigger] s[j]).hash@),
            forall|d: Seq<char>|
                !has_group(groups@, d) ==> #[trigger] members(s.take(k as int), d).len() == 0,
        decreases reversed.len(),
    {
        let ghost before = groups@;
        match reversed.pop() {
            Some(entry) => {
                proof {
                    assert(entry == s[k as int]);
                }
                let ghost d = entry.hash@;
                match find_group(&groups, entry.hash.as_str()) {
                    Ok(gi) => {
                        groups[gi].files.push(entry);
                        proof {
                            assert forall|i: int| 0 <= i < groups.len() implies (#[trigger] groups[i]).files@
                                == members(s.take(k + 1), groups[i].hash@) && groups[i].files.len() >= 1 by {
                                lemma_members_step(s, k as int, groups[i].hash@);
                                if i < gi {
                                    assert(groups[i] == before[i]);
                                    lemma_path_lt_asym(before[i].hash@, before[gi as int].hash@);
                                } else if i > gi {
                                    assert(groups[i] == before[i]);
                                    lemma_path_lt_asym(before[gi as int].hash@, before[i].hash@);
                                }
                            }
                            assert forall|a: int, b: int| 0 <= a < b < groups.len() implies path_lt(
                                #[trigger] groups@[a].hash@,
                                #[trigger] groups@[b].hash@,
                            ) by {
                                assert(groups[a].hash == before[a].hash);
                                assert(groups[b].hash == before[b].hash);
                            }
                            assert forall|e: Seq<char>| has_group(before, e) implies has_group(groups@, e) by {
                                let i = choose|i: int| 0 <= i < before.len() && (#[trigger] before[i]).hash@ == e;
                                assert(groups[i].hash == before[i].hash);
                                assert(groups@[i].hash@ == e);
                            }
                            assert forall|e: Seq<char>| has_group(groups@, e) implies has_group(before, e) by {
                                let i = choose|i: int| 0 <= i < groups.len() && (#[trigger] groups@[i]).hash@ == e;
                                assert(groups[i].hash == before[i].hash);
                                assert(before[i].hash@ == e);
                            }
                            assert(has_group(groups@, d)) by {
                                assert(groups@[gi as int].hash@ == d);
                            }
                            assert forall|e: Seq<char>| !has_group(groups@, e) implies #[trigger] members(
                                s.take(k + 1),
                                e,
                            ).len() == 0 by {
                                lemma_members_step(s, k as int, e);
                            }
                        }
                    },
                    Err(gi) => {
                        let mut files: Vec<FileEntry> = Vec::new();
                        let hash = entry.hash.clone();
                        files.push(entry);
                        let group = DuplicateGroup { hash, files };
                        groups.insert(gi, group);
                        proof {
                            let g = groups@;
                            assert(g == before.insert(gi as int, group));
                            lemma_members_step(s, k as int, d);
                            assert(members(s.take(k as int), d).len() == 0);
                            assert(group.files@ =~= members(s.take(k + 1), d));
                            assert forall|i: int| 0 <= i < g.len() implies (#[trigger] g[i]).files@ == members(
                                s.take(k + 1),
                                g[i].hash@,
                            ) && g[i].files.len() >= 1 by {
                                lemma_members_step(s, k as int, g[i].hash@);
                                if i < gi {
                                    assert(g[i] == before[i]);
                                } else if i > gi {
                                    assert(g[i] == before[i - 1]);
                                    assert(before[i - 1].hash@ != d);
                                }
                            }
                            assert forall|a: int, b: int| 0 <= a < b < g.len() implies path_lt(
                                #[trigger] g[a].hash@,
                                #[trigger] g[b].hash@,
                            ) by {
                                if b < gi {
                                    assert(g[a] == before[a] && g[b] == before[b]);
                                } else if b == gi {
                                    assert(g[a] == before[a]);
                                } else if a < gi {
                                    assert(g[a] == before[a] && g[b] == before[b - 1]);
                                    lemma_path_lt_trans(before[a].hash@, d, before[b - 1].hash@);
                                } else if a == gi {
                                    assert(g[b] == before[b - 1]);
                                } else {
                                    assert(g[a] == before[a - 1] && g[b] == before[b - 1]);
                                }
                            }
                            assert forall|e: Seq<char>| has_group(before, e) implies has_group(g, e) by {
                                let i = choose|i: int| 0 <= i < before.len() && (#[trigger] before[i]).hash@ == e;
                                if i < gi {
                                    assert(g[i] == before[i]);
                                } else {
                                    assert(g[i + 1] == before[i]);
                                }
                            }
                            assert(has_group(g, d)) by {
                                assert(g[gi as int].hash@ == d);
                            }
                            assert forall|e: Seq<char>| !has_group(g, e) implies #[trigger] members(
                                s.take(k + 1),
                                e,
                            ).len() == 0 by {
                                lemma_members_step(s, k as int, e);
                            }
                        }
                    },
                }
                k = k + 1;
            },
            None => {},
        }
    }
    proof {
        assert(s.take(n as int) =~= s);
        assert forall|i: int, j: int| 0 <= i < j < groups.len() implies (#[trigger] groups[i]).hash@
            != (#[trigger] groups[j]).hash@ by {
            lemma_path_lt_asym(groups@[i].hash@, groups@[j].hash@);
        }
    }
    groups
}

/// The duplicate report on `data_file` and, where given, `other_data_file`: records are
/// grouped by digest, groups of fewer than two records or whose first record is below
/// `minimum` (one byte where none is given) are left out, and the rest come largest
/// first. Groups of equal size come in no set order.
pub fn find_duplicates(
    data_file: Vec<FileEntry>,
    other_data_file: Option<Vec<FileEntry>>,
    minimum: Option<ByteSize>,
) -> (r: Vec<DuplicateGroup>)
    ensures
        is_report(all_records(data_file@, other_data_file), min_size(minimum), r@),
{
    let ghost all = all_records(data_file@, other_data_file);
    let ghost min = min_size(minimum);
    let mut records = data_file;
    match other_data_file {
        Some(other) => {
            let mut other = other;
            records.append(&mut other);
        },
        None => {},
    }
    assert(records@ =~= all);
    let (limit_ok, limit) = match minimum {
        Some(b) => if b.fits() {
            (true, b.bytes())
        } else {
            (false, 0)
        },
        None => (true, 1),
    };
    assert(limit_ok ==> limit == min);
    assert(!limit_ok ==> min > u64::MAX);
    let mut groups = group_by_hash(records);
    let mut result: Vec<DuplicateGroup> = Vec::new();
    while groups.len() > 0
        invariant
            limit_ok ==> limit == min,
            !limit_ok ==> min > u64::MAX,
            forall|i: int|
                0 <= i < groups.len() ==> (#[trigger] groups[i]).files@ == members(all, groups[i].hash@)
                    && groups[i].files.len() >= 1,
            forall|i: int, j: int|
                0 <= i < j < groups.len() ==> (#[trigger] groups[i]).hash@ != (#[trigger] groups[j]).hash@,
            forall|i: int|
                0 <= i < result.len() ==> (#[trigger] result[i]).files@ == members(all, result[i].hash@)
                    && qualifies(all, result[i].hash@, min),
            forall|i: int, j: int|
                0 <= i < j < result.len() ==> (#[trigger] result[i]).hash@ != (#[trigger] result[j]).hash@,
            forall|i: int, j: int|
                0 <= i < result.len() && 0 <= j < groups.len() ==> (#[trigger] result[i]).hash@
                    != (#[trigger] groups[j]).hash@,
            forall|i: int, j: int|
                0 <= i < j < result.len() ==> group_size(#[trigger] result[i]) >= group_size(
                    #[trigger] result[j],
                ),
            forall|k: int|
                0 <= k < all.len() && qualifies(all, (#[trigger] all[k]).hash@, min) ==> has_group(
                    groups@,
                    all[k].hash@,
                ) || has_group(result@, all[k].hash@),
        decreases groups.len(),
    {
        let ghost gs = groups@;
        let ghost rs = result@;
        match groups.pop() {
            Some(g) => {
                let ghost last = gs.len() - 1;
                proof {
                    assert(g == gs[last]);
                    assert(groups@ =~= gs.subrange(0, last));
                }
                let keep = limit_ok && g.files.len() >= 2 && g.files[0].file_size >= limit;
                assert(keep == qualifies(all, g.hash@, min));
                if keep {
                    let size = g.files[0].file_size;
                    let mut p: usize = 0;
                    while p < result.len() && result[p].files[0].file_size >= size
                        invariant
                            result@ == rs,
                            0 <= p <= result.len(),
                            forall|i: int| 0 <= i < result.len() ==> (#[trigger] result[i]).files.len() >= 2,
                            forall|i: int| 0 <= i < p ==> group_size(#[trigger] result[i]) >= size,
                        decreases result.len() - p,
                    {
                        p = p + 1;
                    }
                    result.insert(p, g);
                    proof {
                        let rr = result@;
                        assert(rr == rs.insert(p as int, g));
                        assert(group_size(g) == size);
                        assert forall|i: int| 0 <= i < rr.len() implies (#[trigger] rr[i]).files@ == members(
                            all,
                            rr[i].hash@,
                        ) && qualifies(all, rr[i].hash@, min) by {
                            if i < p {
                                assert(rr[i] == rs[i]);
                            } else if i > p {
                                assert(rr[i] == rs[i - 1]);
                            }
                        }
                        assert forall|i: int, j: int| 0 <= i < j < rr.len() implies (#[trigger] rr[i]).hash@
                            != (#[trigger] rr[j]).hash@ by {
                            if j < p {
                                assert(rr[i] == rs[i] && rr[j] == rs[j]);
                            } else if j == p {
                                assert(rr[i] == rs[i]);
                                assert(rs[i].hash@ != gs[last].hash@);
                            } else if i < p {
                                assert(rr[i] == rs[i] && rr[j] == rs[j - 1]);
                            } else if i == p {
                                assert(rr[j] == rs[j - 1]);
                                assert(rs[j - 1].hash@ != gs[last].hash@);
                            } else {
                                assert(rr[i] == rs[i - 1] && rr[j] == rs[j - 1]);
                            }
                        }
                        assert forall|i: int, j: int| 0 <= i < rr.len() && 0 <= j < groups.len() implies (
                        #[trigger] rr[i]).hash@ != (#[trigger] groups[j]).hash@ by {
                            assert(groups[j] == gs[j]);
                            if i < p {
                                assert(rr[i] == rs[i]);
                            } else if i > p {
                                assert(rr[i] == rs[i - 1]);
                            } else {
                                assert(gs[j].hash@ != gs[last].hash@);
                            }
                        }
                        assert forall|i: int, j: int| 0 <= i < j < rr.len() implies group_size(#[trigger] rr[i])
                            >= group_size(#[trigger] rr[j]) by {
                            if j < p {
                                assert(rr[i] == rs[i] && rr[j] == rs[j]);
                            } else if j == p {
                                assert(rr[i] == rs[i]);
                            } else if i < p {
                                assert(rr[i] == rs[i] && rr[j] == rs[j - 1]);
                                assert(group_size(rs[i]) >= size);
                                assert(group_size(rs[p as int]) < size);
                                if j - 1 > p {
                                    assert(group_size(rs[p as int]) >= group_size(rs[j - 1]));
                                }
                            } else if i == p {
                                assert(rr[j] == rs[j - 1]);
                                assert(group_size(rs[p as int]) < size);
                                if j - 1 > p {
                                    assert(group_size(rs[p as int]) >= group_size(rs[j - 1]));
                                }
                            } else {
                                assert(rr[i] == rs[i - 1] && rr[j] == rs[j - 1]);
                            }
                        }
                        assert forall|k: int| 0 <= k < all.len() && qualifies(all, (#[trigger] all[k]).hash@, min)
                            implies has_group(groups@, all[k].hash@) || has_group(rr, all[k].hash@) by {
                            let d = all[k].hash@;
                            if has_group(gs, d) {
                                let j = choose|j: int| 0 <= j < gs.len() && (#[trigger] gs[j]).hash@ == d;
                                if j < last {
                                    assert(groups@[j] == gs[j]);
                                } else {
                                    assert(rr[p as int].hash@ == d);
                                }
                            } else {
                                let i = choose|i: int| 0 <= i < rs.len() && (#[trigger] rs[i]).hash@ == d;
                                if i < p {
                                    assert(rr[i] == rs[i]);
                                } else {
                                    assert(rr[i + 1] == rs[i]);
                                }
                            }
                        }
                    }
                } else {
                    proof {
                        assert forall|k: int| 0 <= k < all.len() && qualifies(all, (#[trigger] all[k]).hash@, min)
                            implies has_group(groups@, all[k].hash@) || has_group(rs, all[k].hash@) by {
                            let d = all[k].hash@;
                            if has_group(gs, d) {
                                let j = choose|j: int| 0 <= j < gs.len() && (#[trigger] gs[j]).hash@ == d;
                                if j < last {
                                    assert(groups@[j] == gs[j]);
                                }
                            }
                        }
                        assert forall|i: int, j: int| 0 <= i < rs.len() && 0 <= j < groups.len() implies (
                        #[trigger] rs[i]).hash@ != (#[trigger] groups@[j]).hash@ by {
                            assert(groups@[j] == gs[j]);
                        }
                    }
                }
            },
            None => {},
        }
    }
    result
}

/// A size in the largest decimal unit, up to terabytes, that leaves at least one whole
/// unit; the count is truncated.
pub fn format_file_size(size: u64) -> (r: (u64, &'static str))
    ensures
        size < 1_000 ==> r.0 == size && r.1@ == "B"@,
        1_000 <= size < 1_000_000 ==> r.0 == size / 1_000 && r.1@ == "KB"@,
        1_000_000 <= size < 1_000_000_000 ==> r.0 == size / 1_000_000 && r.1@ == "MB"@,
        1_000_000_000 <= size < 1_000_000_000_000 ==> r.0 == size / 1_000_000_000 && r.1@ == "GB"@,
        1_000_000_000_000 <= size ==> r.0 == size / 1_000_000_000_000 && r.1@ == "TB"@,
{
    if size < 1_000 {
        (size, "B")
    } else if size < 1_000_000 {
        (size / 1_000, "KB")
    } else if size < 1_000_000_000 {
        (size / 1_000_000, "MB")
    } else if size < 1_000_000_000_000 {
        (size / 1_000_000_000, "GB")
    } else {
        (size / 1_000_000_000_000, "TB")
    }
}

} // verus!
