//! The processes shown on the dashboard: the largest by memory.
use vstd::prelude::*;

verus! {

/// Process `a` (PID, memory in bytes) ranks before `b`: more memory first,
/// then the lower PID.
pub open spec fn ranks_before(a: (u32, u64), b: (u32, u64)) -> bool {
    b.1 < a.1 || (a.1 == b.1 && a.0 < b.0)
}

/// `list` holds indices into `entries` in ranking order.
pub open spec fn ranked(list: Seq<usize>, entries: Seq<(u32, u64)>) -> bool {
    forall|i: int, j: int|
        0 <= i < j < list.len() ==> ranks_before(
            entries[#[trigger] list[i] as int],
            entries[#[trigger] list[j] as int],
        )
}

/// More memory always ranks first; equal memory ranks by lower PID.
pub proof fn lemma_rank_is_by_memory(a: (u32, u64), b: (u32, u64))
    ensures
        b.1 < a.1 ==> ranks_before(a, b),
        ranks_before(a, b) ==> b.1 <= a.1,
        a.1 == b.1 ==> (ranks_before(a, b) <==> a.0 < b.0),
{
}

pub open spec fn distinct_pids(entries: Seq<(u32, u64)>) -> bool {
    forall|i: int, j: int| 0 <= i < entries.len() && 0 <= j < entries.len() && i != j ==> entries[i].0 != entries[j].0
}

fn ranks_first(a: (u32, u64), b: (u32, u64)) -> (r: bool)
    ensures
        r == ranks_before(a, b),
{
    b.1 < a.1 || (a.1 == b.1 && a.0 < b.0)
}

/// The `limit` processes that rank first, in ranking order, as indices into
/// `entries` (fewer when there are fewer processes).
pub fn top_by_memory(entries: &Vec<(u32, u64)>, limit: usize) -> (top: Vec<usize>)
    requires
        distinct_pids(entries@),
    ensures
        top@.len() == if limit < entries@.len() {
            limit as int
        } else {
            entries@.len() as int
        },
        forall|i: int| 0 <= i < top@.len() ==> (#[trigger] top@[i]) < entries@.len(),
        top@.no_duplicates(),
        ranked(top@, entries@),
        forall|y: usize|
            y < entries@.len() && !top@.contains(y) ==> forall|i: int|
                0 <= i < top@.len() ==> ranks_before(entries@[#[trigger] top@[i] as int], entries@[y as int]),
        // by memory: largest first, and none left out has more than one kept
        forall|i: int, j: int|
            0 <= i < j < top@.len() ==> entries@[#[trigger] top@[j] as int].1 <= entries@[#[trigger] top@[i] as int].1,
        forall|y: usize, i: int|
            y < entries@.len() && !top@.contains(y) && 0 <= i < top@.len() ==> (#[trigger] entries@[y as int]).1
                <= entries@[#[trigger] top@[i] as int].1,
{
    let n = entries.len();
    let mut top: Vec<usize> = Vec::new();
    let mut t: usize = 0;
    while t < n
        invariant
            n == entries@.len(),
            distinct_pids(entries@),
            t <= n,
            top@.len() == if limit < t {
                limit as int
            } else {
                t as int
            },
            forall|i: int| 0 <= i < top@.len() ==> (#[trigger] top@[i]) < t,
            top@.no_duplicates(),
            ranked(top@, entries@),
            forall|y: usize|
                y < t && !top@.contains(y) ==> forall|i: int|
                    0 <= i < top@.len() ==> ranks_before(entries@[#[trigger] top@[i] as int], entries@[y as int]),
            limit >= t ==> forall|y: usize| y < t ==> #[trigger] top@.contains(y),
        decreases n - t,
    {
        let x = t;
        let mut pos: usize = 0;
        while pos < top.len() && !ranks_first(entries[x], entries[top[pos]])
            invariant
                pos <= top@.len(),
                forall|i: int| 0 <= i < top@.len() ==> (#[trigger] top@[i]) < t,
                t < n,
                n == entries@.len(),
                x == t,
                forall|q: int| 0 <= q < pos ==> !ranks_before(entries@[x as int], entries@[#[trigger] top@[q] as int]),
            decreases top@.len() - pos,
        {
            pos += 1;
        }
        let ghost old_top = top@;
        proof {
            assert forall|q: int| 0 <= q < pos implies ranks_before(entries@[#[trigger] old_top[q] as int], entries@[x as int]) by {
                assert(old_top[q] < t);
                assert(entries@[old_top[q] as int].0 != entries@[x as int].0);
            }
            assert forall|q: int| pos <= q < old_top.len() implies ranks_before(entries@[x as int], entries@[#[trigger] old_top[q] as int]) by {
                if q > pos {
                    assert(ranks_before(entries@[old_top[pos as int] as int], entries@[old_top[q] as int]));
                }
            }
        }
        if pos < limit {
            top.insert(pos, x);
            let ghost inserted = top@;
            proof {
                assert(inserted == old_top.insert(pos as int, x));
                assert forall|i: int, j: int| 0 <= i < j < inserted.len() implies ranks_before(
                    entries@[#[trigger] inserted[i] as int],
                    entries@[#[trigger] inserted[j] as int],
                ) by {
                    if i < pos && j < pos {
                        assert(inserted[i] == old_top[i] && inserted[j] == old_top[j]);
                    } else if i < pos && j == pos {
                        assert(inserted[i] == old_top[i]);
                    } else if i < pos {
                        assert(inserted[i] == old_top[i] && inserted[j] == old_top[j - 1]);
                    } else if i == pos {
                        assert(inserted[j] == old_top[j - 1]);
                    } else {
                        assert(inserted[i] == old_top[i - 1] && inserted[j] == old_top[j - 1]);
                    }
                }
            }
            if top.len() > limit {
                top.pop();
            }
            proof {
                assert forall|i: int| 0 <= i < top@.len() implies (#[trigger] top@[i]) < t + 1 by {
                    if i < pos {
                        assert(top@[i] == old_top[i]);
                    } else if i > pos {
                        assert(top@[i] == old_top[i - 1]);
                    }
                }
                assert(top@.no_duplicates()) by {
                    assert forall|i: int, j: int| 0 <= i < top@.len() && 0 <= j < top@.len() && i != j implies top@[i] != top@[j] by {
                        let (a, b) = if i < j { (i, j) } else { (j, i) };
                        assert(ranks_before(entries@[top@[a] as int], entries@[top@[b] as int]));
                    }
                }
                assert forall|y: usize|
                    y < t + 1 && !top@.contains(y) implies forall|i: int|
                        0 <= i < top@.len() ==> ranks_before(entries@[#[trigger] top@[i] as int], entries@[y as int]) by {
                    assert forall|i: int| 0 <= i < top@.len() implies ranks_before(entries@[#[trigger] top@[i] as int], entries@[y as int]) by {
                        if y == x {
                            assert(top@[pos as int] == x);
                        } else if old_top.contains(y) {
                            // y was the last one and was dropped
                            let k = choose|k: int| 0 <= k < old_top.len() && old_top[k] == y;
                            if k < pos {
                                assert(top@[k] == y);
                            } else if k + 1 < top@.len() {
                                assert(top@[k + 1] == y);
                            }
                            assert(inserted[k + 1] == y);
                            assert(ranks_before(entries@[inserted[i] as int], entries@[inserted[k + 1] as int]));
                        } else {
                            assert(y < t);
                            if i < pos {
                                assert(top@[i] == old_top[i]);
                            } else if i == pos {
                                assert(top@[i] == x);
                                if pos < old_top.len() {
                                    assert(ranks_before(entries@[x as int], entries@[old_top[pos as int] as int]));
                                    assert(ranks_before(entries@[old_top[pos as int] as int], entries@[y as int]));
                                } else {
                                    assert(old_top.len() == t);
                                    assert(old_top.contains(y)) by {
                                        assert(false);
                                    }
                                }
                            } else {
                                assert(top@[i] == old_top[i - 1]);
                            }
                        }
                    }
                }
            }
            proof {
                if limit >= t + 1 {
                    assert forall|y: usize| y < t + 1 implies #[trigger] top@.contains(y) by {
                        if y == x {
                            assert(top@[pos as int] == x);
                        } else {
                            assert(old_top.contains(y));
                            let k = choose|k: int| 0 <= k < old_top.len() && old_top[k] == y;
                            if k < pos {
                                assert(top@[k] == y);
                            } else {
                                assert(top@[k + 1] == y);
                            }
                        }
                    }
                }
            }
        } else {
            proof {
                assert forall|y: usize|
                    y < t + 1 && !top@.contains(y) implies forall|i: int|
                        0 <= i < top@.len() ==> ranks_before(entries@[#[trigger] top@[i] as int], entries@[y as int]) by {
                    if y == x {
                        assert forall|i: int| 0 <= i < top@.len() implies ranks_before(entries@[#[trigger] top@[i] as int], entries@[y as int]) by {
                            assert(i < pos);
                        }
                    }
                }
            }
        }
        t += 1;
    }
    proof {
        assert forall|y: usize, i: int|
            y < entries@.len() && !top@.contains(y) && 0 <= i < top@.len() implies (#[trigger] entries@[y as int]).1
                <= entries@[#[trigger] top@[i] as int].1 by {
            assert(ranks_before(entries@[top@[i] as int], entries@[y as int]));
        }
    }
    top
}

} // verus!
