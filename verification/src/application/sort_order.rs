//! The order of siblings and roots in a process tree: by PID, by CPU usage
//! (descending), by memory (descending) or by name (ascending), ties by PID.
use crate::domain::process::{ProcessInfo, ProcessSort};
use vstd::prelude::*;

verus! {

/// The integer that orders 32-bit float bit patterns as `f32::total_cmp`
/// orders the floats: negative values have their magnitude bits flipped.
pub open spec fn cpu_order_key(bits: u32) -> i32 {
    let left = bits as i32;
    left ^ ((((left >> 31u32) as u32) >> 1u32) as i32)
}

/// The key orders CPU usages as `f32::total_cmp` orders the floats, read
/// from their IEEE-754 bit patterns: among non-negative floats (sign bit
/// clear) a larger pattern is a larger float, among negative ones a larger
/// pattern is a smaller float, and every negative float comes before every
/// non-negative one.
pub proof fn lemma_cpu_key_orders_floats(a: u32, b: u32)
    ensures
        a < 0x8000_0000 && b < 0x8000_0000 ==> (cpu_order_key(a) < cpu_order_key(b) <==> a < b),
        a >= 0x8000_0000 && b >= 0x8000_0000 ==> (cpu_order_key(a) < cpu_order_key(b) <==> b < a),
        a >= 0x8000_0000 && b < 0x8000_0000 ==> cpu_order_key(a) < cpu_order_key(b),
        cpu_order_key(a) == cpu_order_key(b) <==> a == b,
{
    assert(a < 0x8000_0000 && b < 0x8000_0000 ==> ((a as i32 ^ (((((a as i32) >> 31u32) as u32) >> 1u32) as i32))
        < (b as i32 ^ (((((b as i32) >> 31u32) as u32) >> 1u32) as i32)) <==> a < b)) by (bit_vector);
    assert(a >= 0x8000_0000 && b >= 0x8000_0000 ==> ((a as i32 ^ (((((a as i32) >> 31u32) as u32) >> 1u32) as i32))
        < (b as i32 ^ (((((b as i32) >> 31u32) as u32) >> 1u32) as i32)) <==> b < a)) by (bit_vector);
    assert(a >= 0x8000_0000 && b < 0x8000_0000 ==> (a as i32 ^ (((((a as i32) >> 31u32) as u32) >> 1u32) as i32))
        < (b as i32 ^ (((((b as i32) >> 31u32) as u32) >> 1u32) as i32))) by (bit_vector);
    assert((a as i32 ^ (((((a as i32) >> 31u32) as u32) >> 1u32) as i32)) == (b as i32 ^ (((((b as i32) >> 31u32)
        as u32) >> 1u32) as i32)) <==> a == b) by (bit_vector);
}

/// `cpu_order_key`, computed.
pub(crate) fn cpu_order_key_of(bits: u32) -> (key: i32)
    ensures
        key == cpu_order_key(bits),
{
    let left = bits as i32;
    left ^ ((((left >> 31u32) as u32) >> 1u32) as i32)
}

/// Lexicographic order of character sequences, by code point; this is the
/// order of `String`s, whose UTF-8 bytes order as their code points do.
pub open spec fn chars_less(a: Seq<char>, b: Seq<char>) -> bool
    decreases a.len(),
{
    if a.len() == 0 {
        b.len() > 0
    } else if b.len() == 0 {
        false
    } else if a[0] != b[0] {
        (a[0] as int) < (b[0] as int)
    } else {
        chars_less(a.drop_first(), b.drop_first())
    }
}

/// `a` comes strictly before `b` among siblings under `sort`.
pub open spec fn precedes(a: ProcessInfo, b: ProcessInfo, sort: ProcessSort) -> bool {
    let pid_first = a.pid.0 < b.pid.0;
    match sort {
        ProcessSort::Pid => pid_first,
        ProcessSort::Cpu => {
            let ka = cpu_order_key(a.cpu_usage_bits);
            let kb = cpu_order_key(b.cpu_usage_bits);
            kb < ka || (ka == kb && pid_first)
        },
        ProcessSort::Memory => b.memory_bytes < a.memory_bytes || (a.memory_bytes == b.memory_bytes
            && pid_first),
        ProcessSort::Name => chars_less(a.name@, b.name@) || (a.name@ == b.name@ && pid_first),
    }
}

proof fn lemma_chars_less_total(a: Seq<char>, b: Seq<char>)
    ensures
        !chars_less(a, a),
        !(chars_less(a, b) && chars_less(b, a)),
        a != b ==> chars_less(a, b) || chars_less(b, a),
    decreases a.len(),
{
    if a.len() > 0 && b.len() > 0 {
        lemma_chars_less_total(a.drop_first(), b.drop_first());
        lemma_chars_less_total(a.drop_first(), a.drop_first());
        if a[0] == b[0] && a != b {
            assert(a.drop_first() != b.drop_first()) by {
                if a.drop_first() == b.drop_first() {
                    assert(a.len() == b.len());
                    assert forall|i: int| 0 <= i < a.len() implies a[i] == b[i] by {
                        if i > 0 {
                            assert(a[i] == a.drop_first()[i - 1]);
                            assert(b[i] == b.drop_first()[i - 1]);
                        }
                    }
                    assert(a =~= b);
                }
            }
        }
    } else if a.len() > 0 {
        lemma_chars_less_total(a.drop_first(), a.drop_first());
    } else if b.len() == 0 {
        assert(a =~= b);
    }
}

proof fn lemma_chars_less_trans(a: Seq<char>, b: Seq<char>, c: Seq<char>)
    requires
        chars_less(a, b),
        chars_less(b, c),
    ensures
        chars_less(a, c),
    decreases a.len(),
{
    if a.len() > 0 && b.len() > 0 && c.len() > 0 && a[0] == b[0] && b[0] == c[0] {
        lemma_chars_less_trans(a.drop_first(), b.drop_first(), c.drop_first());
    }
}

/// `precedes` is a strict total order on processes with different PIDs.
pub proof fn lemma_precedes_order(a: ProcessInfo, b: ProcessInfo, c: ProcessInfo, sort: ProcessSort)
    ensures
        !precedes(a, a, sort),
        !(precedes(a, b, sort) && precedes(b, a, sort)),
        a.pid != b.pid ==> precedes(a, b, sort) || precedes(b, a, sort),
        precedes(a, b, sort) && precedes(b, c, sort) ==> precedes(a, c, sort),
{
    lemma_chars_less_total(a.name@, b.name@);
    lemma_chars_less_total(a.name@, c.name@);
    lemma_chars_less_total(b.name@, c.name@);
    if chars_less(a.name@, b.name@) && chars_less(b.name@, c.name@) {
        lemma_chars_less_trans(a.name@, b.name@, c.name@);
    }
    if a.pid != b.pid {
        assert(a.pid.0 != b.pid.0);
    }
}

/// `chars_less`, computed.
pub(crate) fn chars_less_of(a: &Vec<char>, b: &Vec<char>) -> (r: bool)
    ensures
        r == chars_less(a@, b@),
{
    let mut i: usize = 0;
    proof {
        assert(a@.skip(0) =~= a@);
        assert(b@.skip(0) =~= b@);
    }
    while i < a.len() && i < b.len()
        invariant
            i <= a@.len(),
            i <= b@.len(),
            chars_less(a@, b@) == chars_less(a@.skip(i as int), b@.skip(i as int)),
        decreases a@.len() - i,
    {
        let x = a[i];
        let y = b[i];
        if x != y {
            proof {
                assert(a@.skip(i as int)[0] == x);
                assert(b@.skip(i as int)[0] == y);
            }
            return x < y;
        }
        proof {
            assert(a@.skip(i as int).drop_first() =~= a@.skip(i + 1));
            assert(b@.skip(i as int).drop_first() =~= b@.skip(i + 1));
        }
        i += 1;
    }
    i == a.len() && i < b.len()
}

/// The characters of a string, in order.
pub(crate) fn chars_of(s: &String) -> (v: Vec<char>)
    ensures
        v@ == s@,
{
    broadcast use vstd::string::group_string_axioms;

    let mut v: Vec<char> = Vec::new();
    for c in it: s.as_str().chars()
        invariant
            it.seq() == s@,
            v@ == s@.take(it.index()),
    {
        v.push(c);
    }
    proof {
        assert(s@.take(s@.len() as int) =~= s@);
    }
    v
}

/// `precedes` on the processes at two indices, computed; `names` holds their
/// names as characters.
pub(crate) fn precedes_at(
    procs: &Vec<ProcessInfo>,
    names: &Vec<Vec<char>>,
    a: usize,
    b: usize,
    sort: ProcessSort,
) -> (r: bool)
    requires
        a < procs@.len(),
        b < procs@.len(),
        names@.len() == procs@.len(),
        forall|i: int| 0 <= i < procs@.len() ==> (#[trigger] names@[i])@ == procs@[i].name@,
    ensures
        r == precedes(procs@[a as int], procs@[b as int], sort),
{
    let pa = &procs[a];
    let pb = &procs[b];
    let pid_first = pa.pid.0 < pb.pid.0;
    match sort {
        ProcessSort::Pid => pid_first,
        ProcessSort::Cpu => {
            let ka = cpu_order_key_of(pa.cpu_usage_bits);
            let kb = cpu_order_key_of(pb.cpu_usage_bits);
            kb < ka || (ka == kb && pid_first)
        },
        ProcessSort::Memory => pb.memory_bytes < pa.memory_bytes || (pa.memory_bytes
            == pb.memory_bytes && pid_first),
        ProcessSort::Name => {
            let na = &names[a];
            let nb = &names[b];
            if chars_less_of(na, nb) {
                true
            } else {
                let nb_first = chars_less_of(nb, na);
                proof {
                    lemma_chars_less_total(na@, nb@);
                }
                !nb_first && pid_first
            }
        },
    }
}

/// `s` lists indices in strictly increasing `precedes` order.
pub open spec fn sorted_by(s: Seq<usize>, procs: Seq<ProcessInfo>, sort: ProcessSort) -> bool {
    forall|i: int, j: int|
        0 <= i < j < s.len() ==> precedes(procs[#[trigger] s[i] as int], procs[#[trigger] s[j] as int], sort)
}

/// All PIDs of the snapshot differ.
pub open spec fn pids_distinct(procs: Seq<ProcessInfo>) -> bool {
    forall|i: int, j: int| 0 <= i < procs.len() && 0 <= j < procs.len() && i != j ==> procs[i].pid != procs[j].pid
}

/// The indices are valid positions in the snapshot.
pub open spec fn indices_in(s: Seq<usize>, procs: Seq<ProcessInfo>) -> bool {
    forall|i: int| 0 <= i < s.len() ==> (#[trigger] s[i]) < procs.len()
}

/// `names[i]` holds the characters of process `i`'s name.
pub open spec fn names_match(names: Seq<Vec<char>>, procs: Seq<ProcessInfo>) -> bool {
    &&& names.len() == procs.len()
    &&& forall|i: int| 0 <= i < procs.len() ==> (#[trigger] names[i])@ == procs[i].name@
}

/// Merges two sorted lists with no index in common into one sorted list.
fn merge_sorted(
    a: &Vec<usize>,
    b: &Vec<usize>,
    procs: &Vec<ProcessInfo>,
    names: &Vec<Vec<char>>,
    sort: ProcessSort,
) -> (out: Vec<usize>)
    requires
        indices_in(a@, procs@),
        indices_in(b@, procs@),
        names_match(names@, procs@),
        pids_distinct(procs@),
        sorted_by(a@, procs@, sort),
        sorted_by(b@, procs@, sort),
        forall|p: int, q: int| 0 <= p < a@.len() && 0 <= q < b@.len() ==> a@[p] != b@[q],
    ensures
        out@.len() == a@.len() + b@.len(),
        indices_in(out@, procs@),
        forall|x: usize| out@.contains(x) <==> (a@.contains(x) || b@.contains(x)),
        sorted_by(out@, procs@, sort),
{
    let mut out: Vec<usize> = Vec::new();
    let mut i: usize = 0;
    let mut j: usize = 0;
    while i < a.len() || j < b.len()
        invariant
            i <= a@.len(),
            j <= b@.len(),
            indices_in(a@, procs@),
            indices_in(b@, procs@),
            names_match(names@, procs@),
            pids_distinct(procs@),
            sorted_by(a@, procs@, sort),
            sorted_by(b@, procs@, sort),
            forall|p: int, q: int| 0 <= p < a@.len() && 0 <= q < b@.len() ==> a@[p] != b@[q],
            out@.len() == i + j,
            indices_in(out@, procs@),
            forall|x: usize| out@.contains(x) <==> (a@.take(i as int).contains(x) || b@.take(j as int).contains(x)),
            sorted_by(out@, procs@, sort),
            forall|k: int, p: int|
                0 <= k < out@.len() && i <= p < a@.len() ==> precedes(
                    procs@[#[trigger] out@[k] as int],
                    procs@[#[trigger] a@[p] as int],
                    sort,
                ),
            forall|k: int, q: int|
                0 <= k < out@.len() && j <= q < b@.len() ==> precedes(
                    procs@[#[trigger] out@[k] as int],
                    procs@[#[trigger] b@[q] as int],
                    sort,
                ),
        decreases a@.len() + b@.len() - i - j,
    {
        let take_a = if i < a.len() && j < b.len() {
            precedes_at(procs, names, a[i], b[j], sort)
        } else {
            i < a.len()
        };
        let ghost old_out = out@;
        let x = if take_a { a[i] } else { b[j] };
        proof {
            if i < a@.len() && j < b@.len() {
                let pa = procs@[a@[i as int] as int];
                let pb = procs@[b@[j as int] as int];
                lemma_precedes_order(pa, pb, pb, sort);
                if !take_a {
                    assert(a@[i as int] != b@[j as int]);
                    assert(pa.pid != pb.pid);
                }
            }
            // x comes before everything still waiting in both lists
            assert forall|p: int| i <= p < a@.len() && !(take_a && p == i) implies precedes(
                procs@[x as int],
                procs@[#[trigger] a@[p] as int],
                sort,
            ) by {
                if take_a {
                    assert(precedes(procs@[a@[i as int] as int], procs@[a@[p] as int], sort));
                } else if p > i {
                    lemma_precedes_order(procs@[x as int], procs@[a@[i as int] as int], procs@[a@[p] as int], sort);
                }
            }
            assert forall|q: int| j <= q < b@.len() && !(!take_a && q == j) implies precedes(
                procs@[x as int],
                procs@[#[trigger] b@[q] as int],
                sort,
            ) by {
                if !take_a {
                    assert(precedes(procs@[b@[j as int] as int], procs@[b@[q] as int], sort));
                } else if q > j {
                    lemma_precedes_order(procs@[x as int], procs@[b@[j as int] as int], procs@[b@[q] as int], sort);
                }
            }
        }
        out.push(x);
        if take_a {
            i += 1;
        } else {
            j += 1;
        }
        proof {
            assert(out@ == old_out.push(x));
            assert forall|k: int, l: int| 0 <= k < l < out@.len() implies precedes(
                procs@[#[trigger] out@[k] as int],
                procs@[#[trigger] out@[l] as int],
                sort,
            ) by {
                if l < old_out.len() {
                    assert(out@[k] == old_out[k] && out@[l] == old_out[l]);
                } else {
                    assert(out@[k] == old_out[k]);
                    if take_a {
                        assert(precedes(procs@[old_out[k] as int], procs@[a@[i - 1] as int], sort));
                    } else {
                        assert(precedes(procs@[old_out[k] as int], procs@[b@[j - 1] as int], sort));
                    }
                }
            }
            assert forall|k: int, p: int| 0 <= k < out@.len() && i <= p < a@.len() implies precedes(
                procs@[#[trigger] out@[k] as int],
                procs@[#[trigger] a@[p] as int],
                sort,
            ) by {
                if k < old_out.len() {
                    assert(out@[k] == old_out[k]);
                }
            }
            assert forall|k: int, q: int| 0 <= k < out@.len() && j <= q < b@.len() implies precedes(
                procs@[#[trigger] out@[k] as int],
                procs@[#[trigger] b@[q] as int],
                sort,
            ) by {
                if k < old_out.len() {
                    assert(out@[k] == old_out[k]);
                }
            }
            if take_a {
                assert(a@.take(i as int) =~= a@.take(i - 1).push(x));
            } else {
                assert(b@.take(j as int) =~= b@.take(j - 1).push(x));
            }
            assert forall|y: usize| out@.contains(y) <==> (a@.take(i as int).contains(y) || b@.take(j as int).contains(y)) by {
                if take_a {
                    vstd::seq_lib::lemma_seq_contains_after_push(a@.take(i - 1), x, y);
                } else {
                    vstd::seq_lib::lemma_seq_contains_after_push(b@.take(j - 1), x, y);
                }
                vstd::seq_lib::lemma_seq_contains_after_push(old_out, x, y);
            }
        }
    }
    proof {
        assert(a@.take(a@.len() as int) =~= a@);
        assert(b@.take(b@.len() as int) =~= b@);
    }
    out
}

/// Sorts `items[lo..hi]` by `precedes`: each half in turn, then a merge.
fn sort_range(
    items: &Vec<usize>,
    lo: usize,
    hi: usize,
    procs: &Vec<ProcessInfo>,
    names: &Vec<Vec<char>>,
    sort: ProcessSort,
) -> (out: Vec<usize>)
    requires
        lo <= hi <= items@.len(),
        items@.no_duplicates(),
        indices_in(items@, procs@),
        pids_distinct(procs@),
        names_match(names@, procs@),
    ensures
        out@.len() == hi - lo,
        indices_in(out@, procs@),
        forall|x: usize| out@.contains(x) <==> items@.subrange(lo as int, hi as int).contains(x),
        sorted_by(out@, procs@, sort),
    decreases hi - lo,
{
    if hi - lo <= 1 {
        let mut out: Vec<usize> = Vec::new();
        if lo < hi {
            out.push(items[lo]);
        }
        proof {
            if lo < hi {
                assert(items@.subrange(lo as int, hi as int) =~= seq![items@[lo as int]]);
            } else {
                assert(items@.subrange(lo as int, hi as int) =~= Seq::<usize>::empty());
            }
        }
        out
    } else {
        let mid = lo + (hi - lo) / 2;
        let left = sort_range(items, lo, mid, procs, names, sort);
        let right = sort_range(items, mid, hi, procs, names, sort);
        proof {
            assert forall|p: int, q: int| 0 <= p < left@.len() && 0 <= q < right@.len() implies left@[p] != right@[q] by {
                let x = left@[p];
                assert(left@.contains(x));
                if x == right@[q] {
                    assert(right@.contains(x));
                    let a = choose|a: int| 0 <= a < mid - lo && items@.subrange(lo as int, mid as int)[a] == x;
                    let b = choose|b: int| 0 <= b < hi - mid && items@.subrange(mid as int, hi as int)[b] == x;
                    assert(items@[lo + a] == items@[mid + b]);
                }
            }
        }
        let out = merge_sorted(&left, &right, procs, names, sort);
        proof {
            let whole = items@.subrange(lo as int, hi as int);
            assert(whole =~= items@.subrange(lo as int, mid as int) + items@.subrange(mid as int, hi as int));
            assert forall|x: usize| out@.contains(x) <==> whole.contains(x) by {
                let l = items@.subrange(lo as int, mid as int);
                let r = items@.subrange(mid as int, hi as int);
                if whole.contains(x) {
                    let k = choose|k: int| 0 <= k < whole.len() && whole[k] == x;
                    if k < l.len() {
                        assert(l[k] == x);
                    } else {
                        assert(r[k - l.len()] == x);
                    }
                }
                if l.contains(x) {
                    let k = choose|k: int| 0 <= k < l.len() && l[k] == x;
                    assert(whole[k] == x);
                }
                if r.contains(x) {
                    let k = choose|k: int| 0 <= k < r.len() && r[k] == x;
                    assert(whole[k + l.len()] == x);
                }
            }
        }
        out
    }
}

/// Sorts indices into the snapshot by `precedes`.
pub(crate) fn sort_indices(
    items: &Vec<usize>,
    procs: &Vec<ProcessInfo>,
    names: &Vec<Vec<char>>,
    sort: ProcessSort,
) -> (out: Vec<usize>)
    requires
        items@.no_duplicates(),
        forall|i: int| 0 <= i < items@.len() ==> (#[trigger] items@[i]) < procs@.len(),
        pids_distinct(procs@),
        names@.len() == procs@.len(),
        forall|i: int| 0 <= i < procs@.len() ==> (#[trigger] names@[i])@ == procs@[i].name@,
    ensures
        out@.len() == items@.len(),
        forall|x: usize| out@.contains(x) <==> items@.contains(x),
        sorted_by(out@, procs@, sort),
{
    let out = sort_range(items, 0, items.len(), procs, names, sort);
    proof {
        assert(items@.subrange(0, items@.len() as int) =~= items@);
    }
    out
}

/// In a list sorted for `sort`, an earlier process comes first by the sort's
/// own measure: lower PID; at least as much CPU (compared as non-negative
/// floats by their bit patterns) or memory, ties broken by lower PID.
pub proof fn lemma_sorted_measures(list: Seq<usize>, procs: Seq<ProcessInfo>, sort: ProcessSort, i: int, j: int)
    requires
        sorted_by(list, procs, sort),
        0 <= i < j < list.len(),
    ensures
        ({
            let a = procs[list[i] as int];
            let b = procs[list[j] as int];
            &&& sort == ProcessSort::Pid ==> a.pid.0 < b.pid.0
            &&& sort == ProcessSort::Memory ==> b.memory_bytes <= a.memory_bytes && (a.memory_bytes == b.memory_bytes
                ==> a.pid.0 < b.pid.0)
            &&& sort == ProcessSort::Cpu && a.cpu_usage_bits < 0x8000_0000 && b.cpu_usage_bits < 0x8000_0000 ==> b.cpu_usage_bits
                <= a.cpu_usage_bits && (a.cpu_usage_bits == b.cpu_usage_bits ==> a.pid.0 < b.pid.0)
        }),
{
    let a = procs[list[i] as int];
    let b = procs[list[j] as int];
    assert(precedes(a, b, sort));
    lemma_cpu_key_orders_floats(a.cpu_usage_bits, b.cpu_usage_bits);
    lemma_cpu_key_orders_floats(b.cpu_usage_bits, a.cpu_usage_bits);
}

} // verus!
