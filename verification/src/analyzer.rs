//! The supervisor's decisions: how processes are ranked, grouped by the
//! kind of load of their containers, and which containers are stopped.

use vstd::prelude::*;
use crate::container::{text_cpu, Process};
use crate::order::{ranks_before, ranks_level};
use crate::sort::{is_stable_order, key_before, stable_order};

verus! {

/// The text `vm`.
pub open spec fn text_vm() -> Seq<char> {
    seq!['v', 'm']
}

/// The text `io`.
pub open spec fn text_io() -> Seq<char> {
    seq!['i', 'o']
}

/// The text `hdd`.
pub open spec fn text_hdd() -> Seq<char> {
    seq!['h', 'd', 'd']
}

/// Keys that rank processes by processor usage alone.
pub open spec fn cpu_keys(ps: Seq<Process>) -> Seq<(u64, u64)> {
    Seq::new(ps.len(), |i: int| (ps[i].cpu_key, 0u64))
}

/// Keys that rank processes by processor usage, then memory usage.
pub open spec fn usage_keys(ps: Seq<Process>) -> Seq<(u64, u64)> {
    Seq::new(ps.len(), |i: int| (ps[i].cpu_key, ps[i].memory_key))
}

/// The indices of `processes`, ranked by processor usage from least to
/// most; processes with equal usage keep their order.
pub fn cpu_order(processes: &Vec<Process>) -> (r: Vec<usize>)
    ensures
        is_stable_order(cpu_keys(processes@), r@),
{
    let n = processes.len();
    let mut keys: Vec<(u64, u64)> = Vec::new();
    for i in 0..n
        invariant
            n == processes@.len(),
            keys@ == cpu_keys(processes@).take(i as int),
    {
        keys.push((processes[i].cpu_key, 0u64));
        assert(keys@ == cpu_keys(processes@).take(i + 1));
    }
    assert(keys@ == cpu_keys(processes@));
    stable_order(&keys)
}

/// The indices of `processes`, ranked by processor usage and then memory
/// usage, from least to most (the order in which processes compare); processes that
/// compare equal keep their order.
pub fn usage_order(processes: &Vec<Process>) -> (r: Vec<usize>)
    ensures
        is_stable_order(usage_keys(processes@), r@),
{
    let n = processes.len();
    let mut keys: Vec<(u64, u64)> = Vec::new();
    for i in 0..n
        invariant
            n == processes@.len(),
            keys@ == usage_keys(processes@).take(i as int),
    {
        keys.push((processes[i].cpu_key, processes[i].memory_key));
        assert(keys@ == usage_keys(processes@).take(i + 1));
    }
    assert(keys@ == usage_keys(processes@));
    stable_order(&keys)
}

/// The views of a list of strings.
pub open spec fn kind_views(kinds: Seq<String>) -> Seq<Seq<char>> {
    kinds.map_values(|s: String| s@)
}

/// The entries of `order` whose kind is `kind`, in order.
pub open spec fn select(order: Seq<usize>, kinds: Seq<Seq<char>>, kind: Seq<char>) -> Seq<usize>
    decreases order.len(),
{
    if order.len() == 0 {
        seq![]
    } else {
        select(order.drop_last(), kinds, kind) + if kinds[order.last() as int] == kind {
            seq![order.last()]
        } else {
            Seq::<usize>::empty()
        }
    }
}

/// The processes grouped by the kind of load of their containers, each
/// group in ranked order.
pub struct KindLists {
    pub cpu: Vec<usize>,
    pub vm: Vec<usize>,
    pub io: Vec<usize>,
    pub hdd: Vec<usize>,
}

fn kind_string(kind: &str) -> (r: String)
    ensures
        r@ == kind@,
{
    String::from_str(kind)
}

/// Groups the ranked processes `order` by their kinds `kinds`: the `cpu`,
/// `vm`, `io` and `hdd` groups; processes of any other kind are left out.
pub fn partition_by_kind(order: &Vec<usize>, kinds: &Vec<String>) -> (r: KindLists)
    requires
        forall|a: int| 0 <= a < order@.len() ==> #[trigger] order@[a] < kinds@.len(),
    ensures
        r.cpu@ == select(order@, kind_views(kinds@), text_cpu()),
        r.vm@ == select(order@, kind_views(kinds@), text_vm()),
        r.io@ == select(order@, kind_views(kinds@), text_io()),
        r.hdd@ == select(order@, kind_views(kinds@), text_hdd()),
{
    let cpu_kind = kind_string("cpu");
    let vm_kind = kind_string("vm");
    let io_kind = kind_string("io");
    let hdd_kind = kind_string("hdd");
    proof {
        reveal_strlit("cpu");
        reveal_strlit("vm");
        reveal_strlit("io");
        reveal_strlit("hdd");
    }
    let ghost ks = kind_views(kinds@);
    let mut cpu: Vec<usize> = Vec::new();
    let mut vm: Vec<usize> = Vec::new();
    let mut io: Vec<usize> = Vec::new();
    let mut hdd: Vec<usize> = Vec::new();
    let n = order.len();
    for i in 0..n
        invariant
            n == order@.len(),
            ks == kind_views(kinds@),
            forall|a: int| 0 <= a < order@.len() ==> #[trigger] order@[a] < kinds@.len(),
            cpu_kind@ == text_cpu(),
            vm_kind@ == text_vm(),
            io_kind@ == text_io(),
            hdd_kind@ == text_hdd(),
            cpu@ == select(order@.take(i as int), ks, text_cpu()),
            vm@ == select(order@.take(i as int), ks, text_vm()),
            io@ == select(order@.take(i as int), ks, text_io()),
            hdd@ == select(order@.take(i as int), ks, text_hdd()),
    {
        let idx = order[i];
        let ghost pre = order@.take(i + 1);
        assert(pre.drop_last() == order@.take(i as int));
        assert(pre.last() == idx);
        assert(ks[idx as int] == kinds@[idx as int]@);
        if kinds[idx] == cpu_kind {
            cpu.push(idx);
        } else if kinds[idx] == vm_kind {
            vm.push(idx);
        } else if kinds[idx] == io_kind {
            io.push(idx);
        } else if kinds[idx] == hdd_kind {
            hdd.push(idx);
        }
    }
    assert(order@.take(n as int) == order@);
    KindLists { cpu, vm, io, hdd }
}

/// The containers to stop, in the order in which they are stopped: all
/// `cpu` ones but the first where there are more than two; all `hdd` ones
/// but the first where there are more than one; all `io` ones but the last
/// where there are more than one; and those same `io` ones once more where
/// there is more than one `vm` container.
pub open spec fn kill_plan(cpu: Seq<usize>, vm: Seq<usize>, io: Seq<usize>, hdd: Seq<usize>) -> Seq<usize> {
    (if cpu.len() > 2 { cpu.skip(1) } else { Seq::<usize>::empty() })
    + (if hdd.len() > 1 { hdd.skip(1) } else { Seq::<usize>::empty() })
    + (if io.len() > 1 { io.take(io.len() - 1) } else { Seq::<usize>::empty() })
    + (if vm.len() > 1 { io.take(io.len() - 1) } else { Seq::<usize>::empty() })
}

fn push_range(out: &mut Vec<usize>, from: &Vec<usize>, lo: usize, hi: usize)
    requires
        lo <= hi <= from@.len(),
    ensures
        final(out)@ == old(out)@ + from@.subrange(lo as int, hi as int),
{
    let mut i = lo;
    while i < hi
        invariant
            lo <= i <= hi <= from@.len(),
            out@ == old(out)@ + from@.subrange(lo as int, i as int),
        decreases hi - i,
    {
        out.push(from[i]);
        assert(from@.subrange(lo as int, i + 1) == from@.subrange(lo as int, i as int).push(from@[i as int]));
        i = i + 1;
    }
}

/// The containers to stop, given the groups.
pub fn plan_kills(lists: &KindLists) -> (r: Vec<usize>)
    requires
        lists.vm@.len() > 1 ==> lists.io@.len() >= 1,
    ensures
        r@ == kill_plan(lists.cpu@, lists.vm@, lists.io@, lists.hdd@),
{
    let mut r: Vec<usize> = Vec::new();
    let ghost e = Seq::<usize>::empty();
    if lists.cpu.len() > 2 {
        push_range(&mut r, &lists.cpu, 1, lists.cpu.len());
    }
    assert(r@ == e + if lists.cpu@.len() > 2 { lists.cpu@.skip(1) } else { e });
    let ghost r1 = r@;
    if lists.hdd.len() > 1 {
        push_range(&mut r, &lists.hdd, 1, lists.hdd.len());
    }
    assert(r@ == r1 + if lists.hdd@.len() > 1 { lists.hdd@.skip(1) } else { e });
    let ghost r2 = r@;
    if lists.io.len() > 1 {
        push_range(&mut r, &lists.io, 0, lists.io.len() - 1);
    }
    assert(r@ == r2 + if lists.io@.len() > 1 { lists.io@.take(lists.io@.len() - 1) } else { e });
    let ghost r3 = r@;
    if lists.vm.len() > 1 {
        push_range(&mut r, &lists.io, 0, lists.io.len() - 1);
    }
    assert(r@ == r3 + if lists.vm@.len() > 1 { lists.io@.take(lists.io@.len() - 1) } else { e });
    r
}


/// Some two processes are of kind `kind`.
pub open spec fn two_of_kind(kinds: Seq<Seq<char>>, kind: Seq<char>) -> bool {
    exists|a: int, b: int| 0 <= a < b < kinds.len() && #[trigger] kinds[a] == kind && #[trigger] kinds[b] == kind
}

/// Some process is of kind `kind`.
pub open spec fn some_of_kind(kinds: Seq<Seq<char>>, kind: Seq<char>) -> bool {
    exists|c: int| 0 <= c < kinds.len() && #[trigger] kinds[c] == kind
}

/// What one round of supervision decides.
pub struct Analysis {
    /// The processes ranked by processor usage.
    pub order: Vec<usize>,
    /// The ranked processes grouped by kind.
    pub lists: KindLists,
    /// The processes whose containers are stopped, in that order.
    pub kills: Vec<usize>,
}

/// Facts about a selection from a list of indices.
pub proof fn lemma_select(order: Seq<usize>, kinds: Seq<Seq<char>>, kind: Seq<char>)
    ensures
        forall|j: int|
            0 <= j < select(order, kinds, kind).len() ==> order.contains(
                #[trigger] select(order, kinds, kind)[j],
            ) && kinds[select(order, kinds, kind)[j] as int] == kind,
        order.no_duplicates() ==> select(order, kinds, kind).no_duplicates(),
        forall|x: usize|
            order.contains(x) && kinds[x as int] == kind ==> #[trigger] select(
                order,
                kinds,
                kind,
            ).contains(x),
        select(order, kinds, kind).len() <= order.len(),
    decreases order.len(),
{
    if order.len() > 0 {
        let init = order.drop_last();
        let last = order.last();
        lemma_select(init, kinds, kind);
        let s0 = select(init, kinds, kind);
        let s = select(order, kinds, kind);
        assert forall|j: int| 0 <= j < s.len() implies order.contains(#[trigger] s[j]) && kinds[s[j] as int] == kind by {
            if j < s0.len() {
                assert(s[j] == s0[j]);
                let k = choose|k: int| 0 <= k < init.len() && init[k] == s0[j];
                assert(order[k] == s0[j]);
            } else {
                assert(s[j] == last);
                assert(order[order.len() - 1] == last);
            }
        }
        if order.no_duplicates() {
            assert(init.no_duplicates()) by {
                assert forall|a: int, b: int| 0 <= a < init.len() && 0 <= b < init.len() && a != b implies init[a] != init[b] by {
                    assert(init[a] == order[a] && init[b] == order[b]);
                }
            }
            if kinds[last as int] == kind {
                assert forall|a: int, b: int| 0 <= a < s.len() && 0 <= b < s.len() && a != b implies s[a] != s[b] by {
                    if a < s0.len() && b < s0.len() {
                        assert(s[a] == s0[a] && s[b] == s0[b]);
                    } else if a < s0.len() {
                        assert(s[a] == s0[a] && s[b] == last);
                        assert(init.contains(s0[a]));
                        let k = choose|k: int| 0 <= k < init.len() && init[k] == s0[a];
                        assert(order[k] == s0[a] && order[order.len() - 1] == last);
                    } else if b < s0.len() {
                        assert(s[b] == s0[b] && s[a] == last);
                        assert(init.contains(s0[b]));
                        let k = choose|k: int| 0 <= k < init.len() && init[k] == s0[b];
                        assert(order[k] == s0[b] && order[order.len() - 1] == last);
                    }
                }
            } else {
                assert(s == s0);
            }
        }
        assert forall|x: usize| order.contains(x) && kinds[x as int] == kind implies #[trigger] s.contains(x) by {
            let k = choose|k: int| 0 <= k < order.len() && order[k] == x;
            if k < order.len() - 1 {
                assert(init[k] == x);
                assert(s0.contains(x));
                let j = choose|j: int| 0 <= j < s0.len() && s0[j] == x;
                assert(s[j] == x);
            } else {
                assert(s[s.len() - 1] == x);
            }
        }
    }
}

/// One round of supervision over `processes`, whose containers have the
/// kinds of load `kinds`: rank by processor usage, group by kind, and plan
/// which containers to stop.
pub fn analyzer(processes: &Vec<Process>, kinds: &Vec<String>) -> (r: Analysis)
    requires
        kinds@.len() == processes@.len(),
        two_of_kind(kind_views(kinds@), text_vm()) ==> some_of_kind(kind_views(kinds@), text_io()),
    ensures
        is_stable_order(cpu_keys(processes@), r.order@),
        r.lists.cpu@ == select(r.order@, kind_views(kinds@), text_cpu()),
        r.lists.vm@ == select(r.order@, kind_views(kinds@), text_vm()),
        r.lists.io@ == select(r.order@, kind_views(kinds@), text_io()),
        r.lists.hdd@ == select(r.order@, kind_views(kinds@), text_hdd()),
        r.kills@ == kill_plan(r.lists.cpu@, r.lists.vm@, r.lists.io@, r.lists.hdd@),
{
    let order = cpu_order(processes);
    let lists = partition_by_kind(&order, kinds);
    let nk = kinds.len();
    proof {
        let ks = kind_views(kinds@);
        assert(ks.len() == nk);
        let o = order@;
        lemma_stable_order_distinct(cpu_keys(processes@), o);
        lemma_select(o, ks, text_vm());
        lemma_select(o, ks, text_io());
        if lists.vm@.len() > 1 {
            let v = lists.vm@;
            assert(o.contains(v[0]) && ks[v[0] as int] == text_vm());
            assert(o.contains(v[1]) && ks[v[1] as int] == text_vm());
            assert(v[0] != v[1]);
            let k0 = choose|k: int| 0 <= k < o.len() && o[k] == v[0];
            let k1 = choose|k: int| 0 <= k < o.len() && o[k] == v[1];
            assert(o[k0] < kinds@.len() && o[k1] < kinds@.len());
            if v[0] < v[1] {
                assert(ks[v[0] as int] == text_vm() && ks[v[1] as int] == text_vm());
            } else {
                assert(ks[v[1] as int] == text_vm() && ks[v[0] as int] == text_vm());
            }
            assert(two_of_kind(ks, text_vm()));
            let c = choose|c: int| 0 <= c < ks.len() && #[trigger] ks[c] == text_io();
            let cu = c as usize;
            assert(cu as int == c);
            assert(ks[cu as int] == text_io());
            assert(o.contains(cu));
            assert(lists.io@.contains(cu));
        }
    }
    let kills = plan_kills(&lists);
    Analysis { order, lists, kills }
}

/// A stable order lists no index twice.
pub proof fn lemma_stable_order_distinct(keys: Seq<(u64, u64)>, order: Seq<usize>)
    requires
        is_stable_order(keys, order),
    ensures
        order.no_duplicates(),
{
    assert forall|a: int, b: int| 0 <= a < order.len() && 0 <= b < order.len() && a != b implies order[a] != order[b] by {
        if a < b {
            assert(key_before(keys, order[a] as int, order[b] as int));
        } else {
            assert(key_before(keys, order[b] as int, order[a] as int));
        }
    }
}


/// The containers to stop when the ranked processes are split in two
/// halves, the lower half holding `n / 2` of `n` processes: in the lower
/// half all but the first three where it holds more than three, then in the
/// upper half all but the last two where it holds more than two.
pub open spec fn halves_plan(order: Seq<usize>) -> Seq<usize> {
    let n = order.len();
    let h = n / 2;
    (if h > 3 { order.subrange(3, h as int) } else { Seq::<usize>::empty() }) + (if n - h > 2 {
        order.subrange(h as int, n - 2)
    } else {
        Seq::<usize>::empty()
    })
}

/// The containers to stop, given the ranked processes.
pub fn plan_by_halves(order: &Vec<usize>) -> (r: Vec<usize>)
    ensures
        r@ == halves_plan(order@),
{
    let n = order.len();
    let h = n / 2;
    let ghost e = Seq::<usize>::empty();
    let mut r: Vec<usize> = Vec::new();
    if h > 3 {
        push_range(&mut r, order, 3, h);
    }
    assert(r@ == e + if h > 3 { order@.subrange(3, h as int) } else { e });
    let ghost r1 = r@;
    if n - h > 2 {
        push_range(&mut r, order, h, n - 2);
    }
    assert(r@ == r1 + if n - h > 2 { order@.subrange(h as int, n - 2) } else { e });
    r
}

/// What one round of supervision by halves decides.
pub struct HalvesAnalysis {
    /// The processes ranked by processor usage, then memory usage.
    pub order: Vec<usize>,
    /// How many of them form the lower half.
    pub split: usize,
    /// The processes whose containers are stopped, in that order.
    pub kills: Vec<usize>,
}

/// One round of supervision by halves: rank the processes by usage, split
/// the ranking in two halves and plan which containers to stop.
pub fn analyzer_by_halves(processes: &Vec<Process>) -> (r: HalvesAnalysis)
    ensures
        is_stable_order(usage_keys(processes@), r.order@),
        r.split == processes@.len() / 2,
        r.kills@ == halves_plan(r.order@),
{
    let order = usage_order(processes);
    let split = order.len() / 2;
    let kills = plan_by_halves(&order);
    HalvesAnalysis { order, split, kills }
}

/// A ranking by processor usage puts no process before one with less
/// processor usage, and processes with equal usage in their given order.
pub proof fn lemma_cpu_order_ranks(processes: Seq<Process>, order: Seq<usize>)
    requires
        is_stable_order(cpu_keys(processes), order),
    ensures
        forall|a: int, b: int|
            0 <= a < b < order.len() ==> {
                let p = #[trigger] processes[order[a] as int];
                let q = #[trigger] processes[order[b] as int];
                p.cpu_key < q.cpu_key || (p.cpu_key == q.cpu_key && order[a] < order[b])
            },
{
    assert forall|a: int, b: int| 0 <= a < b < order.len() implies {
        let p = #[trigger] processes[order[a] as int];
        let q = #[trigger] processes[order[b] as int];
        p.cpu_key < q.cpu_key || (p.cpu_key == q.cpu_key && order[a] < order[b])
    } by {
        assert(key_before(cpu_keys(processes), order[a] as int, order[b] as int));
    }
}

/// A ranking by usage puts processes in order of processor usage, those of
/// equal processor usage in order of memory usage, and those equal in both
/// in their given order.
pub proof fn lemma_usage_order_fields(processes: Seq<Process>, order: Seq<usize>)
    requires
        is_stable_order(usage_keys(processes), order),
    ensures
        forall|a: int, b: int|
            0 <= a < b < order.len() ==> {
                let p = #[trigger] processes[order[a] as int];
                let q = #[trigger] processes[order[b] as int];
                ||| p.cpu_key < q.cpu_key
                ||| (p.cpu_key == q.cpu_key && p.memory_key < q.memory_key)
                ||| (p.cpu_key == q.cpu_key && p.memory_key == q.memory_key && order[a] < order[b])
            },
{
    assert forall|a: int, b: int| 0 <= a < b < order.len() implies {
        let p = #[trigger] processes[order[a] as int];
        let q = #[trigger] processes[order[b] as int];
        ||| p.cpu_key < q.cpu_key
        ||| (p.cpu_key == q.cpu_key && p.memory_key < q.memory_key)
        ||| (p.cpu_key == q.cpu_key && p.memory_key == q.memory_key && order[a] < order[b])
    } by {
        assert(key_before(usage_keys(processes), order[a] as int, order[b] as int));
    }
}

/// A ranking by usage is sorted by the comparison of processes: no process ranks
/// strictly before one listed ahead of it, and processes that rank level
/// stay in their given order.
pub proof fn lemma_usage_order_ranks(processes: Seq<Process>, order: Seq<usize>)
    requires
        is_stable_order(usage_keys(processes), order),
    ensures
        forall|a: int, b: int|
            0 <= a < b < order.len() ==> !ranks_before(
                #[trigger] processes[order[b] as int],
                #[trigger] processes[order[a] as int],
            ) && (ranks_level(processes[order[a] as int], processes[order[b] as int]) ==> order[a]
                < order[b]),
{
    assert forall|a: int, b: int| 0 <= a < b < order.len() implies !ranks_before(
        #[trigger] processes[order[b] as int],
        #[trigger] processes[order[a] as int],
    ) && (ranks_level(processes[order[a] as int], processes[order[b] as int]) ==> order[a]
        < order[b]) by {
        assert(key_before(usage_keys(processes), order[a] as int, order[b] as int));
    }
}


/// No container stopped by the plan is one of kind `vm`; every one is one of
/// the listed processes; and in each of the `cpu`, `hdd` and `io` groups one
/// container survives: the first `cpu` one, the first `hdd` one and the last
/// `io` one.
pub proof fn lemma_kill_plan_spares(order: Seq<usize>, kinds: Seq<Seq<char>>)
    requires
        order.no_duplicates(),
        select(order, kinds, text_vm()).len() > 1 ==> select(order, kinds, text_io()).len() >= 1,
    ensures
        ({
            let cpu = select(order, kinds, text_cpu());
            let vm = select(order, kinds, text_vm());
            let io = select(order, kinds, text_io());
            let hdd = select(order, kinds, text_hdd());
            let kills = kill_plan(cpu, vm, io, hdd);
            &&& forall|j: int|
                0 <= j < kills.len() ==> order.contains(#[trigger] kills[j]) && (kinds[kills[j] as int]
                    == text_cpu() || kinds[kills[j] as int] == text_hdd() || kinds[kills[j] as int]
                    == text_io())
            &&& cpu.len() > 0 ==> !kills.contains(cpu[0])
            &&& hdd.len() > 0 ==> !kills.contains(hdd[0])
            &&& io.len() > 0 ==> !kills.contains(io.last())
        }),
{
    let cpu = select(order, kinds, text_cpu());
    let vm = select(order, kinds, text_vm());
    let io = select(order, kinds, text_io());
    let hdd = select(order, kinds, text_hdd());
    let kills = kill_plan(cpu, vm, io, hdd);
    lemma_select(order, kinds, text_cpu());
    lemma_select(order, kinds, text_vm());
    lemma_select(order, kinds, text_io());
    lemma_select(order, kinds, text_hdd());
    assert(text_cpu() != text_hdd()) by {
        assert(text_cpu()[0] != text_hdd()[0]);
    }
    assert(text_cpu() != text_io()) by {
        assert(text_cpu().len() != text_io().len());
    }
    assert(text_hdd() != text_io()) by {
        assert(text_hdd().len() != text_io().len());
    }
    let e = Seq::<usize>::empty();
    let pa = if cpu.len() > 2 { cpu.skip(1) } else { e };
    let pb = if hdd.len() > 1 { hdd.skip(1) } else { e };
    let pc = if io.len() > 1 { io.take(io.len() - 1) } else { e };
    let pd = if vm.len() > 1 { io.take(io.len() - 1) } else { e };
    assert(kills == pa + pb + pc + pd);
    // Where each stopped container comes from.
    assert forall|j: int| 0 <= j < kills.len() implies {
        ||| (cpu.len() > 2 && 1 <= j + 1 < cpu.len() && #[trigger] kills[j] == cpu[j + 1])
        ||| (hdd.len() > 1 && 1 <= j - pa.len() + 1 < hdd.len() && kills[j] == hdd[j - pa.len() + 1])
        ||| (exists|m: int| 0 <= m < io.len() - 1 && kills[j] == io[m])
    } by {
        if j < pa.len() {
            assert(kills[j] == pa[j]);
        } else if j < pa.len() + pb.len() {
            assert(kills[j] == pb[j - pa.len()]);
        } else if j < pa.len() + pb.len() + pc.len() {
            let m = j - pa.len() - pb.len();
            assert(kills[j] == pc[m]);
            assert(kills[j] == io[m]);
        } else {
            let m = j - pa.len() - pb.len() - pc.len();
            assert(kills[j] == pd[m]);
            assert(kills[j] == io[m]);
        }
    }
    assert forall|j: int| 0 <= j < kills.len() implies order.contains(#[trigger] kills[j]) && (kinds[kills[j] as int]
        == text_cpu() || kinds[kills[j] as int] == text_hdd() || kinds[kills[j] as int]
        == text_io()) by {
        if cpu.len() > 2 && 1 <= j + 1 < cpu.len() && kills[j] == cpu[j + 1] {
            assert(cpu[j + 1] == cpu[j + 1]);
        } else if hdd.len() > 1 && 1 <= j - pa.len() + 1 < hdd.len() && kills[j] == hdd[j - pa.len() + 1] {
            assert(hdd[j - pa.len() + 1] == hdd[j - pa.len() + 1]);
        } else {
            let m = choose|m: int| 0 <= m < io.len() - 1 && kills[j] == io[m];
            assert(io[m] == io[m]);
        }
    }
    if cpu.len() > 0 {
        assert forall|j: int| 0 <= j < kills.len() implies #[trigger] kills[j] != cpu[0] by {
            assert(kinds[cpu[0] as int] == text_cpu());
            if cpu.len() > 2 && 1 <= j + 1 < cpu.len() && kills[j] == cpu[j + 1] {
            } else if hdd.len() > 1 && 1 <= j - pa.len() + 1 < hdd.len() && kills[j] == hdd[j - pa.len() + 1] {
                assert(kinds[hdd[j - pa.len() + 1] as int] == text_hdd());
            } else {
                let m = choose|m: int| 0 <= m < io.len() - 1 && kills[j] == io[m];
                assert(kinds[io[m] as int] == text_io());
            }
        }
    }
    if hdd.len() > 0 {
        assert forall|j: int| 0 <= j < kills.len() implies #[trigger] kills[j] != hdd[0] by {
            assert(kinds[hdd[0] as int] == text_hdd());
            if cpu.len() > 2 && 1 <= j + 1 < cpu.len() && kills[j] == cpu[j + 1] {
                assert(kinds[cpu[j + 1] as int] == text_cpu());
            } else if hdd.len() > 1 && 1 <= j - pa.len() + 1 < hdd.len() && kills[j] == hdd[j - pa.len() + 1] {
            } else {
                let m = choose|m: int| 0 <= m < io.len() - 1 && kills[j] == io[m];
                assert(kinds[io[m] as int] == text_io());
            }
        }
    }
    if io.len() > 0 {
        assert forall|j: int| 0 <= j < kills.len() implies #[trigger] kills[j] != io.last() by {
            assert(kinds[io.last() as int] == text_io());
            if cpu.len() > 2 && 1 <= j + 1 < cpu.len() && kills[j] == cpu[j + 1] {
                assert(kinds[cpu[j + 1] as int] == text_cpu());
            } else if hdd.len() > 1 && 1 <= j - pa.len() + 1 < hdd.len() && kills[j] == hdd[j - pa.len() + 1] {
                assert(kinds[hdd[j - pa.len() + 1] as int] == text_hdd());
            } else {
                let m = choose|m: int| 0 <= m < io.len() - 1 && kills[j] == io[m];
            }
        }
    }
}

/// The rank of the `j`-th container that the plan by halves stops.
pub open spec fn halves_position(n: int, j: int) -> int {
    let h = n / 2;
    if h > 3 && j < h - 3 {
        j + 3
    } else if h > 3 {
        j - (h - 3) + h
    } else {
        j + h
    }
}

/// The plan by halves stops the container at rank `halves_position`, which
/// lies between the two lowest and the two highest ranks; so it never stops
/// the two containers with the least usage nor the two with the most, and
/// stops no container twice.
pub proof fn lemma_halves_spare_ends(order: Seq<usize>)
    requires
        order.no_duplicates(),
    ensures
        forall|j: int|
            0 <= j < halves_plan(order).len() ==> 2 <= halves_position(order.len() as int, j)
                < order.len() - 2 && #[trigger] halves_plan(order)[j] == order[halves_position(
                order.len() as int,
                j,
            )],
        forall|k: int|
            0 <= k < order.len() && (k < 2 || k >= order.len() - 2) ==> !halves_plan(order).contains(
                #[trigger] order[k],
            ),
        halves_plan(order).no_duplicates(),
{
    let n = order.len() as int;
    let h = n / 2;
    let kills = halves_plan(order);
    let e = Seq::<usize>::empty();
    let pa = if h > 3 { order.subrange(3, h) } else { e };
    let pb = if n - h > 2 { order.subrange(h, n - 2) } else { e };
    assert(kills == pa + pb);
    assert forall|j: int| 0 <= j < kills.len() implies 2 <= halves_position(n, j) < n - 2
        && #[trigger] kills[j] == order[halves_position(n, j)] by {
        if j < pa.len() {
            assert(kills[j] == pa[j]);
        } else {
            assert(kills[j] == pb[j - pa.len()]);
        }
    }
    assert forall|k: int| 0 <= k < n && (k < 2 || k >= n - 2) implies !kills.contains(#[trigger] order[k]) by {
        if kills.contains(order[k]) {
            let j = choose|j: int| 0 <= j < kills.len() && kills[j] == order[k];
            assert(order[halves_position(n, j)] == order[k]);
        }
    }
    assert forall|a: int, b: int| 0 <= a < kills.len() && 0 <= b < kills.len() && a != b implies kills[a] != kills[b] by {
        assert(kills[a] == order[halves_position(n, a)]);
        assert(kills[b] == order[halves_position(n, b)]);
    }
}


/// A group keeps the order of the ranking: of any two entries of a group,
/// the earlier one stands earlier in the ranking.
pub proof fn lemma_select_keeps_order(order: Seq<usize>, kinds: Seq<Seq<char>>, kind: Seq<char>)
    ensures
        forall|a: int, b: int|
            0 <= a < b < select(order, kinds, kind).len() ==> exists|i: int, j: int|
                0 <= i < j < order.len() && #[trigger] order[i] == #[trigger] select(order, kinds, kind)[a]
                    && #[trigger] order[j] == #[trigger] select(order, kinds, kind)[b],
    decreases order.len(),
{
    if order.len() > 0 {
        let init = order.drop_last();
        let s0 = select(init, kinds, kind);
        let s = select(order, kinds, kind);
        lemma_select_keeps_order(init, kinds, kind);
        lemma_select(init, kinds, kind);
        assert forall|a: int, b: int| 0 <= a < b < s.len() implies exists|i: int, j: int|
            0 <= i < j < order.len() && #[trigger] order[i] == #[trigger] s[a] && #[trigger] order[j]
                == #[trigger] s[b] by {
            if b < s0.len() {
                assert(s[a] == s0[a] && s[b] == s0[b]);
                let (i, j) = choose|i: int, j: int|
                    0 <= i < j < init.len() && #[trigger] init[i] == #[trigger] s0[a] && #[trigger] init[j]
                        == #[trigger] s0[b];
                assert(order[i] == init[i] && order[j] == init[j]);
            } else {
                assert(s[a] == s0[a]);
                assert(s[b] == order.last());
                assert(init.contains(s0[a]));
                let i = choose|i: int| 0 <= i < init.len() && init[i] == s0[a];
                assert(order[i] == s0[a]);
                assert(order[order.len() - 1] == s[b]);
            }
        }
    }
}

/// `x` is a `cpu` entry but the first, an `hdd` entry but the first, or an
/// `io` entry but the last.
pub open spec fn stopped_by_rule(cpu: Seq<usize>, io: Seq<usize>, hdd: Seq<usize>, x: usize) -> bool {
    ||| exists|k: int| 1 <= k < cpu.len() && #[trigger] cpu[k] == x
    ||| exists|k: int| 1 <= k < hdd.len() && #[trigger] hdd[k] == x
    ||| exists|k: int| 0 <= k < io.len() - 1 && #[trigger] io[k] == x
}

/// The plan by kind stops every `cpu` container but the first where there
/// are more than two, every `hdd` one but the first where there are more
/// than one, every `io` one but the last where there are more than one, and
/// nothing else; it stops the `io` ones twice where there are also two or
/// more `vm` ones.
pub proof fn lemma_kill_plan_complete(cpu: Seq<usize>, vm: Seq<usize>, io: Seq<usize>, hdd: Seq<usize>)
    requires
        vm.len() > 1 ==> io.len() >= 1,
    ensures
        kill_plan(cpu, vm, io, hdd).len() == (if cpu.len() > 2 { cpu.len() - 1 } else { 0 }) + (if hdd.len() > 1 {
            hdd.len() - 1
        } else {
            0
        }) + (if io.len() > 1 { io.len() - 1 } else { 0 }) + (if vm.len() > 1 { io.len() - 1 } else { 0 }),
        cpu.len() > 2 ==> forall|k: int| 1 <= k < cpu.len() ==> kill_plan(cpu, vm, io, hdd).contains(#[trigger] cpu[k]),
        hdd.len() > 1 ==> forall|k: int| 1 <= k < hdd.len() ==> kill_plan(cpu, vm, io, hdd).contains(#[trigger] hdd[k]),
        io.len() > 1 ==> forall|k: int| 0 <= k < io.len() - 1 ==> kill_plan(cpu, vm, io, hdd).contains(#[trigger] io[k]),
        cpu.len() > 2 ==> kill_plan(cpu, vm, io, hdd).take(cpu.len() - 1) == cpu.skip(1),
        cpu.len() <= 2 && hdd.len() > 1 ==> kill_plan(cpu, vm, io, hdd).take(hdd.len() - 1) == hdd.skip(1),
        forall|j: int|
            0 <= j < kill_plan(cpu, vm, io, hdd).len() ==> stopped_by_rule(
                cpu,
                io,
                hdd,
                #[trigger] kill_plan(cpu, vm, io, hdd)[j],
            ),
{
    let kills = kill_plan(cpu, vm, io, hdd);
    let e = Seq::<usize>::empty();
    let pa = if cpu.len() > 2 { cpu.skip(1) } else { e };
    let pb = if hdd.len() > 1 { hdd.skip(1) } else { e };
    let pc = if io.len() > 1 { io.take(io.len() - 1) } else { e };
    let pd = if vm.len() > 1 { io.take(io.len() - 1) } else { e };
    assert(kills == pa + pb + pc + pd);
    if cpu.len() > 2 {
        assert(kills.take(cpu.len() - 1) == cpu.skip(1));
    } else if hdd.len() > 1 {
        assert(kills.take(hdd.len() - 1) == hdd.skip(1));
    }
    if cpu.len() > 2 {
        assert forall|k: int| 1 <= k < cpu.len() implies kills.contains(#[trigger] cpu[k]) by {
            assert(kills[k - 1] == cpu[k]);
        }
    }
    if hdd.len() > 1 {
        assert forall|k: int| 1 <= k < hdd.len() implies kills.contains(#[trigger] hdd[k]) by {
            assert(kills[pa.len() + k - 1] == hdd[k]);
        }
    }
    if io.len() > 1 {
        assert forall|k: int| 0 <= k < io.len() - 1 implies kills.contains(#[trigger] io[k]) by {
            assert(kills[pa.len() + pb.len() + k] == io[k]);
        }
    }
    assert forall|j: int| 0 <= j < kills.len() implies stopped_by_rule(cpu, io, hdd, #[trigger] kills[j]) by {
        if j < pa.len() {
            assert(cpu[j + 1] == kills[j]);
        } else if j < pa.len() + pb.len() {
            assert(hdd[j - pa.len() + 1] == kills[j]);
        } else if j < pa.len() + pb.len() + pc.len() {
            assert(io[j - pa.len() - pb.len()] == kills[j]);
        } else {
            assert(io[j - pa.len() - pb.len() - pc.len()] == kills[j]);
        }
    }
}

/// The plan by halves stops every rank from the fourth up to the split, and
/// every rank from the split up to the last two: exactly
/// `max(0, n/2 - 3) + max(0, n - n/2 - 2)` containers.
pub proof fn lemma_halves_complete(order: Seq<usize>)
    ensures
        halves_plan(order).len() == (if order.len() / 2 > 3 { order.len() / 2 - 3 } else { 0 }) + (if order.len()
            - order.len() / 2 > 2 {
            order.len() - order.len() / 2 - 2
        } else {
            0
        }),
        forall|k: int| 3 <= k < order.len() / 2 ==> halves_plan(order).contains(#[trigger] order[k]),
        forall|k: int| order.len() / 2 <= k < order.len() - 2 ==> halves_plan(order).contains(#[trigger] order[k]),
{
    let n = order.len() as int;
    let h = n / 2;
    let kills = halves_plan(order);
    let e = Seq::<usize>::empty();
    let pa = if h > 3 { order.subrange(3, h) } else { e };
    let pb = if n - h > 2 { order.subrange(h, n - 2) } else { e };
    assert(kills == pa + pb);
    assert forall|k: int| 3 <= k < h implies kills.contains(#[trigger] order[k]) by {
        assert(kills[k - 3] == order[k]);
    }
    assert forall|k: int| h <= k < n - 2 implies kills.contains(#[trigger] order[k]) by {
        assert(kills[pa.len() + k - h] == order[k]);
    }
}

} // verus!
