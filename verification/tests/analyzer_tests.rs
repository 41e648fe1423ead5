use std::cmp::Ordering;

use contenedores::analyzer::{
    analyzer, analyzer_by_halves, cpu_order, partition_by_kind, plan_by_halves, plan_kills,
    usage_order, KindLists,
};
use contenedores::container::Process;
use contenedores::sort::stable_order;

fn process(pid: u32, cpu_key: u64, memory_key: u64) -> Process {
    Process {
        pid,
        name: format!("p{}", pid),
        cmd_line: format!("shim -id c{}", pid),
        memory_key,
        cpu_key,
    }
}

fn kinds(list: &[&str]) -> Vec<String> {
    list.iter().map(|s| s.to_string()).collect()
}

#[test]
fn compare_by_cpu_then_memory() {
    let a = process(1, 5, 9);
    let b = process(2, 7, 1);
    let c = process(3, 5, 2);
    assert_eq!(a.cmp(&b), Ordering::Less);
    assert_eq!(b.cmp(&a), Ordering::Greater);
    assert_eq!(a.cmp(&c), Ordering::Greater);
    assert_eq!(c.cmp(&a), Ordering::Less);
    assert_eq!(a.cmp(&process(4, 5, 9)), Ordering::Equal);
    assert_eq!(a.partial_cmp(&b), Some(Ordering::Less));
}

#[test]
fn stable_order_of_keys() {
    let keys = vec![(3, 0), (1, 5), (3, 0), (1, 2), (0, 9)];
    assert_eq!(stable_order(&keys), vec![4, 3, 1, 0, 2]);
    assert!(stable_order(&Vec::new()).is_empty());
}

#[test]
fn cpu_order_keeps_ties() {
    let ps = vec![process(1, 4, 9), process(2, 2, 0), process(3, 4, 1), process(4, 1, 7)];
    assert_eq!(cpu_order(&ps), vec![3, 1, 0, 2]);
    assert_eq!(usage_order(&ps), vec![3, 1, 2, 0]);
}

#[test]
fn partition_keeps_rank() {
    let order = vec![2, 0, 3, 1, 4];
    let ks = kinds(&["cpu", "vm", "cpu", "io", "python"]);
    let lists = partition_by_kind(&order, &ks);
    assert_eq!(lists.cpu, vec![2, 0]);
    assert_eq!(lists.vm, vec![1]);
    assert_eq!(lists.io, vec![3]);
    assert!(lists.hdd.is_empty());
}

#[test]
fn kill_plan_rules() {
    let lists = KindLists { cpu: vec![1, 2, 3], vm: vec![], io: vec![7, 8, 9], hdd: vec![4, 5] };
    assert_eq!(plan_kills(&lists), vec![2, 3, 5, 7, 8]);
    let two_cpu = KindLists { cpu: vec![1, 2], vm: vec![], io: vec![9], hdd: vec![4] };
    assert!(plan_kills(&two_cpu).is_empty());
}

#[test]
fn kill_plan_vm_stops_io_again() {
    let lists = KindLists { cpu: vec![], vm: vec![10, 11], io: vec![7, 8], hdd: vec![] };
    assert_eq!(plan_kills(&lists), vec![7, 7]);
    let one_io = KindLists { cpu: vec![], vm: vec![10, 11], io: vec![7], hdd: vec![] };
    assert!(plan_kills(&one_io).is_empty());
}

#[test]
fn one_round() {
    let ps = vec![
        process(10, 50, 0),
        process(11, 10, 0),
        process(12, 30, 0),
        process(13, 20, 0),
        process(14, 40, 0),
        process(15, 5, 0),
    ];
    let ks = kinds(&["cpu", "cpu", "cpu", "hdd", "hdd", "python"]);
    let r = analyzer(&ps, &ks);
    assert_eq!(r.order, vec![5, 1, 3, 2, 4, 0]);
    assert_eq!(r.lists.cpu, vec![1, 2, 0]);
    assert_eq!(r.lists.hdd, vec![3, 4]);
    assert_eq!(r.kills, vec![2, 0, 4]);
}

#[test]
fn round_spares_one_of_each_kind() {
    let ps: Vec<Process> = (0..8).map(|i| process(i, (8 - i) as u64, 0)).collect();
    let ks = kinds(&["cpu", "cpu", "cpu", "io", "io", "hdd", "hdd", "vm"]);
    let r = analyzer(&ps, &ks);
    assert!(!r.kills.contains(&r.lists.cpu[0]));
    assert!(!r.kills.contains(&r.lists.hdd[0]));
    assert!(!r.kills.contains(r.lists.io.last().unwrap()));
    assert!(!r.kills.contains(&7));
}

#[test]
fn halves_plan_positions() {
    let order: Vec<usize> = (100..108).collect();
    assert_eq!(plan_by_halves(&order), vec![103, 104, 105]);
    let five: Vec<usize> = (0..5).collect();
    assert_eq!(plan_by_halves(&five), vec![2]);
    let four: Vec<usize> = (0..4).collect();
    assert!(plan_by_halves(&four).is_empty());
    let ten: Vec<usize> = (0..10).collect();
    assert_eq!(plan_by_halves(&ten), vec![3, 4, 5, 6, 7]);
}

#[test]
fn halves_round() {
    let ps: Vec<Process> = (0..8).map(|i| process(i, (i % 3) as u64, (8 - i) as u64)).collect();
    let r = analyzer_by_halves(&ps);
    assert_eq!(r.order, vec![6, 3, 0, 7, 4, 1, 5, 2]);
    assert_eq!(r.split, 4);
    assert_eq!(r.kills, vec![7, 4, 1]);
}

#[test]
fn halves_spare_both_ends() {
    for n in 0..20usize {
        let order: Vec<usize> = (0..n).map(|i| 1000 + i).collect();
        let kills = plan_by_halves(&order);
        for (k, x) in order.iter().enumerate() {
            if k < 2 || k + 2 >= n {
                assert!(!kills.contains(x));
            }
        }
        let mut sorted = kills.clone();
        sorted.dedup();
        assert_eq!(sorted.len(), kills.len());
    }
}

#[test]
fn comparison_is_a_total_order() {
    let ps = vec![process(1, 1, 1), process(2, 1, 2), process(3, 2, 0), process(4, 1, 1)];
    for a in &ps {
        assert_eq!(a.cmp(a), Ordering::Equal);
        for b in &ps {
            assert_eq!(a.cmp(b), b.cmp(a).reverse());
            for c in &ps {
                if a.cmp(b) != Ordering::Greater && b.cmp(c) != Ordering::Greater {
                    assert_ne!(a.cmp(c), Ordering::Greater);
                }
            }
        }
    }
}
