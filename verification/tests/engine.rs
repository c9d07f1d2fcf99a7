use cpu_topology::cpu::{CpuInfo, Level};
use cpu_topology::groups::{flatten, members_of, partition_of, sort_by_core, step_by_two};
use cpu_topology::keys::{ids_of, insert_key, key_before, keys_of, nodes_of};
use cpu_topology::numa::NodeInfo;

fn cpu(node: u64, memory: u64, socket: u64, core: u64, cpu: u64) -> CpuInfo {
    CpuInfo { node: NodeInfo { node, memory }, socket, core, cpu, l1: core, l2: core, l3: socket }
}

fn sample() -> Vec<CpuInfo> {
    vec![
        cpu(1, 50, 1, 3, 30),
        cpu(0, 70, 0, 1, 10),
        cpu(1, 50, 1, 2, 20),
        cpu(0, 70, 0, 1, 11),
        cpu(1, 50, 1, 3, 31),
        cpu(0, 70, 0, 0, 0),
    ]
}

fn numbers(cpus: &Vec<&CpuInfo>) -> Vec<u64> {
    cpus.iter().map(|c| c.cpu).collect()
}

#[test]
fn keys_are_ordered_by_first_then_second_number() {
    assert!(key_before((1, 9), (2, 0)));
    assert!(key_before((1, 1), (1, 2)));
    assert!(!key_before((1, 1), (1, 1)));
    assert!(!key_before((2, 0), (1, 9)));
    assert!(!key_before((1, 2), (1, 1)));
    assert!(key_before((0, 0), (0, u64::MAX)));
    assert!(key_before((0, u64::MAX), (1, 0)));
}

#[test]
fn key_is_put_in_its_place_once() {
    let mut keys: Vec<(u64, u64)> = Vec::new();
    for key in [(5, 0), (1, 0), (9, 0), (5, 0), (3, 7), (3, 2), (1, 0), (9, 0), (0, 0)] {
        insert_key(&mut keys, key);
    }
    assert_eq!(keys, vec![(0, 0), (1, 0), (3, 2), (3, 7), (5, 0), (9, 0)]);
}

#[test]
fn keys_of_each_level_are_found() {
    let cpus = sample();
    let all: Vec<&CpuInfo> = cpus.iter().collect();
    assert_eq!(keys_of(&all, Level::Cpu), vec![(0, 0), (10, 0), (11, 0), (20, 0), (30, 0), (31, 0)]);
    assert_eq!(keys_of(&all, Level::Core), vec![(0, 0), (1, 0), (2, 0), (3, 0)]);
    assert_eq!(keys_of(&all, Level::Socket), vec![(0, 0), (1, 0)]);
    assert_eq!(keys_of(&all, Level::Node), vec![(0, 70), (1, 50)]);
    assert_eq!(keys_of(&all, Level::L1), vec![(0, 0), (1, 0), (2, 0), (3, 0)]);
    assert_eq!(keys_of(&all, Level::L2), vec![(0, 0), (1, 0), (2, 0), (3, 0)]);
    assert_eq!(keys_of(&all, Level::L3), vec![(0, 0), (1, 0)]);
    assert_eq!(keys_of(&Vec::new(), Level::Cpu), Vec::<(u64, u64)>::new());
    assert_eq!(ids_of(&all, Level::Core), vec![0, 1, 2, 3]);
    assert_eq!(
        nodes_of(&all),
        vec![NodeInfo { node: 0, memory: 70 }, NodeInfo { node: 1, memory: 50 }]
    );
}

#[test]
fn nodes_of_one_number_are_ordered_by_memory() {
    let cpus = vec![cpu(2, 9, 0, 0, 0), cpu(2, 3, 0, 0, 1), cpu(1, 100, 0, 0, 2), cpu(2, 3, 0, 0, 3)];
    let all: Vec<&CpuInfo> = cpus.iter().collect();
    assert_eq!(
        nodes_of(&all),
        vec![
            NodeInfo { node: 1, memory: 100 },
            NodeInfo { node: 2, memory: 3 },
            NodeInfo { node: 2, memory: 9 },
        ]
    );
    let mut sorted: Vec<NodeInfo> = cpus.iter().map(|c| c.node).collect();
    sorted.sort();
    sorted.dedup();
    assert_eq!(nodes_of(&all), sorted);
    assert_eq!(numbers(&members_of(&all, Level::Node, (2, 3))), vec![1, 3]);
    assert_eq!(numbers(&members_of(&all, Level::Node, (2, 9))), vec![0]);
    assert_eq!(numbers(&members_of(&all, Level::Node, (2, 0))), Vec::<u64>::new());
}

#[test]
fn members_keep_the_order_of_the_list() {
    let cpus = sample();
    let all: Vec<&CpuInfo> = cpus.iter().collect();
    assert_eq!(numbers(&members_of(&all, Level::Socket, (1, 0))), vec![30, 20, 31]);
    assert_eq!(numbers(&members_of(&all, Level::Core, (1, 0))), vec![10, 11]);
    assert_eq!(numbers(&members_of(&all, Level::Core, (1, 1))), Vec::<u64>::new());
    assert_eq!(numbers(&members_of(&all, Level::Cpu, (31, 0))), vec![31]);
    assert_eq!(numbers(&members_of(&all, Level::Node, (0, 70))), vec![10, 11, 0]);
    assert_eq!(numbers(&members_of(&all, Level::Node, (0, 50))), Vec::<u64>::new());
}

#[test]
fn groups_come_in_the_order_of_their_keys() {
    let cpus = sample();
    let all: Vec<&CpuInfo> = cpus.iter().collect();
    let by_core: Vec<Vec<u64>> = partition_of(&all, Level::Core).iter().map(numbers).collect();
    assert_eq!(by_core, vec![vec![0], vec![10, 11], vec![20], vec![30, 31]]);
    let by_node: Vec<Vec<u64>> = partition_of(&all, Level::Node).iter().map(numbers).collect();
    assert_eq!(by_node, vec![vec![10, 11, 0], vec![30, 20, 31]]);
    assert_eq!(partition_of(&Vec::new(), Level::Core).len(), 0);
}

#[test]
fn groups_taken_together_hold_every_cpu_once() {
    let cpus = sample();
    let all: Vec<&CpuInfo> = cpus.iter().collect();
    for level in [Level::Cpu, Level::Core, Level::Socket, Level::Node, Level::L1, Level::L2, Level::L3] {
        let mut together = numbers(&flatten(&partition_of(&all, level)));
        together.sort();
        assert_eq!(together, vec![0, 10, 11, 20, 30, 31]);
    }
    assert_eq!(numbers(&flatten(&Vec::new())), Vec::<u64>::new());
    assert_eq!(numbers(&flatten(&vec![Vec::new(), all.clone(), Vec::new()])), numbers(&all));
}

#[test]
fn sorting_by_core_keeps_the_order_within_a_core() {
    let cpus = sample();
    let all: Vec<&CpuInfo> = cpus.iter().collect();
    assert_eq!(numbers(&sort_by_core(&all)), vec![0, 10, 11, 20, 30, 31]);
    let mut expected = all.clone();
    expected.sort_by_key(|c| c.core);
    assert_eq!(sort_by_core(&all), expected);
    let cpus = vec![cpu(0, 0, 0, 1, 5), cpu(0, 0, 0, 0, 4), cpu(0, 0, 0, 1, 3), cpu(0, 0, 0, 0, 2)];
    let all: Vec<&CpuInfo> = cpus.iter().collect();
    assert_eq!(numbers(&sort_by_core(&all)), vec![4, 2, 5, 3]);
}

#[test]
fn every_other_one_is_kept_from_the_first_on() {
    let cpus = sample();
    let all: Vec<&CpuInfo> = cpus.iter().collect();
    assert_eq!(numbers(&step_by_two(&all)), vec![30, 20, 31]);
    assert_eq!(numbers(&step_by_two(&all[..5].to_vec())), vec![30, 20, 31]);
    assert_eq!(numbers(&step_by_two(&all[..4].to_vec())), vec![30, 20]);
    assert_eq!(numbers(&step_by_two(&all[..1].to_vec())), vec![30]);
    assert_eq!(numbers(&step_by_two(&Vec::new())), Vec::<u64>::new());
    let expected: Vec<&CpuInfo> = all.iter().copied().step_by(2).collect();
    assert_eq!(step_by_two(&all), expected);
}
