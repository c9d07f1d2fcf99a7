use cpu_topology::cpu::CpuInfo;
use cpu_topology::numa::NodeInfo;
use cpu_topology::table::CpuRow;
use cpu_topology::topology::MachineTopology;

const LSCPU: &str = "# Node,Socket,Core,CPU,Cache
0,0,0,0,0:0:0:0
0,0,1,1,1:1:1:0
1,1,2,2,2:2:2:1
1,1,3,3,3:3:3:1
0,0,0,4,0:0:0:0
0,0,1,5,1:1:1:0
1,1,2,6,2:2:2:1
1,1,3,7,3:3:3:1
";

const NUMACTL: &str = "available: 2 nodes (0-1)
node 0 cpus: 0 1 4 5
node 0 size: 32000 MB
node 0 free: 30000 MB
node 1 cpus: 2 3 6 7
node 1 size: 16000 MB
node 1 free: 15000 MB
";

const NODE0: NodeInfo = NodeInfo { node: 0, memory: 32_000_000_000 };

const NODE1: NodeInfo = NodeInfo { node: 1, memory: 16_000_000_000 };

fn machine() -> MachineTopology {
    MachineTopology::from_strings(LSCPU.to_string(), NUMACTL.to_string()).unwrap()
}

fn numbers(cpus: &Vec<&CpuInfo>) -> Vec<u64> {
    cpus.iter().map(|c| c.cpu).collect()
}

fn numbers_of_each(groups: &Vec<Vec<&CpuInfo>>) -> Vec<Vec<u64>> {
    groups.iter().map(numbers).collect()
}

fn row(node: u64, socket: u64, core: u64, cpu: u64, l3: u64) -> CpuRow {
    CpuRow { node, socket, core, cpu, l1: core, l2: core, l3 }
}

#[test]
fn cpu_numbers_ascend_without_duplicates() {
    let table = "0,0,0,7,0:0:0:0\n0,0,0,3,0:0:0:0\n0,0,1,7,0:0:0:0\n0,0,1,5,0:0:0:0\n0,0,1,3,0:0:0:0\n";
    let topology = MachineTopology::from_strings(table.to_string(), NUMACTL.to_string()).unwrap();
    assert_eq!(topology.cpus(), vec![3, 5, 7]);
    assert_eq!(machine().cpus(), vec![0, 1, 2, 3, 4, 5, 6, 7]);
}

#[test]
fn identifiers_of_every_level_ascend_without_duplicates() {
    let topology = machine();
    assert_eq!(topology.cores(), vec![0, 1, 2, 3]);
    assert_eq!(topology.sockets(), vec![0, 1]);
    assert_eq!(topology.nodes(), vec![NODE0, NODE1]);
    assert_eq!(topology.l1(), vec![0, 1, 2, 3]);
    assert_eq!(topology.l2(), vec![0, 1, 2, 3]);
    assert_eq!(topology.l3(), vec![0, 1]);
}

#[test]
fn identifiers_ascend_by_number_not_by_text() {
    let rows = vec![row(0, 10, 100, 1000, 9), row(0, 9, 20, 200, 10), row(0, 100, 3, 30, 100)];
    let topology = MachineTopology::from_rows(rows, NUMACTL).unwrap();
    assert_eq!(topology.cpus(), vec![30, 200, 1000]);
    assert_eq!(topology.cores(), vec![3, 20, 100]);
    assert_eq!(topology.sockets(), vec![9, 10, 100]);
    assert_eq!(topology.l3(), vec![9, 10, 100]);
}

#[test]
fn cpu_is_looked_up_by_its_number() {
    let topology = machine();
    let cpu = topology.cpu(6).unwrap();
    assert_eq!(
        *cpu,
        CpuInfo { node: NODE1, socket: 1, core: 2, cpu: 6, l1: 2, l2: 2, l3: 1 }
    );
    assert_eq!(topology.cpu(8), None);
}

#[test]
fn first_cpu_of_a_number_is_found() {
    let rows = vec![row(0, 0, 1, 5, 0), row(1, 1, 2, 5, 0)];
    let topology = MachineTopology::from_rows(rows, NUMACTL).unwrap();
    assert_eq!(topology.cpu(5).unwrap().core, 1);
}

#[test]
fn memory_counts_each_node_once() {
    assert_eq!(machine().max_memory(), 48_000_000_000);
    let one = MachineTopology::from_strings(
        "0,0,0,0,0:0:0:0\n0,0,0,1,0:0:0:0\n0,0,1,2,0:0:0:0\n".to_string(),
        NUMACTL.to_string(),
    )
    .unwrap();
    assert_eq!(one.max_memory(), 32_000_000_000);
}

#[test]
fn memory_does_not_depend_on_the_order_of_the_rows() {
    let permuted = "1,1,3,7,3:3:3:1
0,0,0,4,0:0:0:0
1,1,2,2,2:2:2:1
0,0,1,5,1:1:1:0
0,0,0,0,0:0:0:0
1,1,3,3,3:3:3:1
1,1,2,6,2:2:2:1
0,0,1,1,1:1:1:0
";
    let first = machine();
    let second =
        MachineTopology::from_strings(permuted.to_string(), NUMACTL.to_string()).unwrap();
    assert_eq!(second.max_memory(), 48_000_000_000);
    assert_eq!(first.max_memory(), second.max_memory());
    assert_eq!(first.nodes(), second.nodes());
    assert_eq!(first.cpus(), second.cpus());
    assert_eq!(first.cores(), second.cores());
    assert_eq!(first.sockets(), second.sockets());
    assert_eq!(first.l3(), second.l3());
}

#[test]
fn cpus_of_a_unit_come_in_the_order_of_the_table() {
    let topology = machine();
    assert_eq!(numbers(&topology.cpus_on_socket(0)), vec![0, 1, 4, 5]);
    assert_eq!(numbers(&topology.cpus_on_socket(1)), vec![2, 3, 6, 7]);
    assert_eq!(numbers(&topology.cpus_on_socket(2)), Vec::<u64>::new());
    assert_eq!(numbers(&topology.cpus_on_core(1)), vec![1, 5]);
    assert_eq!(numbers(&topology.cpus_on_core(4)), Vec::<u64>::new());
    assert_eq!(numbers(&topology.cpus_on_l1(3)), vec![3, 7]);
    assert_eq!(numbers(&topology.cpus_on_l2(2)), vec![2, 6]);
    assert_eq!(numbers(&topology.cpus_on_l3(0)), vec![0, 1, 4, 5]);
    assert_eq!(numbers(&topology.cpus_on_l3(1)), vec![2, 3, 6, 7]);
    assert_eq!(numbers(&topology.cpus_on_node(NODE0)), vec![0, 1, 4, 5]);
    assert_eq!(numbers(&topology.cpus_on_node(NODE1)), vec![2, 3, 6, 7]);
}

#[test]
fn node_is_matched_with_its_memory() {
    let topology = machine();
    let other = NodeInfo { node: 0, memory: 1 };
    assert_eq!(numbers(&topology.cpus_on_node(other)), Vec::<u64>::new());
}

#[test]
fn levels_are_not_mixed_up() {
    let rows = vec![CpuRow { node: 1, socket: 2, core: 3, cpu: 4, l1: 5, l2: 6, l3: 7 }];
    let topology = MachineTopology::from_rows(rows, "node 1 size: 8 MB").unwrap();
    assert_eq!(topology.nodes(), vec![NodeInfo { node: 1, memory: 8_000_000 }]);
    assert_eq!(topology.sockets(), vec![2]);
    assert_eq!(topology.cores(), vec![3]);
    assert_eq!(topology.cpus(), vec![4]);
    assert_eq!(topology.l1(), vec![5]);
    assert_eq!(topology.l2(), vec![6]);
    assert_eq!(topology.l3(), vec![7]);
    assert_eq!(topology.cpus_on_socket(2).len(), 1);
    assert_eq!(topology.cpus_on_core(3).len(), 1);
    assert_eq!(topology.cpus_on_l1(5).len(), 1);
    assert_eq!(topology.cpus_on_l2(6).len(), 1);
    assert_eq!(topology.cpus_on_l3(7).len(), 1);
    assert_eq!(topology.cpus_on_socket(3).len(), 0);
    assert_eq!(topology.cpus_on_core(4).len(), 0);
    assert_eq!(topology.cpus_on_l1(6).len(), 0);
    assert_eq!(topology.cpus_on_l2(7).len(), 0);
    assert_eq!(topology.cpus_on_l3(5).len(), 0);
    assert_eq!(topology.cores_on_socket(2), vec![3]);
    assert_eq!(topology.cores_on_socket(3), Vec::<u64>::new());
}

#[test]
fn cores_of_a_socket_ascend_without_duplicates() {
    let topology = machine();
    assert_eq!(topology.cores_on_socket(0), vec![0, 1]);
    assert_eq!(topology.cores_on_socket(1), vec![2, 3]);
    assert_eq!(topology.cores_on_socket(2), Vec::<u64>::new());
}

#[test]
fn groups_of_every_level_come_in_ascending_order() {
    let topology = machine();
    assert_eq!(numbers_of_each(&topology.same_socket()), vec![vec![0, 1, 4, 5], vec![2, 3, 6, 7]]);
    assert_eq!(
        numbers_of_each(&topology.same_core()),
        vec![vec![0, 4], vec![1, 5], vec![2, 6], vec![3, 7]]
    );
    assert_eq!(numbers_of_each(&topology.same_node()), vec![vec![0, 1, 4, 5], vec![2, 3, 6, 7]]);
    assert_eq!(
        numbers_of_each(&topology.same_l1()),
        vec![vec![0, 4], vec![1, 5], vec![2, 6], vec![3, 7]]
    );
    assert_eq!(
        numbers_of_each(&topology.same_l2()),
        vec![vec![0, 4], vec![1, 5], vec![2, 6], vec![3, 7]]
    );
    assert_eq!(numbers_of_each(&topology.same_l3()), vec![vec![0, 1, 4, 5], vec![2, 3, 6, 7]]);
    assert_eq!(numbers_of_each(&topology.whole_machine()), vec![vec![0, 1, 2, 3, 4, 5, 6, 7]]);
}

#[test]
fn groups_divide_the_cpus_among_them() {
    let topology = machine();
    let all = topology.cpus();
    let levels = vec![
        topology.same_socket(),
        topology.same_core(),
        topology.same_node(),
        topology.same_l1(),
        topology.same_l2(),
        topology.same_l3(),
        topology.whole_machine(),
    ];
    for groups in levels {
        let mut seen: Vec<u64> = Vec::new();
        for group in &groups {
            assert!(!group.is_empty());
            for cpu in group {
                assert!(!seen.contains(&cpu.cpu));
                seen.push(cpu.cpu);
            }
        }
        seen.sort();
        assert_eq!(seen, all);
    }
}

#[test]
fn groups_follow_the_identifiers_of_their_level() {
    let rows = vec![row(1, 7, 30, 0, 2), row(0, 3, 10, 1, 9), row(1, 7, 20, 2, 2), row(0, 5, 10, 3, 4)];
    let topology = MachineTopology::from_rows(rows, NUMACTL).unwrap();
    let sockets = topology.sockets();
    let groups = topology.same_socket();
    assert_eq!(sockets, vec![3, 5, 7]);
    assert_eq!(groups.len(), sockets.len());
    for (socket, group) in sockets.iter().zip(groups.iter()) {
        assert_eq!(*group, topology.cpus_on_socket(*socket));
    }
    assert_eq!(numbers_of_each(&topology.same_core()), vec![vec![1, 3], vec![2], vec![0]]);
    assert_eq!(numbers_of_each(&topology.same_node()), vec![vec![1, 3], vec![0, 2]]);
    assert_eq!(numbers_of_each(&topology.same_l3()), vec![vec![0, 2], vec![3], vec![1]]);
}

#[test]
fn one_thread_of_each_core_is_kept() {
    let topology = machine();
    assert_eq!(numbers(&topology.cores_on_l3(0)), vec![0, 1]);
    assert_eq!(numbers(&topology.cores_on_l3(1)), vec![2, 3]);
    assert_eq!(numbers(&topology.cores_on_l3(2)), Vec::<u64>::new());
    assert_eq!(numbers_of_each(&topology.same_l3_cores()), vec![vec![0, 1], vec![2, 3]]);
    assert_eq!(numbers_of_each(&topology.whole_machine_cores()), vec![vec![0, 1, 2, 3]]);
}

#[test]
fn half_of_the_threads_is_kept_where_each_core_has_two() {
    let topology = machine();
    for cache in topology.l3() {
        assert_eq!(topology.cores_on_l3(cache).len(), topology.cpus_on_l3(cache).len() / 2);
    }
    let cores = topology.whole_machine_cores();
    assert_eq!(cores.len(), 1);
    assert_eq!(cores[0].len(), topology.whole_machine()[0].len() / 2);
    assert_eq!(cores[0].len(), topology.cores().len());
}

#[test]
fn threads_are_sorted_by_core_before_every_other_is_kept() {
    let rows = vec![
        row(0, 0, 2, 10, 0),
        row(0, 0, 1, 11, 0),
        row(0, 0, 2, 12, 0),
        row(0, 0, 0, 13, 0),
        row(0, 0, 1, 14, 0),
        row(0, 0, 0, 15, 0),
    ];
    let topology = MachineTopology::from_rows(rows, NUMACTL).unwrap();
    assert_eq!(numbers_of_each(&topology.whole_machine_cores()), vec![vec![13, 11, 10]]);
    assert_eq!(numbers(&topology.cores_on_l3(0)), vec![13, 11, 10]);
}

#[test]
fn every_other_thread_is_kept_whatever_the_cores_have() {
    let rows = vec![
        row(0, 0, 0, 0, 0),
        row(0, 0, 1, 1, 0),
        row(0, 0, 1, 2, 0),
        row(0, 0, 1, 3, 0),
        row(0, 0, 2, 4, 0),
    ];
    let topology = MachineTopology::from_rows(rows, NUMACTL).unwrap();
    assert_eq!(numbers_of_each(&topology.whole_machine_cores()), vec![vec![0, 2, 4]]);
    let single =
        MachineTopology::from_rows(vec![row(0, 0, 0, 0, 0), row(0, 0, 1, 1, 0)], NUMACTL).unwrap();
    assert_eq!(numbers_of_each(&single.whole_machine_cores()), vec![vec![0]]);
}

#[test]
fn cores_split_between_caches_are_not_halved() {
    let rows = vec![row(0, 0, 0, 0, 1), row(0, 0, 0, 1, 2)];
    let topology = MachineTopology::from_rows(rows, NUMACTL).unwrap();
    assert_eq!(numbers(&topology.cores_on_l3(1)), vec![0]);
    assert_eq!(numbers(&topology.cores_on_l3(2)), vec![1]);
    assert_eq!(numbers_of_each(&topology.same_l3_cores()), vec![vec![0], vec![1]]);
}
