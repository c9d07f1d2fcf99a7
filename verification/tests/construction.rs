use cpu_topology::cpu::CpuInfo;
use cpu_topology::error::TopologyError;
use cpu_topology::numa::NodeInfo;
use cpu_topology::table::CpuRow;
use cpu_topology::topology::MachineTopology;

const LSCPU: &str = "# The following is the parsable format, which can be fed to other
# programs. Each different item in every column has an unique ID
# starting from zero.
# Node,Socket,Core,CPU,Cache
0,0,0,0,0:0:0:0
0,0,1,1,1:1:1:0
1,1,2,2,2:2:2:1
1,1,3,3,3:3:3:1
0,0,0,4,0:0:0:0
0,0,1,5,1:1:1:0
1,1,2,6,2:2:2:1
1,1,3,7,3:3:3:1
";

const NUMACTL: &str = "available: 2 nodes (0-1)
node 0 cpus: 0 1 4 5
node 0 size: 32000 MB
node 0 free: 30000 MB
node 1 cpus: 2 3 6 7
node 1 size: 16000 MB
node 1 free: 15000 MB
node distances:
node   0   1 
  0:  10  21 
  1:  21  10 
";

fn build(lscpu: &str, numactl: &str) -> Result<MachineTopology, TopologyError> {
    MachineTopology::from_strings(lscpu.to_string(), numactl.to_string())
}

fn row(node: u64, socket: u64, core: u64, cpu: u64, cache: u64) -> CpuRow {
    CpuRow { node, socket, core, cpu, l1: cache, l2: cache, l3: cache }
}

#[test]
fn one_row_joined_with_its_node() {
    let topology =
        build("0,0,0,0,32768:32768:262144:20971520", "node 0 size: 64000 MB").unwrap();
    let expected = CpuInfo {
        node: NodeInfo { node: 0, memory: 64_000_000_000 },
        socket: 0,
        core: 0,
        cpu: 0,
        l1: 32768,
        l2: 262144,
        l3: 20971520,
    };
    assert_eq!(topology.cpu(0), Some(&expected));
    assert_eq!(topology.cpus(), vec![0]);
    assert_eq!(topology.whole_machine(), vec![vec![&expected]]);
}

#[test]
fn short_cache_descriptor_is_a_format_error() {
    let result = build("0,0,0,0,32768:262144", "node 0 size: 64000 MB");
    assert!(matches!(result, Err(TopologyError::Format)));
}

#[test]
fn long_cache_descriptor_is_a_format_error() {
    let result = build("0,0,0,0,1:2:3:4:5", "node 0 size: 64000 MB");
    assert!(matches!(result, Err(TopologyError::Format)));
}

#[test]
fn cache_descriptor_with_a_word_is_a_format_error() {
    let result = build("0,0,0,0,1:two:3:4", "node 0 size: 64000 MB");
    assert!(matches!(result, Err(TopologyError::Format)));
    let result = build("0,0,0,0,1::3:4", "node 0 size: 64000 MB");
    assert!(matches!(result, Err(TopologyError::Format)));
}

#[test]
fn row_with_a_word_for_a_number_is_a_format_error() {
    let result = build("0,zero,0,0,1:2:3:4", "node 0 size: 64000 MB");
    assert!(matches!(result, Err(TopologyError::Format)));
    let result = build("0,-1,0,0,1:2:3:4", "node 0 size: 64000 MB");
    assert!(matches!(result, Err(TopologyError::Format)));
}

#[test]
fn row_with_too_few_or_too_many_fields_is_a_format_error() {
    let result = build("0,0,0,0", "node 0 size: 64000 MB");
    assert!(matches!(result, Err(TopologyError::Format)));
    let result = build("0,0,0,0,1:2:3:4,9", "node 0 size: 64000 MB");
    assert!(matches!(result, Err(TopologyError::Format)));
    let result = build("0,0,0,0,1:2:3:4\n0,0,0,1\n", "node 0 size: 64000 MB");
    assert!(matches!(result, Err(TopologyError::Format)));
}

#[test]
fn node_without_a_size_line_is_a_missing_node() {
    let result = build(LSCPU, "node 0 size: 32000 MB\nnode 1 free: 15000 MB\n");
    assert!(matches!(result, Err(TopologyError::MissingNode { node: 1 })));
}

#[test]
fn missing_node_names_the_first_row_that_lacks_one() {
    let rows = vec![row(0, 0, 0, 0, 0), row(7, 0, 0, 1, 0), row(9, 0, 0, 2, 0)];
    let result = MachineTopology::from_rows(rows, "node 0 size: 1 MB\n");
    assert!(matches!(result, Err(TopologyError::MissingNode { node: 7 })));
}

#[test]
fn size_line_that_cannot_be_read_is_a_missing_node() {
    let result = build("0,0,0,0,1:2:3:4", "node 0 size: plenty MB");
    assert!(matches!(result, Err(TopologyError::MissingNode { node: 0 })));
}

#[test]
fn format_error_comes_before_missing_node() {
    let result = build("5,0,0,0,1:2:3:4\n0,0,0,1,1:2\n", "node 0 size: 64000 MB");
    assert!(matches!(result, Err(TopologyError::Format)));
}

#[test]
fn nothing_is_built_from_a_table_with_one_bad_row() {
    let table = "0,0,0,0,0:0:0:0\n0,0,0,1,0:0:0\n0,0,1,2,1:1:1:0\n";
    assert!(build(table, NUMACTL).is_err());
}

#[test]
fn empty_table_makes_an_empty_topology() {
    let topology = build("", NUMACTL).unwrap();
    assert_eq!(topology.cpus(), Vec::<u64>::new());
    assert_eq!(topology.nodes(), Vec::<NodeInfo>::new());
    assert_eq!(topology.max_memory(), 0);
    assert_eq!(topology.same_socket().len(), 0);
    assert_eq!(topology.whole_machine(), vec![Vec::<&CpuInfo>::new()]);
    let topology = build("# nothing but a comment\n\n", "").unwrap();
    assert_eq!(topology.cpus(), Vec::<u64>::new());
}

#[test]
fn comments_and_blank_lines_hold_no_rows() {
    let table = "# Node,Socket,Core,CPU,Cache\n\n   \n\t# indented comment\n0,0,0,0,1:2:3:4\n\n#\n0,0,0,1,1:2:3:4\n";
    let topology = build(table, "node 0 size: 1 MB").unwrap();
    assert_eq!(topology.cpus(), vec![0, 1]);
}

#[test]
fn rows_keep_the_order_of_the_table() {
    let topology = build("0,0,3,9,1:1:1:1\n0,0,1,2,1:1:1:1\n0,0,2,5,1:1:1:1\n", NUMACTL).unwrap();
    let machine = topology.whole_machine();
    let order: Vec<u64> = machine[0].iter().map(|c| c.cpu).collect();
    assert_eq!(order, vec![9, 2, 5]);
}

#[test]
fn level_one_instruction_cache_is_read_and_left_out() {
    let topology = build("0,0,0,0,11:22:33:44", "node 0 size: 1 MB").unwrap();
    let cpu = topology.cpu(0).unwrap();
    assert_eq!((cpu.l1, cpu.l2, cpu.l3), (11, 33, 44));
    assert_eq!(topology.l1(), vec![11]);
    assert_eq!(topology.l2(), vec![33]);
    assert_eq!(topology.l3(), vec![44]);
}

#[test]
fn quoted_cache_descriptor_is_read_as_the_plain_one() {
    let topology = build("0,0,0,0,\"1:2:3:4\"\n", "node 0 size: 1 MB").unwrap();
    let cpu = topology.cpu(0).unwrap();
    assert_eq!((cpu.l1, cpu.l2, cpu.l3), (1, 3, 4));
}

#[test]
fn from_rows_joins_each_row_with_its_node() {
    let rows = vec![
        CpuRow { node: 1, socket: 2, core: 3, cpu: 4, l1: 5, l2: 6, l3: 7 },
        CpuRow { node: 0, socket: 8, core: 9, cpu: 10, l1: 11, l2: 12, l3: 13 },
    ];
    let topology = MachineTopology::from_rows(rows, NUMACTL).unwrap();
    let first = CpuInfo {
        node: NodeInfo { node: 1, memory: 16_000_000_000 },
        socket: 2,
        core: 3,
        cpu: 4,
        l1: 5,
        l2: 6,
        l3: 7,
    };
    let second = CpuInfo {
        node: NodeInfo { node: 0, memory: 32_000_000_000 },
        socket: 8,
        core: 9,
        cpu: 10,
        l1: 11,
        l2: 12,
        l3: 13,
    };
    assert_eq!(topology.whole_machine(), vec![vec![&first, &second]]);
}

#[test]
fn same_text_builds_the_same_model() {
    let first = build(LSCPU, NUMACTL).unwrap();
    let second = build(LSCPU, NUMACTL).unwrap();
    assert_eq!(first.cpus(), second.cpus());
    assert_eq!(first.sockets(), second.sockets());
    assert_eq!(first.nodes(), second.nodes());
    assert_eq!(first.max_memory(), second.max_memory());
    assert_eq!(first.whole_machine(), second.whole_machine());
}

#[test]
fn same_bad_text_gives_the_same_error() {
    let first = build(LSCPU, "node 0 size: 1 MB").unwrap_err();
    let second = build(LSCPU, "node 0 size: 1 MB").unwrap_err();
    assert_eq!(first, second);
    assert_eq!(first, TopologyError::MissingNode { node: 1 });
}
