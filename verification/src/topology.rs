//! The topology of a machine: its logical CPUs as the CPU table lists them,
//! each with the memory of its node, and the questions that can be asked of
//! them.
use crate::cpu::{id_key, named, node_key, Core, Cpu, CpuInfo, Level, Socket, L1, L2, L3};
use crate::error::TopologyError;
use crate::groups::{
    lemma_members, members, members_of, named_groups, one_per_core, partition, partition_of,
    sort_by_core, step_by_two,
};
use crate::keys::{
    has_id, has_node, ids_of, lemma_level_ids, lemma_level_nodes, lemma_same_cpus_same_keys,
    level_ids, level_keys, level_nodes, node_lt, nodes_of,
};
use crate::numa::{get_node_info, lemma_node_info_names_node, node_info, NodeInfo};
use crate::table::{parse_cpu_table, table_rows, CpuRow};
use vstd::prelude::*;
use vstd::utf8::encode_utf8;

verus! {

/// The logical CPUs of a machine, in the order of the CPU table. It is built
/// once from text and never changes.
#[derive(Debug)]
pub struct MachineTopology {
    data: Vec<CpuInfo>,
}

/// The CPU that a row of the table describes, given the report that tells
/// the memory of its node; none where the report does not tell it.
pub open spec fn cpu_of(row: CpuRow, report: Seq<u8>) -> Option<CpuInfo> {
    match node_info(row.node, report) {
        Some(node) => Some(
            CpuInfo {
                node,
                socket: row.socket,
                core: row.core,
                cpu: row.cpu,
                l1: row.l1,
                l2: row.l2,
                l3: row.l3,
            },
        ),
        None => None,
    }
}

/// Row `i` is the first whose node the report gives no memory for.
pub open spec fn first_unresolved(rows: Seq<CpuRow>, report: Seq<u8>, i: int) -> bool {
    &&& 0 <= i < rows.len()
    &&& cpu_of(rows[i], report) is None
    &&& forall|j: int| 0 <= j < i ==> cpu_of(#[trigger] rows[j], report) is Some
}

/// `result` is what the rows and the report make: a topology with one CPU
/// for each row, in the order of the rows, where the report tells the memory
/// of every node; else the error that names the node of the first row for
/// which it does not.
pub open spec fn joins(
    result: Result<MachineTopology, TopologyError>,
    rows: Seq<CpuRow>,
    report: Seq<u8>,
) -> bool {
    match result {
        Ok(topology) => {
            &&& topology@.len() == rows.len()
            &&& forall|i: int|
                0 <= i < rows.len() ==> cpu_of(#[trigger] rows[i], report) == Some(topology@[i])
        },
        Err(e) => exists|i: int|
            first_unresolved(rows, report, i) && e == (TopologyError::MissingNode {
                node: rows[i].node,
            }),
    }
}

/// `result` is what the CPU table and the report make: a format error where
/// the table cannot be read, and else what its rows and the report make.
pub open spec fn builds(
    result: Result<MachineTopology, TopologyError>,
    table: Seq<u8>,
    report: Seq<u8>,
) -> bool {
    match table_rows(table) {
        Some(rows) => joins(result, rows, report),
        None => result matches Err(e) && e == TopologyError::Format,
    }
}

/// No node has two sizes: CPUs with the same node number sit on the same
/// node.
pub open spec fn consistent(cpus: Seq<CpuInfo>) -> bool {
    forall|i: int, j: int|
        0 <= i < cpus.len() && 0 <= j < cpus.len() && (#[trigger] cpus[i]).node.node == (
        #[trigger] cpus[j]).node.node ==> cpus[i].node == cpus[j].node
}

/// The memory of all `nodes` together.
pub open spec fn total_memory(nodes: Seq<NodeInfo>) -> nat
    decreases nodes.len(),
{
    if nodes.len() == 0 {
        0
    } else {
        total_memory(nodes.drop_last()) + nodes.last().memory as nat
    }
}

/// The memory of the first nodes of a list is at most that of the whole
/// list.
pub proof fn lemma_total_memory_prefix(nodes: Seq<NodeInfo>, n: int)
    requires
        0 <= n <= nodes.len(),
    ensures
        total_memory(nodes.take(n)) <= total_memory(nodes),
    decreases nodes.len(),
{
    if n == nodes.len() {
        assert(nodes.take(n) =~= nodes);
    } else {
        assert(nodes.drop_last().take(n) =~= nodes.take(n));
        lemma_total_memory_prefix(nodes.drop_last(), n);
    }
}

/// The order of the rows of the CPU table decides nothing but the order of
/// the CPUs: topologies made of the same rows in another order have the same
/// keys at every level, so the same identifiers and the same nodes, and the
/// same memory.
pub proof fn lemma_row_order(
    first: MachineTopology,
    second: MachineTopology,
    rows: Seq<CpuRow>,
    permuted: Seq<CpuRow>,
    report: Seq<u8>,
)
    requires
        rows.to_multiset() == permuted.to_multiset(),
        joins(Ok(first), rows, report),
        joins(Ok(second), permuted, report),
    ensures
        forall|level: Level| #[trigger] level_keys(first@, level) == level_keys(second@, level),
        forall|level: Level| #[trigger] level_ids(first@, level) == level_ids(second@, level),
        level_nodes(first@) == level_nodes(second@),
        total_memory(level_nodes(first@)) == total_memory(level_nodes(second@)),
{
    rows.to_multiset_ensures();
    permuted.to_multiset_ensures();
    let a = first@;
    let b = second@;
    assert forall|c: CpuInfo| a.contains(c) <==> b.contains(c) by {
        if a.contains(c) {
            let n = choose|n: int| 0 <= n < a.len() && a[n] == c;
            assert(cpu_of(rows[n], report) == Some(a[n]));
            assert(rows.contains(rows[n]));
            assert(permuted.to_multiset().count(rows[n]) > 0);
            assert(permuted.contains(rows[n]));
            let m = choose|m: int| 0 <= m < permuted.len() && permuted[m] == rows[n];
            assert(cpu_of(permuted[m], report) == Some(b[m]));
        }
        if b.contains(c) {
            let n = choose|n: int| 0 <= n < b.len() && b[n] == c;
            assert(cpu_of(permuted[n], report) == Some(b[n]));
            assert(permuted.contains(permuted[n]));
            assert(rows.to_multiset().count(permuted[n]) > 0);
            assert(rows.contains(permuted[n]));
            let m = choose|m: int| 0 <= m < rows.len() && rows[m] == permuted[n];
            assert(cpu_of(rows[m], report) == Some(a[m]));
        }
    }
    assert forall|level: Level| #[trigger] level_keys(a, level) == level_keys(b, level) by {
        lemma_same_cpus_same_keys(a, b, level);
    }
    assert forall|level: Level| #[trigger] level_ids(a, level) == level_ids(b, level) by {
        assert(level_keys(a, level) == level_keys(b, level));
    }
    assert(level_keys(a, Level::Node) == level_keys(b, Level::Node));
}

/// Text decides the topology: what is built twice from the same CPU table
/// and the same report is twice the same error, or twice the same CPUs in
/// the same order, with the same identifiers at every level, the same nodes
/// and the same memory.
pub proof fn lemma_same_text_same_model(
    first: Result<MachineTopology, TopologyError>,
    second: Result<MachineTopology, TopologyError>,
    table: Seq<u8>,
    report: Seq<u8>,
)
    requires
        builds(first, table, report),
        builds(second, table, report),
    ensures
        match (first, second) {
            (Ok(a), Ok(b)) => {
                &&& a@ == b@
                &&& forall|level: Level| #[trigger] level_ids(a@, level) == level_ids(b@, level)
                &&& level_nodes(a@) == level_nodes(b@)
                &&& total_memory(level_nodes(a@)) == total_memory(level_nodes(b@))
            },
            (Err(e), Err(f)) => e == f,
            _ => false,
        },
{
    match table_rows(table) {
        Some(rows) => {
            match (first, second) {
                (Ok(a), Ok(b)) => {
                    assert(a@ =~= b@) by {
                        assert forall|i: int| 0 <= i < a@.len() implies a@[i] == b@[i] by {
                            assert(cpu_of(rows[i], report) == Some(a@[i]));
                            assert(cpu_of(rows[i], report) == Some(b@[i]));
                        }
                    }
                },
                (Err(e), Err(f)) => {
                    let i = choose|i: int|
                        first_unresolved(rows, report, i) && e == (TopologyError::MissingNode {
                            node: rows[i].node,
                        });
                    let j = choose|j: int|
                        first_unresolved(rows, report, j) && f == (TopologyError::MissingNode {
                            node: rows[j].node,
                        });
                    if i < j {
                        assert(cpu_of(rows[i], report) is Some);
                    }
                    if j < i {
                        assert(cpu_of(rows[j], report) is Some);
                    }
                },
                (Ok(a), Err(f)) => {
                    let j = choose|j: int|
                        first_unresolved(rows, report, j) && f == (TopologyError::MissingNode {
                            node: rows[j].node,
                        });
                    assert(cpu_of(rows[j], report) == Some(a@[j]));
                },
                (Err(e), Ok(b)) => {
                    let i = choose|i: int|
                        first_unresolved(rows, report, i) && e == (TopologyError::MissingNode {
                            node: rows[i].node,
                        });
                    assert(cpu_of(rows[i], report) == Some(b@[i]));
                },
            }
        },
        None => {},
    }
}

/// The identifiers are strictly ascending, so without duplicates, and they
/// are the identifiers that `cpus` have at `level`.
pub open spec fn lists_ids(ids: Seq<u64>, cpus: Seq<CpuInfo>, level: Level) -> bool {
    &&& forall|i: int, j: int| 0 <= i < j < ids.len() ==> ids[i] < ids[j]
    &&& forall|id: u64| #[trigger] ids.contains(id) <==> has_id(cpus, level, id)
}

/// For each level-3 cache in ascending order, one hardware thread for each
/// core of the CPUs that use it.
pub open spec fn l3_core_groups(cpus: Seq<CpuInfo>) -> Seq<Seq<CpuInfo>> {
    let caches = level_ids(cpus, Level::L3);
    Seq::new(caches.len(), |i: int| one_per_core(members(cpus, Level::L3, id_key(caches[i]))))
}

impl MachineTopology {
    /// The CPUs, in the order of the CPU table.
    pub closed spec fn view(&self) -> Seq<CpuInfo> {
        self.data@
    }

    #[verifier::type_invariant]
    spec fn node_sizes_agree(&self) -> bool {
        consistent(self.data@)
    }

    /// Joins the rows of the CPU table with the report of
    /// `numactl --hardware`, which tells the memory of each node.
    pub fn from_rows(rows: Vec<CpuRow>, numactl_output: &str) -> (r: Result<
        MachineTopology,
        TopologyError,
    >)
        ensures
            joins(r, rows@, encode_utf8(numactl_output@)),
    {
        let ghost report = encode_utf8(numactl_output@);
        let mut data: Vec<CpuInfo> = Vec::new();
        let mut i: usize = 0;
        while i < rows.len()
            invariant
                0 <= i <= rows.len(),
                report == encode_utf8(numactl_output@),
                data@.len() == i,
                forall|k: int| 0 <= k < i ==> cpu_of(#[trigger] rows@[k], report) == Some(data@[k]),
            decreases rows.len() - i,
        {
            let row = rows[i];
            match get_node_info(row.node, numactl_output) {
                Some(node) => {
                    data.push(
                        CpuInfo {
                            node,
                            socket: row.socket,
                            core: row.core,
                            cpu: row.cpu,
                            l1: row.l1,
                            l2: row.l2,
                            l3: row.l3,
                        },
                    );
                },
                None => {
                    assert(first_unresolved(rows@, report, i as int));
                    return Err(TopologyError::MissingNode { node: row.node });
                },
            }
            i = i + 1;
        }
        proof {
            assert forall|a: int, b: int|
                0 <= a < data@.len() && 0 <= b < data@.len() && (#[trigger] data@[a]).node.node == (
                #[trigger] data@[b]).node.node implies data@[a].node == data@[b].node by {
                assert(cpu_of(rows@[a], report) == Some(data@[a]));
                assert(cpu_of(rows@[b], report) == Some(data@[b]));
                lemma_node_info_names_node(rows@[a].node, report);
                lemma_node_info_names_node(rows@[b].node, report);
            }
        }
        Ok(MachineTopology { data })
    }

    /// Builds the topology from what `lscpu --parse=NODE,SOCKET,CORE,CPU,CACHE`
    /// and `numactl --hardware` printed.
    pub fn from_strings(lscpu_output: String, numactl_output: String) -> (r: Result<
        MachineTopology,
        TopologyError,
    >)
        ensures
            builds(r, encode_utf8(lscpu_output@), encode_utf8(numactl_output@)),
    {
        match parse_cpu_table(lscpu_output.as_str()) {
            Ok(rows) => MachineTopology::from_rows(rows, numactl_output.as_str()),
            Err(e) => Err(e),
        }
    }

    /// All CPUs, in the order of the CPU table.
    fn all(&self) -> (r: Vec<&CpuInfo>)
        ensures
            named(r@) == self@,
    {
        let mut out: Vec<&CpuInfo> = Vec::new();
        let mut i: usize = 0;
        while i < self.data.len()
            invariant
                0 <= i <= self.data.len(),
                out@.len() == i,
                forall|k: int| 0 <= k < i ==> *out@[k] == self.data@[k],
            decreases self.data.len() - i,
        {
            out.push(&self.data[i]);
            i = i + 1;
        }
        assert(named(out@) =~= self@);
        out
    }

    /// The identifiers of a level other than the node level.
    fn ids(&self, level: Level) -> (r: Vec<u64>)
        requires
            level != Level::Node,
        ensures
            r@ == level_ids(self@, level),
            lists_ids(r@, self@, level),
    {
        let all = self.all();
        proof {
            lemma_level_ids(self@, level);
        }
        ids_of(&all, level)
    }

    /// The numbers of the CPUs, each once, in ascending order.
    pub fn cpus(&self) -> (r: Vec<Cpu>)
        ensures
            r@ == level_ids(self@, Level::Cpu),
            forall|i: int, j: int| 0 <= i < j < r@.len() ==> r@[i] < r@[j],
            forall|id: Cpu|
                #[trigger] r@.contains(id) <==> exists|n: int|
                    0 <= n < self@.len() && (#[trigger] self@[n]).cpu == id,
    {
        let r = self.ids(Level::Cpu);
        proof {
            assert forall|id: Cpu|
                #[trigger] r@.contains(id) <==> exists|n: int|
                    0 <= n < self@.len() && (#[trigger] self@[n]).cpu == id by {
                if has_id(self@, Level::Cpu, id) {
                    let n = choose|n: int|
                        0 <= n < self@.len() && (#[trigger] self@[n]).key(Level::Cpu).0 == id;
                    assert(self@[n].cpu == id);
                }
                if exists|n: int| 0 <= n < self@.len() && (#[trigger] self@[n]).cpu == id {
                    let n = choose|n: int| 0 <= n < self@.len() && (#[trigger] self@[n]).cpu == id;
                    assert(self@[n].key(Level::Cpu).0 == id);
                }
            }
        }
        r
    }

    /// The CPU with the number `cpu`: the first in the order of the table
    /// where several have it.
    pub fn cpu(&self, cpu: Cpu) -> (r: Option<&CpuInfo>)
        ensures
            match r {
                Some(found) => {
                    &&& found.cpu == cpu
                    &&& self@.contains(*found)
                    &&& members(self@, Level::Cpu, id_key(cpu)).len() > 0
                    &&& *found == members(self@, Level::Cpu, id_key(cpu))[0]
                },
                None => forall|n: int| 0 <= n < self@.len() ==> (#[trigger] self@[n]).cpu != cpu,
            },
    {
        let all = self.all();
        let found = members_of(&all, Level::Cpu, (cpu, 0));
        proof {
            lemma_members(self@, Level::Cpu, id_key(cpu));
        }
        if found.len() > 0 {
            let first = found[0];
            proof {
                let group = members(self@, Level::Cpu, id_key(cpu));
                assert(named(found@)[0] == *first);
                assert(group.contains(group[0]));
            }
            Some(first)
        } else {
            proof {
                assert forall|n: int| 0 <= n < self@.len() implies (#[trigger] self@[n]).cpu
                    != cpu by {
                    if self@[n].cpu == cpu {
                        assert(self@[n].key(Level::Cpu) == id_key(cpu));
                    }
                }
            }
            None
        }
    }

    /// The numbers of the cores, each once, in ascending order.
    pub fn cores(&self) -> (r: Vec<Core>)
        ensures
            r@ == level_ids(self@, Level::Core),
            lists_ids(r@, self@, Level::Core),
    {
        self.ids(Level::Core)
    }

    /// The numbers of the sockets, each once, in ascending order.
    pub fn sockets(&self) -> (r: Vec<Socket>)
        ensures
            r@ == level_ids(self@, Level::Socket),
            lists_ids(r@, self@, Level::Socket),
    {
        self.ids(Level::Socket)
    }

    /// The nodes, each once, in ascending order. No two have the same number.
    pub fn nodes(&self) -> (r: Vec<NodeInfo>)
        ensures
            r@ == level_nodes(self@),
            forall|i: int, j: int| 0 <= i < j < r@.len() ==> r@[i].node < r@[j].node,
            forall|node: NodeInfo| #[trigger] r@.contains(node) <==> has_node(self@, node),
    {
        let all = self.all();
        let r = nodes_of(&all);
        proof {
            use_type_invariant(self);
            lemma_level_nodes(self@);
            assert forall|i: int, j: int| 0 <= i < j < r@.len() implies r@[i].node < r@[j].node by {
                assert(node_lt(r@[i], r@[j]));
                assert(r@.contains(r@[i]));
                assert(r@.contains(r@[j]));
                let a = choose|a: int| 0 <= a < self@.len() && (#[trigger] self@[a]).node == r@[i];
                let b = choose|b: int| 0 <= b < self@.len() && (#[trigger] self@[b]).node == r@[j];
                assert(self@[a].node.node == self@[b].node.node ==> self@[a].node
                    == self@[b].node);
            }
        }
        r
    }

    /// The memory of all nodes together, in bytes: that of each node once,
    /// however many CPUs sit on it.
    pub fn max_memory(&self) -> (r: u64)
        requires
            total_memory(level_nodes(self@)) <= u64::MAX,
        ensures
            r == total_memory(level_nodes(self@)),
    {
        let nodes = self.nodes();
        let mut sum: u64 = 0;
        let mut i: usize = 0;
        while i < nodes.len()
            invariant
                0 <= i <= nodes.len(),
                sum == total_memory(nodes@.take(i as int)),
                total_memory(nodes@) <= u64::MAX,
            decreases nodes.len() - i,
        {
            proof {
                assert(nodes@.take(i + 1).drop_last() =~= nodes@.take(i as int));
                lemma_total_memory_prefix(nodes@, i + 1);
            }
            sum = sum + nodes[i].memory;
            i = i + 1;
        }
        assert(nodes@.take(i as int) =~= nodes@);
        sum
    }

    /// The identifiers of the level-1 data caches, each once, in ascending
    /// order.
    pub fn l1(&self) -> (r: Vec<L1>)
        ensures
            r@ == level_ids(self@, Level::L1),
            lists_ids(r@, self@, Level::L1),
    {
        self.ids(Level::L1)
    }

    /// The identifiers of the level-2 caches, each once, in ascending order.
    pub fn l2(&self) -> (r: Vec<L2>)
        ensures
            r@ == level_ids(self@, Level::L2),
            lists_ids(r@, self@, Level::L2),
    {
        self.ids(Level::L2)
    }

    /// The identifiers of the level-3 caches, each once, in ascending order.
    pub fn l3(&self) -> (r: Vec<L3>)
        ensures
            r@ == level_ids(self@, Level::L3),
            lists_ids(r@, self@, Level::L3),
    {
        self.ids(Level::L3)
    }

    /// The CPUs on `node`, in the order of the table.
    pub fn cpus_on_node(&self, node: NodeInfo) -> (r: Vec<&CpuInfo>)
        ensures
            named(r@) == members(self@, Level::Node, node_key(node)),
    {
        let all = self.all();
        members_of(&all, Level::Node, (node.node, node.memory))
    }

    /// The CPUs that use the level-1 data cache `l1`, in the order of the
    /// table.
    pub fn cpus_on_l1(&self, l1: L1) -> (r: Vec<&CpuInfo>)
        ensures
            named(r@) == members(self@, Level::L1, id_key(l1)),
    {
        let all = self.all();
        members_of(&all, Level::L1, (l1, 0))
    }

    /// The CPUs that use the level-2 cache `l2`, in the order of the table.
    pub fn cpus_on_l2(&self, l2: L2) -> (r: Vec<&CpuInfo>)
        ensures
            named(r@) == members(self@, Level::L2, id_key(l2)),
    {
        let all = self.all();
        members_of(&all, Level::L2, (l2, 0))
    }

    /// The CPUs that use the level-3 cache `l3`, in the order of the table.
    pub fn cpus_on_l3(&self, l3: L3) -> (r: Vec<&CpuInfo>)
        ensures
            named(r@) == members(self@, Level::L3, id_key(l3)),
    {
        let all = self.all();
        members_of(&all, Level::L3, (l3, 0))
    }

    /// The CPUs on `core`, in the order of the table.
    pub fn cpus_on_core(&self, core: Core) -> (r: Vec<&CpuInfo>)
        ensures
            named(r@) == members(self@, Level::Core, id_key(core)),
    {
        let all = self.all();
        members_of(&all, Level::Core, (core, 0))
    }

    /// The CPUs on `socket`, in the order of the table.
    pub fn cpus_on_socket(&self, socket: Socket) -> (r: Vec<&CpuInfo>)
        ensures
            named(r@) == members(self@, Level::Socket, id_key(socket)),
    {
        let all = self.all();
        members_of(&all, Level::Socket, (socket, 0))
    }

    /// The numbers of the cores on `socket`, each once, in ascending order.
    pub fn cores_on_socket(&self, socket: Socket) -> (r: Vec<Core>)
        ensures
            r@ == level_ids(members(self@, Level::Socket, id_key(socket)), Level::Core),
            lists_ids(r@, members(self@, Level::Socket, id_key(socket)), Level::Core),
    {
        let on_socket = self.cpus_on_socket(socket);
        proof {
            lemma_level_ids(named(on_socket@), Level::Core);
        }
        ids_of(&on_socket, Level::Core)
    }

    /// One hardware thread for each core among the CPUs that use the level-3
    /// cache `l3`, as far as each of these cores has two of them there: the
    /// CPUs in the order of their cores, and of these every other one.
    pub fn cores_on_l3(&self, l3: L3) -> (r: Vec<&CpuInfo>)
        ensures
            named(r@) == one_per_core(members(self@, Level::L3, id_key(l3))),
    {
        let on_cache = self.cpus_on_l3(l3);
        let sorted = sort_by_core(&on_cache);
        step_by_two(&sorted)
    }

    /// The CPUs grouped by socket, the groups in ascending order of the
    /// sockets.
    pub fn same_socket(&self) -> (r: Vec<Vec<&CpuInfo>>)
        ensures
            named_groups(r@) == partition(self@, Level::Socket),
    {
        let all = self.all();
        partition_of(&all, Level::Socket)
    }

    /// The CPUs grouped by core, the groups in ascending order of the cores.
    pub fn same_core(&self) -> (r: Vec<Vec<&CpuInfo>>)
        ensures
            named_groups(r@) == partition(self@, Level::Core),
    {
        let all = self.all();
        partition_of(&all, Level::Core)
    }

    /// The CPUs grouped by node, the groups in ascending order of the nodes.
    pub fn same_node(&self) -> (r: Vec<Vec<&CpuInfo>>)
        ensures
            named_groups(r@) == partition(self@, Level::Node),
    {
        let all = self.all();
        partition_of(&all, Level::Node)
    }

    /// The CPUs grouped by level-1 data cache, the groups in ascending order
    /// of the caches.
    pub fn same_l1(&self) -> (r: Vec<Vec<&CpuInfo>>)
        ensures
            named_groups(r@) == partition(self@, Level::L1),
    {
        let all = self.all();
        partition_of(&all, Level::L1)
    }

    /// The CPUs grouped by level-2 cache, the groups in ascending order of
    /// the caches.
    pub fn same_l2(&self) -> (r: Vec<Vec<&CpuInfo>>)
        ensures
            named_groups(r@) == partition(self@, Level::L2),
    {
        let all = self.all();
        partition_of(&all, Level::L2)
    }

    /// The CPUs grouped by level-3 cache, the groups in ascending order of
    /// the caches.
    pub fn same_l3(&self) -> (r: Vec<Vec<&CpuInfo>>)
        ensures
            named_groups(r@) == partition(self@, Level::L3),
    {
        let all = self.all();
        partition_of(&all, Level::L3)
    }

    /// For each level-3 cache in ascending order, one hardware thread for
    /// each core of the CPUs that use it.
    pub fn same_l3_cores(&self) -> (r: Vec<Vec<&CpuInfo>>)
        ensures
            named_groups(r@) == l3_core_groups(self@),
    {
        let caches = self.l3();
        let mut groups: Vec<Vec<&CpuInfo>> = Vec::new();
        let mut i: usize = 0;
        while i < caches.len()
            invariant
                0 <= i <= caches.len(),
                caches@ == level_ids(self@, Level::L3),
                groups@.len() == i,
                forall|k: int|
                    0 <= k < i ==> named((#[trigger] groups@[k])@) == one_per_core(
                        members(self@, Level::L3, id_key(caches@[k])),
                    ),
            decreases caches.len() - i,
        {
            let group = self.cores_on_l3(caches[i]);
            groups.push(group);
            i = i + 1;
        }
        assert(named_groups(groups@) =~= l3_core_groups(self@));
        groups
    }

    /// All CPUs as one group, in the order of the table.
    pub fn whole_machine(&self) -> (r: Vec<Vec<&CpuInfo>>)
        ensures
            r@.len() == 1,
            named(r@[0]@) == self@,
    {
        let mut groups: Vec<Vec<&CpuInfo>> = Vec::new();
        groups.push(self.all());
        groups
    }

    /// One hardware thread for each core of the machine, as one group, as
    /// far as each core has two of them: the CPUs in the order of their
    /// cores, and of these every other one.
    pub fn whole_machine_cores(&self) -> (r: Vec<Vec<&CpuInfo>>)
        ensures
            r@.len() == 1,
            named(r@[0]@) == one_per_core(self@),
    {
        let all = self.all();
        let sorted = sort_by_core(&all);
        let mut groups: Vec<Vec<&CpuInfo>> = Vec::new();
        groups.push(step_by_two(&sorted));
        groups
    }
}

} // verus!
