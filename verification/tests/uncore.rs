use cpu_topology::cache::{cache_size, size_of_cache, CacheKind, CacheParams};
use cpu_topology::table::CpuRow;
use cpu_topology::topology::MachineTopology;
use cpu_topology::uncore::{make_cbox_name, socket_uncore_devices};

const NUMACTL: &str = "node 0 size: 32000 MB\nnode 1 size: 16000 MB\n";

fn row(socket: u64, core: u64, cpu: u64) -> CpuRow {
    CpuRow { node: socket, socket, core, cpu, l1: core, l2: core, l3: socket }
}

fn cache(level: u8, kind: CacheKind, ways: usize, line: usize, sets: usize) -> CacheParams {
    CacheParams { level, kind, associativity: ways, partitions: 1, line_size: line, sets }
}

#[test]
fn box_is_the_core_modulo_the_cores_of_the_socket() {
    let rows = vec![
        row(0, 0, 0),
        row(0, 1, 1),
        row(0, 2, 2),
        row(1, 3, 3),
        row(1, 4, 4),
        row(1, 5, 5),
        row(0, 0, 6),
        row(1, 5, 7),
    ];
    let topology = MachineTopology::from_rows(rows, NUMACTL).unwrap();
    let names: Vec<String> =
        (0..8).map(|cpu| topology.cpu(cpu).unwrap().cbox(&topology)).collect();
    assert_eq!(
        names,
        vec![
            "uncore_cbox_0",
            "uncore_cbox_1",
            "uncore_cbox_2",
            "uncore_cbox_0",
            "uncore_cbox_1",
            "uncore_cbox_2",
            "uncore_cbox_0",
            "uncore_cbox_2",
        ]
    );
}

#[test]
fn box_of_the_only_core_of_a_socket_is_the_first() {
    let topology = MachineTopology::from_rows(vec![row(1, 17, 0)], NUMACTL).unwrap();
    assert_eq!(topology.cpu(0).unwrap().cbox(&topology), "uncore_cbox_0");
}

#[test]
fn box_names_hold_the_number_in_base_ten() {
    assert_eq!(make_cbox_name(0), "uncore_cbox_0");
    assert_eq!(make_cbox_name(9), "uncore_cbox_9");
    assert_eq!(make_cbox_name(10), "uncore_cbox_10");
    assert_eq!(make_cbox_name(2047), "uncore_cbox_2047");
    assert_eq!(make_cbox_name(u64::MAX), "uncore_cbox_18446744073709551615");
}

#[test]
fn every_socket_has_the_same_ten_devices() {
    assert_eq!(
        socket_uncore_devices(),
        vec![
            "uncore_ha_0",
            "uncore_imc_0",
            "uncore_imc_1",
            "uncore_imc_2",
            "uncore_imc_3",
            "uncore_pcu",
            "uncore_r2pcie",
            "uncore_r3qpi_0",
            "uncore_r3qpi_1",
            "uncore_ubox",
        ]
    );
}

#[test]
fn cache_size_is_the_product_of_its_four_numbers() {
    assert_eq!(cache_size(&cache(1, CacheKind::Data, 8, 64, 64)), Some(32768));
    let partitioned = CacheParams {
        level: 2,
        kind: CacheKind::Unified,
        associativity: 3,
        partitions: 5,
        line_size: 7,
        sets: 11,
    };
    assert_eq!(cache_size(&partitioned), Some(1155));
    assert_eq!(cache_size(&cache(3, CacheKind::Unified, 20, 64, 16384)), Some(20971520));
    assert_eq!(cache_size(&cache(3, CacheKind::Unified, 0, 64, 16384)), Some(0));
    assert_eq!(cache_size(&cache(3, CacheKind::Unified, usize::MAX, 64, 0)), Some(0));
    assert_eq!(cache_size(&cache(3, CacheKind::Unified, usize::MAX, 1, 1)), Some(u64::MAX));
    assert_eq!(cache_size(&cache(3, CacheKind::Unified, usize::MAX, 2, 1)), None);
    assert_eq!(cache_size(&cache(3, CacheKind::Unified, usize::MAX, 1, 2)), None);
}

#[test]
fn cache_is_chosen_by_level_and_kind() {
    let caches = vec![
        cache(1, CacheKind::Data, 8, 64, 64),
        cache(1, CacheKind::Instruction, 8, 64, 128),
        cache(2, CacheKind::Unified, 4, 64, 1024),
        cache(3, CacheKind::Unified, 20, 64, 16384),
        cache(3, CacheKind::Unified, 1, 1, 1),
    ];
    assert_eq!(size_of_cache(&caches, 1, CacheKind::Data), Some(32768));
    assert_eq!(size_of_cache(&caches, 1, CacheKind::Instruction), Some(65536));
    assert_eq!(size_of_cache(&caches, 2, CacheKind::Unified), Some(262144));
    assert_eq!(size_of_cache(&caches, 3, CacheKind::Unified), Some(20971520));
    assert_eq!(size_of_cache(&caches, 1, CacheKind::Unified), None);
    assert_eq!(size_of_cache(&caches, 2, CacheKind::Data), None);
    assert_eq!(size_of_cache(&caches, 4, CacheKind::Unified), None);
    assert_eq!(size_of_cache(&Vec::new(), 1, CacheKind::Data), None);
}

#[test]
fn caches_of_the_processor_at_hand_can_be_asked_for() {
    let topology = MachineTopology::from_rows(Vec::new(), "").unwrap();
    let sizes = [topology.l1_size(), topology.l2_size(), topology.l3_size()];
    assert_eq!(sizes, [topology.l1_size(), topology.l2_size(), topology.l3_size()]);
    for size in sizes {
        if let Some(bytes) = size {
            assert!(bytes <= 1024 * 1024 * 4096 * 0xFFFF_FFFF);
        }
    }
}
