//! The names of the uncore performance-monitoring devices of a socket.
use crate::cpu::{id_key, CpuInfo, Level};
use crate::decimal::{decimal_repr, lemma_decimal_repr, push_decimal};
use crate::groups::{lemma_members, members};
use crate::keys::{has_id, has_key, lemma_level_keys, level_ids, level_keys};
use crate::topology::MachineTopology;
use vstd::prelude::*;
use vstd::string::StringExecFns;

verus! {

/// The characters that ASCII bytes stand for.
pub open spec fn chars_of(bytes: Seq<u8>) -> Seq<char> {
    bytes.map_values(|b: u8| b as char)
}

/// The name of the caching-agent box with the number `n`: `uncore_cbox_`
/// and the number in base ten.
pub open spec fn cbox_name(n: u64) -> Seq<char> {
    "uncore_cbox_"@ + chars_of(decimal_repr(n as nat))
}

/// How many cores the socket of `cpu` has in the topology.
pub open spec fn cores_beside(cpu: CpuInfo, cpus: Seq<CpuInfo>) -> nat {
    level_ids(members(cpus, Level::Socket, id_key(cpu.socket)), Level::Core).len()
}

/// The names of the uncore devices that every socket has, one name each.
pub open spec fn socket_device_names() -> Seq<Seq<char>> {
    seq![
        "uncore_ha_0"@,
        "uncore_imc_0"@,
        "uncore_imc_1"@,
        "uncore_imc_2"@,
        "uncore_imc_3"@,
        "uncore_pcu"@,
        "uncore_r2pcie"@,
        "uncore_r3qpi_0"@,
        "uncore_r3qpi_1"@,
        "uncore_ubox"@,
    ]
}

/// The text of a string.
pub open spec fn text_of(names: Seq<&'static str>) -> Seq<Seq<char>> {
    names.map_values(|name: &'static str| name@)
}

/// A socket on which a CPU of the topology sits has a core.
pub proof fn lemma_socket_has_core(cpus: Seq<CpuInfo>, socket: u64)
    requires
        has_id(cpus, Level::Socket, socket),
    ensures
        level_ids(members(cpus, Level::Socket, id_key(socket)), Level::Core).len() > 0,
{
    let n = choose|n: int| 0 <= n < cpus.len() && (#[trigger] cpus[n]).key(Level::Socket).0 == socket;
    assert(cpus[n].key(Level::Socket) == id_key(socket));
    lemma_members(cpus, Level::Socket, id_key(socket));
    let on_socket = members(cpus, Level::Socket, id_key(socket));
    assert(on_socket.len() > 0);
    lemma_level_keys(on_socket, Level::Core);
    let key = on_socket[0].key(Level::Core);
    assert(has_key(on_socket, Level::Core, key));
    assert(level_keys(on_socket, Level::Core).contains(key));
}

/// The text of one decimal digit.
fn digit_str(digit: u8) -> (r: &'static str)
    requires
        digit < 10,
    ensures
        r@ == seq![(0x30 + digit) as u8 as char],
{
    proof {
        reveal_strlit("0");
        reveal_strlit("1");
        reveal_strlit("2");
        reveal_strlit("3");
        reveal_strlit("4");
        reveal_strlit("5");
        reveal_strlit("6");
        reveal_strlit("7");
        reveal_strlit("8");
        reveal_strlit("9");
    }
    let r = match digit {
        0 => "0",
        1 => "1",
        2 => "2",
        3 => "3",
        4 => "4",
        5 => "5",
        6 => "6",
        7 => "7",
        8 => "8",
        _ => "9",
    };
    assert(r@ =~= seq![(0x30 + digit) as u8 as char]);
    r
}

/// The name of the caching-agent box with the number `n`.
pub fn make_cbox_name(n: u64) -> (r: String)
    ensures
        r@ == cbox_name(n),
{
    let mut digits: Vec<u8> = Vec::new();
    push_decimal(&mut digits, n);
    proof {
        lemma_decimal_repr(n as nat);
        assert(digits@ =~= decimal_repr(n as nat));
    }
    let mut name = String::from_str("uncore_cbox_");
    let mut i: usize = 0;
    while i < digits.len()
        invariant
            0 <= i <= digits.len(),
            digits@ == decimal_repr(n as nat),
            forall|k: int| 0 <= k < digits@.len() ==> 0x30 <= #[trigger] digits@[k] <= 0x39,
            name@ == "uncore_cbox_"@ + chars_of(digits@.take(i as int)),
        decreases digits.len() - i,
    {
        let digit = digits[i];
        name.append(digit_str(digit - 0x30));
        i = i + 1;
        assert(name@ =~= "uncore_cbox_"@ + chars_of(digits@.take(i as int)));
    }
    assert(digits@.take(i as int) =~= digits@);
    name
}

impl CpuInfo {
    /// The name of the caching-agent box that serves the core of this CPU:
    /// the boxes of a socket are numbered from 0, and the core's number is
    /// taken modulo the number of cores on its socket.
    pub fn cbox(&self, mt: &MachineTopology) -> (r: String)
        requires
            has_id(mt@, Level::Socket, self.socket),
        ensures
            cores_beside(*self, mt@) > 0,
            r@ == cbox_name((self.core % cores_beside(*self, mt@) as u64) as u64),
    {
        proof {
            lemma_socket_has_core(mt@, self.socket);
        }
        let cores = mt.cores_on_socket(self.socket);
        let cbox = self.core % (cores.len() as u64);
        make_cbox_name(cbox)
    }
}

/// The uncore devices that every socket has.
pub fn socket_uncore_devices() -> (r: Vec<&'static str>)
    ensures
        text_of(r@) == socket_device_names(),
{
    let mut devices: Vec<&'static str> = Vec::new();
    devices.push("uncore_ha_0");
    devices.push("uncore_imc_0");
    devices.push("uncore_imc_1");
    devices.push("uncore_imc_2");
    devices.push("uncore_imc_3");
    devices.push("uncore_pcu");
    devices.push("uncore_r2pcie");
    devices.push("uncore_r3qpi_0");
    devices.push("uncore_r3qpi_1");
    devices.push("uncore_ubox");
    assert(text_of(devices@) =~= socket_device_names());
    devices
}

} // verus!
