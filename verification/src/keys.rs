//! The keys that occur among a list of CPUs at one level, each once and in
//! ascending order.
use crate::cpu::{named, CpuInfo, Key, Level};
use crate::numa::NodeInfo;
use vstd::prelude::*;

verus! {

/// `a` comes before `b`.
pub open spec fn key_lt(a: Key, b: Key) -> bool {
    a.0 < b.0 || (a.0 == b.0 && a.1 < b.1)
}

/// Each key comes before all that follow it, so none occurs twice.
pub open spec fn ascending(keys: Seq<Key>) -> bool {
    forall|i: int, j: int| 0 <= i < j < keys.len() ==> key_lt(#[trigger] keys[i], #[trigger] keys[j])
}

/// One of `cpus` is filed under `key` at `level`.
pub open spec fn has_key(cpus: Seq<CpuInfo>, level: Level, key: Key) -> bool {
    exists|n: int| 0 <= n < cpus.len() && (#[trigger] cpus[n]).key(level) == key
}

/// `keys` holds the keys that occur among `cpus` at `level` and no other,
/// in ascending order.
pub open spec fn is_keys_of(keys: Seq<Key>, cpus: Seq<CpuInfo>, level: Level) -> bool {
    &&& ascending(keys)
    &&& forall|k: Key| #[trigger] keys.contains(k) <==> has_key(cpus, level, k)
}

/// The keys that occur among `cpus` at `level`, each once, in ascending
/// order.
pub open spec fn level_keys(cpus: Seq<CpuInfo>, level: Level) -> Seq<Key> {
    choose|keys: Seq<Key>| is_keys_of(keys, cpus, level)
}

/// Two ascending lists that hold the same keys are the same list.
pub proof fn lemma_ascending_unique(a: Seq<Key>, b: Seq<Key>)
    requires
        ascending(a),
        ascending(b),
        forall|k: Key| #[trigger] a.contains(k) <==> b.contains(k),
    ensures
        a == b,
    decreases a.len(),
{
    if a.len() == 0 {
        if b.len() > 0 {
            assert(b.contains(b[0]));
            assert(a.contains(b[0]));
        }
        assert(a =~= b);
    } else {
        assert(a.contains(a.last()));
        assert(b.contains(a.last()));
        let j = choose|j: int| 0 <= j < b.len() && b[j] == a.last();
        assert(b.contains(b.last()));
        assert(a.contains(b.last()));
        let i = choose|i: int| 0 <= i < a.len() && a[i] == b.last();
        assert(a.last() == b.last()) by {
            if j < b.len() - 1 {
                assert(key_lt(b[j], b[b.len() - 1]));
                if i < a.len() - 1 {
                    assert(key_lt(a[i], a[a.len() - 1]));
                }
            }
        }
        let a0 = a.drop_last();
        let b0 = b.drop_last();
        assert forall|k: Key| #[trigger] a0.contains(k) <==> b0.contains(k) by {
            if a0.contains(k) {
                let n = choose|n: int| 0 <= n < a0.len() && a0[n] == k;
                assert(a[n] == k && key_lt(a[n], a[a.len() - 1]));
                assert(a.contains(k));
                assert(b.contains(k));
                let m = choose|m: int| 0 <= m < b.len() && b[m] == k;
                assert(b0[m] == k);
            }
            if b0.contains(k) {
                let n = choose|n: int| 0 <= n < b0.len() && b0[n] == k;
                assert(b[n] == k && key_lt(b[n], b[b.len() - 1]));
                assert(b.contains(k));
                assert(a.contains(k));
                let m = choose|m: int| 0 <= m < a.len() && a[m] == k;
                assert(a0[m] == k);
            }
        }
        assert(ascending(a0)) by {
            assert forall|i: int, j: int| 0 <= i < j < a0.len() implies key_lt(
                #[trigger] a0[i],
                #[trigger] a0[j],
            ) by {
                assert(key_lt(a[i], a[j]));
            }
        }
        assert(ascending(b0)) by {
            assert forall|i: int, j: int| 0 <= i < j < b0.len() implies key_lt(
                #[trigger] b0[i],
                #[trigger] b0[j],
            ) by {
                assert(key_lt(b[i], b[j]));
            }
        }
        lemma_ascending_unique(a0, b0);
        assert(a =~= a0.push(a.last()));
        assert(b =~= b0.push(b.last()));
    }
}

/// An ascending list that holds `key` besides the keys of `keys`.
proof fn with_key(keys: Seq<Key>, key: Key) -> (r: Seq<Key>)
    requires
        ascending(keys),
    ensures
        ascending(r),
        forall|k: Key| #[trigger] r.contains(k) <==> keys.contains(k) || k == key,
    decreases keys.len(),
{
    if keys.len() == 0 {
        let r = seq![key];
        assert(r[0] == key);
        r
    } else if key_lt(keys.last(), key) {
        let r = keys.push(key);
        assert forall|i: int, j: int| 0 <= i < j < r.len() implies key_lt(
            #[trigger] r[i],
            #[trigger] r[j],
        ) by {
            if j == keys.len() {
                if i < keys.len() - 1 {
                    assert(key_lt(keys[i], keys[keys.len() - 1]));
                }
            } else {
                assert(key_lt(keys[i], keys[j]));
            }
        }
        assert forall|k: Key| #[trigger] r.contains(k) <==> keys.contains(k) || k == key by {
            if r.contains(k) {
                let n = choose|n: int| 0 <= n < r.len() && r[n] == k;
                if n < keys.len() {
                    assert(keys[n] == k);
                }
            }
            if keys.contains(k) {
                let n = choose|n: int| 0 <= n < keys.len() && keys[n] == k;
                assert(r[n] == k);
            }
            if k == key {
                assert(r[keys.len() as int] == k);
            }
        }
        r
    } else if keys.last() == key {
        assert(keys.contains(keys.last()));
        keys
    } else {
        let rest = keys.drop_last();
        assert(ascending(rest)) by {
            assert forall|i: int, j: int| 0 <= i < j < rest.len() implies key_lt(
                #[trigger] rest[i],
                #[trigger] rest[j],
            ) by {
                assert(key_lt(keys[i], keys[j]));
            }
        }
        let head = with_key(rest, key);
        let r = head.push(keys.last());
        assert forall|i: int, j: int| 0 <= i < j < r.len() implies key_lt(
            #[trigger] r[i],
            #[trigger] r[j],
        ) by {
            if j == head.len() {
                assert(head.contains(head[i]));
                if rest.contains(head[i]) {
                    let n = choose|n: int| 0 <= n < rest.len() && rest[n] == head[i];
                    assert(key_lt(keys[n], keys[keys.len() - 1]));
                }
            } else {
                assert(key_lt(head[i], head[j]));
            }
        }
        assert forall|k: Key| #[trigger] r.contains(k) <==> keys.contains(k) || k == key by {
            if r.contains(k) {
                let n = choose|n: int| 0 <= n < r.len() && r[n] == k;
                if n < head.len() {
                    assert(head.contains(head[n]));
                    if rest.contains(k) {
                        let m = choose|m: int| 0 <= m < rest.len() && rest[m] == k;
                        assert(keys[m] == k);
                    }
                } else {
                    assert(keys[keys.len() - 1] == k);
                }
            }
            if keys.contains(k) {
                let n = choose|n: int| 0 <= n < keys.len() && keys[n] == k;
                if n < rest.len() {
                    assert(rest[n] == k);
                    assert(rest.contains(k));
                    assert(head.contains(k));
                    let m = choose|m: int| 0 <= m < head.len() && head[m] == k;
                    assert(r[m] == k);
                } else {
                    assert(r[head.len() as int] == k);
                }
            }
            if k == key {
                assert(head.contains(k));
                let m = choose|m: int| 0 <= m < head.len() && head[m] == k;
                assert(r[m] == k);
            }
        }
        r
    }
}

/// `level_keys` is what it is named for: every list of CPUs has its keys in
/// ascending order, and in one way only.
pub proof fn lemma_level_keys(cpus: Seq<CpuInfo>, level: Level)
    ensures
        is_keys_of(level_keys(cpus, level), cpus, level),
        forall|keys: Seq<Key>| is_keys_of(keys, cpus, level) ==> keys == level_keys(cpus, level),
    decreases cpus.len(),
{
    let witness = if cpus.len() == 0 {
        Seq::<Key>::empty()
    } else {
        let rest = cpus.drop_last();
        lemma_level_keys(rest, level);
        let before = level_keys(rest, level);
        let key = cpus.last().key(level);
        let keys = with_key(before, key);
        assert forall|k: Key| #[trigger] keys.contains(k) <==> has_key(cpus, level, k) by {
            if has_key(cpus, level, k) {
                let n = choose|n: int| 0 <= n < cpus.len() && (#[trigger] cpus[n]).key(level) == k;
                if n < rest.len() {
                    assert(rest[n].key(level) == k);
                    assert(has_key(rest, level, k));
                }
            }
            if has_key(rest, level, k) {
                let n = choose|n: int| 0 <= n < rest.len() && (#[trigger] rest[n]).key(level) == k;
                assert(cpus[n].key(level) == k);
            }
            if k == key {
                assert(cpus[cpus.len() - 1].key(level) == k);
            }
        }
        keys
    };
    assert(is_keys_of(witness, cpus, level));
    let chosen = level_keys(cpus, level);
    assert forall|keys: Seq<Key>| is_keys_of(keys, cpus, level) implies keys == chosen by {
        lemma_ascending_unique(keys, chosen);
    }
}

/// Lists that are made of the same CPUs, in whatever order and however
/// often, have the same keys at every level.
pub proof fn lemma_same_cpus_same_keys(a: Seq<CpuInfo>, b: Seq<CpuInfo>, level: Level)
    requires
        forall|c: CpuInfo| a.contains(c) <==> b.contains(c),
    ensures
        level_keys(a, level) == level_keys(b, level),
{
    lemma_level_keys(a, level);
    lemma_level_keys(b, level);
    let keys = level_keys(a, level);
    assert forall|k: Key| #[trigger] keys.contains(k) <==> has_key(b, level, k) by {
        if has_key(a, level, k) {
            let n = choose|n: int| 0 <= n < a.len() && (#[trigger] a[n]).key(level) == k;
            assert(a.contains(a[n]));
            assert(b.contains(a[n]));
            let m = choose|m: int| 0 <= m < b.len() && b[m] == a[n];
            assert(b[m].key(level) == k);
        }
        if has_key(b, level, k) {
            let n = choose|n: int| 0 <= n < b.len() && (#[trigger] b[n]).key(level) == k;
            assert(b.contains(b[n]));
            assert(a.contains(b[n]));
            let m = choose|m: int| 0 <= m < a.len() && a[m] == b[n];
            assert(a[m].key(level) == k);
        }
    }
    assert(is_keys_of(keys, b, level));
}

/// Whether `a` comes before `b`.
pub fn key_before(a: Key, b: Key) -> (r: bool)
    ensures
        r == key_lt(a, b),
{
    a.0 < b.0 || (a.0 == b.0 && a.1 < b.1)
}

/// Puts `key` in its place in an ascending list, unless the list holds it
/// already.
pub fn insert_key(keys: &mut Vec<Key>, key: Key)
    requires
        ascending(old(keys)@),
    ensures
        ascending(final(keys)@),
        forall|k: Key| #[trigger] final(keys)@.contains(k) <==> old(keys)@.contains(k) || k == key,
{
    let mut pos: usize = 0;
    while pos < keys.len() && key_before(keys[pos], key)
        invariant
            0 <= pos <= keys.len(),
            keys@ == old(keys)@,
            forall|i: int| 0 <= i < pos ==> key_lt(#[trigger] keys@[i], key),
        decreases keys.len() - pos,
    {
        pos = pos + 1;
    }
    if pos < keys.len() && keys[pos].0 == key.0 && keys[pos].1 == key.1 {
        assert(keys@[pos as int] == key);
        return;
    }
    keys.insert(pos, key);
    proof {
        let before = old(keys)@;
        let after = keys@;
        assert(after.len() == before.len() + 1);
        assert(after[pos as int] == key);
        assert forall|i: int| 0 <= i < pos implies after[i] == before[i] by {}
        assert forall|i: int| pos < i < after.len() implies after[i] == before[i - 1] by {}
        assert forall|i: int, j: int| 0 <= i < j < after.len() implies key_lt(
            #[trigger] after[i],
            #[trigger] after[j],
        ) by {
            if j < pos {
                assert(key_lt(before[i], before[j]));
            } else if j == pos {
                assert(key_lt(before[i], key));
            } else if i < pos {
                assert(key_lt(before[i], before[j - 1]));
            } else if i == pos {
                if j - 1 > pos {
                    assert(key_lt(before[pos as int], before[j - 1]));
                }
            } else {
                assert(key_lt(before[i - 1], before[j - 1]));
            }
        }
        assert forall|k: Key| #[trigger] after.contains(k) <==> before.contains(k) || k == key by {
            if after.contains(k) {
                let n = choose|n: int| 0 <= n < after.len() && after[n] == k;
                if n < pos {
                    assert(before[n] == k);
                } else if n > pos {
                    assert(before[n - 1] == k);
                }
            }
            if before.contains(k) {
                let n = choose|n: int| 0 <= n < before.len() && before[n] == k;
                if n < pos {
                    assert(after[n] == k);
                } else {
                    assert(after[n + 1] == k);
                }
            }
        }
    }
}

/// The keys that occur among `cpus` at `level`, each once, in ascending
/// order.
pub fn keys_of(cpus: &Vec<&CpuInfo>, level: Level) -> (r: Vec<Key>)
    ensures
        r@ == level_keys(named(cpus@), level),
{
    let ghost all = named(cpus@);
    let mut keys: Vec<Key> = Vec::new();
    let mut i: usize = 0;
    while i < cpus.len()
        invariant
            0 <= i <= cpus.len(),
            all == named(cpus@),
            is_keys_of(keys@, all.take(i as int), level),
        decreases cpus.len() - i,
    {
        let ghost before = keys@;
        let key = cpus[i].key_at(level);
        insert_key(&mut keys, key);
        proof {
            let seen = all.take(i as int);
            let next = all.take(i + 1);
            assert(next[i as int].key(level) == key);
            assert forall|k: Key| #[trigger] keys@.contains(k) <==> has_key(next, level, k) by {
                assert(before.contains(k) <==> has_key(seen, level, k));
                if has_key(seen, level, k) {
                    let n = choose|n: int| 0 <= n < seen.len() && (#[trigger] seen[n]).key(level) == k;
                    assert(next[n].key(level) == k);
                }
                if has_key(next, level, k) {
                    let n = choose|n: int| 0 <= n < next.len() && (#[trigger] next[n]).key(level) == k;
                    if n < i {
                        assert(seen[n].key(level) == k);
                    }
                }
            }
        }
        i = i + 1;
    }
    proof {
        assert(all.take(i as int) =~= all);
        lemma_level_keys(all, level);
    }
    keys
}

/// The identifiers that occur among `cpus` at `level`, each once, in
/// ascending order.
pub open spec fn level_ids(cpus: Seq<CpuInfo>, level: Level) -> Seq<u64> {
    level_keys(cpus, level).map_values(|k: Key| k.0)
}

/// The nodes that occur among `cpus`, each once, in ascending order: by
/// their number, and by their memory where two have the same number.
pub open spec fn level_nodes(cpus: Seq<CpuInfo>) -> Seq<NodeInfo> {
    level_keys(cpus, Level::Node).map_values(|k: Key| NodeInfo { node: k.0, memory: k.1 })
}

/// One of `cpus` has the identifier `id` at `level`.
pub open spec fn has_id(cpus: Seq<CpuInfo>, level: Level, id: u64) -> bool {
    exists|n: int| 0 <= n < cpus.len() && (#[trigger] cpus[n]).key(level).0 == id
}

/// One of `cpus` sits on `node`.
pub open spec fn has_node(cpus: Seq<CpuInfo>, node: NodeInfo) -> bool {
    exists|n: int| 0 <= n < cpus.len() && (#[trigger] cpus[n]).node == node
}

/// `a` comes before `b`: it has the lower number, or the same number and less
/// memory.
pub open spec fn node_lt(a: NodeInfo, b: NodeInfo) -> bool {
    a.node < b.node || (a.node == b.node && a.memory < b.memory)
}

/// At any level but that of the nodes, the identifiers of a level are
/// strictly ascending, so without duplicates, and they are the identifiers
/// that the CPUs have there.
pub proof fn lemma_level_ids(cpus: Seq<CpuInfo>, level: Level)
    requires
        level != Level::Node,
    ensures
        forall|i: int, j: int|
            0 <= i < j < level_ids(cpus, level).len() ==> level_ids(cpus, level)[i] < level_ids(
                cpus,
                level,
            )[j],
        forall|id: u64| #[trigger] level_ids(cpus, level).contains(id) <==> has_id(cpus, level, id),
{
    lemma_level_keys(cpus, level);
    let keys = level_keys(cpus, level);
    let ids = level_ids(cpus, level);
    assert forall|i: int| 0 <= i < keys.len() implies (#[trigger] keys[i]).1 == 0 by {
        assert(keys.contains(keys[i]));
        assert(has_key(cpus, level, keys[i]));
    }
    assert forall|i: int, j: int| 0 <= i < j < ids.len() implies ids[i] < ids[j] by {
        assert(key_lt(keys[i], keys[j]));
    }
    assert forall|id: u64| #[trigger] ids.contains(id) <==> has_id(cpus, level, id) by {
        if ids.contains(id) {
            let i = choose|i: int| 0 <= i < ids.len() && ids[i] == id;
            assert(keys.contains(keys[i]));
            assert(has_key(cpus, level, keys[i]));
            let n = choose|n: int| 0 <= n < cpus.len() && (#[trigger] cpus[n]).key(level) == keys[i];
            assert(cpus[n].key(level).0 == id);
        }
        if has_id(cpus, level, id) {
            let n = choose|n: int| 0 <= n < cpus.len() && (#[trigger] cpus[n]).key(level).0 == id;
            let k = cpus[n].key(level);
            assert(has_key(cpus, level, k));
            assert(keys.contains(k));
            let i = choose|i: int| 0 <= i < keys.len() && keys[i] == k;
            assert(ids[i] == id);
        }
    }
}

/// The nodes of a list of CPUs are strictly ascending, so without
/// duplicates, and they are the nodes that the CPUs sit on.
pub proof fn lemma_level_nodes(cpus: Seq<CpuInfo>)
    ensures
        forall|i: int, j: int|
            0 <= i < j < level_nodes(cpus).len() ==> node_lt(
                #[trigger] level_nodes(cpus)[i],
                #[trigger] level_nodes(cpus)[j],
            ),
        forall|node: NodeInfo| #[trigger] level_nodes(cpus).contains(node) <==> has_node(cpus, node),
{
    lemma_level_keys(cpus, Level::Node);
    let keys = level_keys(cpus, Level::Node);
    let nodes = level_nodes(cpus);
    assert forall|i: int, j: int| 0 <= i < j < nodes.len() implies node_lt(
        #[trigger] nodes[i],
        #[trigger] nodes[j],
    ) by {
        assert(key_lt(keys[i], keys[j]));
    }
    assert forall|node: NodeInfo| #[trigger] nodes.contains(node) <==> has_node(cpus, node) by {
        let k: Key = (node.node, node.memory);
        if nodes.contains(node) {
            let i = choose|i: int| 0 <= i < nodes.len() && nodes[i] == node;
            assert(keys[i] == k);
            assert(keys.contains(k));
            assert(has_key(cpus, Level::Node, k));
            let n = choose|n: int|
                0 <= n < cpus.len() && (#[trigger] cpus[n]).key(Level::Node) == k;
            assert(cpus[n].node == node);
        }
        if has_node(cpus, node) {
            let n = choose|n: int| 0 <= n < cpus.len() && (#[trigger] cpus[n]).node == node;
            assert(cpus[n].key(Level::Node) == k);
            assert(has_key(cpus, Level::Node, k));
            assert(keys.contains(k));
            let i = choose|i: int| 0 <= i < keys.len() && keys[i] == k;
            assert(nodes[i] == node);
        }
    }
}

/// The identifiers that occur among `cpus` at `level`, each once, in
/// ascending order.
pub fn ids_of(cpus: &Vec<&CpuInfo>, level: Level) -> (r: Vec<u64>)
    ensures
        r@ == level_ids(named(cpus@), level),
{
    let keys = keys_of(cpus, level);
    let mut ids: Vec<u64> = Vec::new();
    let mut i: usize = 0;
    while i < keys.len()
        invariant
            0 <= i <= keys.len(),
            ids@.len() == i,
            forall|k: int| 0 <= k < i ==> ids@[k] == (#[trigger] keys@[k]).0,
        decreases keys.len() - i,
    {
        ids.push(keys[i].0);
        i = i + 1;
    }
    assert(ids@ =~= level_ids(named(cpus@), level));
    ids
}

/// The nodes that occur among `cpus`, each once, in ascending order.
pub fn nodes_of(cpus: &Vec<&CpuInfo>) -> (r: Vec<NodeInfo>)
    ensures
        r@ == level_nodes(named(cpus@)),
{
    let keys = keys_of(cpus, Level::Node);
    let mut nodes: Vec<NodeInfo> = Vec::new();
    let mut i: usize = 0;
    while i < keys.len()
        invariant
            0 <= i <= keys.len(),
            nodes@.len() == i,
            forall|k: int|
                0 <= k < i ==> nodes@[k] == (NodeInfo {
                    node: (#[trigger] keys@[k]).0,
                    memory: keys@[k].1,
                }),
        decreases keys.len() - i,
    {
        nodes.push(NodeInfo { node: keys[i].0, memory: keys[i].1 });
        i = i + 1;
    }
    assert(nodes@ =~= level_nodes(named(cpus@)));
    nodes
}

} // verus!
