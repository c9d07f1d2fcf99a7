//! The groups that a list of CPUs falls into at one level, and the choice of
//! one hardware thread for each core.
use crate::cpu::{named, CpuInfo, Key, Level};
use crate::keys::{
    ascending, has_id, has_key, is_keys_of, key_lt, keys_of, lemma_level_keys, level_ids,
    level_keys,
};
use vstd::multiset::Multiset;
use vstd::prelude::*;
use vstd::seq_lib::{lemma_multiset_commutative, to_multiset_build};

verus! {

/// Whether a CPU is filed under `key` at `level`.
pub open spec fn filed_under(level: Level, key: Key) -> spec_fn(CpuInfo) -> bool {
    |c: CpuInfo| c.key(level) == key
}

/// Whether a CPU is filed under another key than `key` at `level`.
pub open spec fn filed_elsewhere(level: Level, key: Key) -> spec_fn(CpuInfo) -> bool {
    |c: CpuInfo| c.key(level) != key
}

/// The CPUs that are filed under `key` at `level`, in the order of `cpus`.
pub open spec fn members(cpus: Seq<CpuInfo>, level: Level, key: Key) -> Seq<CpuInfo> {
    cpus.filter(filed_under(level, key))
}

/// The group of each of `keys`, in their order.
pub open spec fn groups_for(cpus: Seq<CpuInfo>, level: Level, keys: Seq<Key>) -> Seq<Seq<CpuInfo>> {
    Seq::new(keys.len(), |i: int| members(cpus, level, keys[i]))
}

/// The groups of `cpus` at `level`: one for each key that occurs, in
/// ascending order of the keys, each with its CPUs in the order of `cpus`.
pub open spec fn partition(cpus: Seq<CpuInfo>, level: Level) -> Seq<Seq<CpuInfo>> {
    groups_for(cpus, level, level_keys(cpus, level))
}

/// The CPUs themselves that lists of references name.
pub open spec fn named_groups(groups: Seq<Vec<&CpuInfo>>) -> Seq<Seq<CpuInfo>> {
    groups.map_values(|g: Vec<&CpuInfo>| named(g@))
}

/// `cpus` in ascending order of their cores, those of one core in the order
/// that they have in `cpus`: what a stable sort by core gives.
pub open spec fn by_core(cpus: Seq<CpuInfo>) -> Seq<CpuInfo> {
    partition(cpus, Level::Core).flatten()
}

/// The first, the third, the fifth of `cpus`, and so on.
pub open spec fn every_other(cpus: Seq<CpuInfo>) -> Seq<CpuInfo> {
    Seq::new(((cpus.len() + 1) / 2) as nat, |i: int| cpus[2 * i])
}

/// One hardware thread for each core of `cpus`, where each core has two:
/// every other one of the CPUs in the order of their cores.
pub open spec fn one_per_core(cpus: Seq<CpuInfo>) -> Seq<CpuInfo> {
    every_other(by_core(cpus))
}

/// A group is made of the CPUs of the list that are filed under its key.
proof fn lemma_members_by_index(cpus: Seq<CpuInfo>, level: Level, key: Key)
    ensures
        forall|i: int|
            0 <= i < members(cpus, level, key).len() ==> (#[trigger] members(cpus, level, key)[i]).key(
                level,
            ) == key && cpus.contains(members(cpus, level, key)[i]),
        forall|n: int|
            0 <= n < cpus.len() && (#[trigger] cpus[n]).key(level) == key ==> members(
                cpus,
                level,
                key,
            ).contains(cpus[n]),
    decreases cpus.len(),
{
    reveal(Seq::filter);
    if cpus.len() > 0 {
        let rest = cpus.drop_last();
        lemma_members_by_index(rest, level, key);
        let before = members(rest, level, key);
        let group = members(cpus, level, key);
        assert forall|i: int| 0 <= i < group.len() implies (#[trigger] group[i]).key(level) == key
            && cpus.contains(group[i]) by {
            if i < before.len() {
                assert(group[i] == before[i]);
                assert(rest.contains(before[i]));
                let n = choose|n: int| 0 <= n < rest.len() && rest[n] == before[i];
                assert(cpus[n] == group[i]);
            } else {
                assert(cpus[cpus.len() - 1] == group[i]);
            }
        }
        assert forall|n: int| 0 <= n < cpus.len() && (#[trigger] cpus[n]).key(level)
            == key implies group.contains(cpus[n]) by {
            if n < rest.len() {
                assert(rest[n] == cpus[n]);
                assert(before.contains(rest[n]));
                let i = choose|i: int| 0 <= i < before.len() && before[i] == rest[n];
                assert(group[i] == cpus[n]);
            } else {
                assert(group[before.len() as int] == cpus[n]);
            }
        }
    }
}

/// A group holds the CPUs of the list that are filed under its key and no
/// other, and is empty only where the key does not occur.
pub proof fn lemma_members(cpus: Seq<CpuInfo>, level: Level, key: Key)
    ensures
        forall|c: CpuInfo| #[trigger]
            members(cpus, level, key).contains(c) <==> cpus.contains(c) && c.key(level) == key,
        members(cpus, level, key).len() > 0 <==> has_key(cpus, level, key),
{
    lemma_members_by_index(cpus, level, key);
    let group = members(cpus, level, key);
    assert forall|c: CpuInfo| #[trigger]
        group.contains(c) <==> cpus.contains(c) && c.key(level) == key by {
        if group.contains(c) {
            let i = choose|i: int| 0 <= i < group.len() && group[i] == c;
            assert(group[i].key(level) == key);
        }
        if cpus.contains(c) && c.key(level) == key {
            let n = choose|n: int| 0 <= n < cpus.len() && cpus[n] == c;
            assert(cpus[n].key(level) == key);
        }
    }
    if group.len() > 0 {
        assert(group[0].key(level) == key);
        assert(cpus.contains(group[0]));
        let n = choose|n: int| 0 <= n < cpus.len() && cpus[n] == group[0];
        assert(cpus[n].key(level) == key);
    }
    if has_key(cpus, level, key) {
        let n = choose|n: int| 0 <= n < cpus.len() && (#[trigger] cpus[n]).key(level) == key;
        assert(group.contains(cpus[n]));
    }
}

/// The CPUs of `cpus` that are filed under `key` at `level`.
pub fn members_of<'a>(cpus: &Vec<&'a CpuInfo>, level: Level, key: Key) -> (r: Vec<&'a CpuInfo>)
    ensures
        named(r@) == members(named(cpus@), level, key),
{
    let ghost all = named(cpus@);
    let mut out: Vec<&'a CpuInfo> = Vec::new();
    let mut i: usize = 0;
    proof {
        reveal(Seq::filter);
        assert(named(out@) =~= members(all.take(0), level, key));
    }
    while i < cpus.len()
        invariant
            0 <= i <= cpus.len(),
            all == named(cpus@),
            named(out@) == members(all.take(i as int), level, key),
        decreases cpus.len() - i,
    {
        let cpu = cpus[i];
        let found = cpu.key_at(level);
        let ghost before = out@;
        if found.0 == key.0 && found.1 == key.1 {
            out.push(cpu);
        }
        proof {
            reveal(Seq::filter);
            assert(all.take(i + 1).drop_last() =~= all.take(i as int));
            assert(all.take(i + 1).last() == *cpu);
            assert(named(before.push(cpu)) =~= named(before).push(*cpu));
        }
        i = i + 1;
    }
    assert(all.take(i as int) =~= all);
    out
}

/// The groups of `cpus` at `level`.
pub fn partition_of<'a>(cpus: &Vec<&'a CpuInfo>, level: Level) -> (r: Vec<Vec<&'a CpuInfo>>)
    ensures
        named_groups(r@) == partition(named(cpus@), level),
{
    let keys = keys_of(cpus, level);
    let mut groups: Vec<Vec<&'a CpuInfo>> = Vec::new();
    let mut i: usize = 0;
    while i < keys.len()
        invariant
            0 <= i <= keys.len(),
            keys@ == level_keys(named(cpus@), level),
            groups@.len() == i,
            forall|k: int|
                0 <= k < i ==> named((#[trigger] groups@[k])@) == members(
                    named(cpus@),
                    level,
                    keys@[k],
                ),
        decreases keys.len() - i,
    {
        let group = members_of(cpus, level, keys[i]);
        groups.push(group);
        i = i + 1;
    }
    assert(named_groups(groups@) =~= partition(named(cpus@), level));
    groups
}

/// The CPUs of all `groups`, one group after the other.
pub fn flatten<'a>(groups: &Vec<Vec<&'a CpuInfo>>) -> (r: Vec<&'a CpuInfo>)
    ensures
        named(r@) == named_groups(groups@).flatten(),
{
    let ghost all = named_groups(groups@);
    let mut out: Vec<&'a CpuInfo> = Vec::new();
    let mut i: usize = 0;
    assert(named(out@) =~= all.take(0).flatten());
    while i < groups.len()
        invariant
            0 <= i <= groups.len(),
            all == named_groups(groups@),
            named(out@) == all.take(i as int).flatten(),
        decreases groups.len() - i,
    {
        let group = &groups[i];
        let ghost before = out@;
        let mut j: usize = 0;
        while j < group.len()
            invariant
                0 <= j <= group.len(),
                out@ == before + group@.take(j as int),
            decreases group.len() - j,
        {
            out.push(group[j]);
            j = j + 1;
            assert(out@ =~= before + group@.take(j as int));
        }
        proof {
            assert(group@.take(j as int) =~= group@);
            assert(named(before + group@) =~= named(before) + named(group@));
            assert(all.take(i + 1) =~= all.take(i as int).push(named(group@)));
            all.take(i as int).lemma_flatten_push(named(group@));
        }
        i = i + 1;
    }
    assert(all.take(i as int) =~= all);
    out
}

/// `cpus` in ascending order of their cores, those of one core in the order
/// that they have in `cpus`.
pub fn sort_by_core<'a>(cpus: &Vec<&'a CpuInfo>) -> (r: Vec<&'a CpuInfo>)
    ensures
        named(r@) == by_core(named(cpus@)),
{
    let groups = partition_of(cpus, Level::Core);
    flatten(&groups)
}

/// The first, the third, the fifth of `cpus`, and so on.
pub fn step_by_two<'a>(cpus: &Vec<&'a CpuInfo>) -> (r: Vec<&'a CpuInfo>)
    ensures
        named(r@) == every_other(named(cpus@)),
{
    let count = cpus.len() / 2 + cpus.len() % 2;
    let mut out: Vec<&'a CpuInfo> = Vec::new();
    let mut k: usize = 0;
    while k < count
        invariant
            0 <= k <= count,
            count == (cpus.len() + 1) / 2,
            out@.len() == k,
            forall|n: int| 0 <= n < k ==> out@[n] == cpus@[2 * n],
        decreases count - k,
    {
        out.push(cpus[2 * k]);
        k = k + 1;
    }
    assert(named(out@) =~= every_other(named(cpus@)));
    out
}

/// A list is made of the CPUs that are filed under a key and of those that
/// are filed elsewhere: none is lost and none comes twice.
proof fn lemma_split_by_key(cpus: Seq<CpuInfo>, level: Level, key: Key)
    ensures
        cpus.to_multiset() == cpus.filter(filed_elsewhere(level, key)).to_multiset().add(
            members(cpus, level, key).to_multiset(),
        ),
    decreases cpus.len(),
{
    broadcast use vstd::multiset::group_multiset_axioms;

    reveal(Seq::filter);
    let here = members(cpus, level, key);
    let elsewhere = cpus.filter(filed_elsewhere(level, key));
    if cpus.len() == 0 {
        assert(here =~= cpus);
        assert(elsewhere =~= cpus);
        cpus.to_multiset_ensures();
        assert(cpus.to_multiset() =~= Multiset::<CpuInfo>::empty());
        assert(cpus.to_multiset() =~= elsewhere.to_multiset().add(here.to_multiset()));
    } else {
        let rest = cpus.drop_last();
        let last = cpus.last();
        lemma_split_by_key(rest, level, key);
        assert(cpus =~= rest.push(last));
        to_multiset_build(rest, last);
        if last.key(level) == key {
            to_multiset_build(members(rest, level, key), last);
        } else {
            to_multiset_build(rest.filter(filed_elsewhere(level, key)), last);
        }
        assert(cpus.to_multiset() =~= elsewhere.to_multiset().add(here.to_multiset()));
    }
}

/// Leaving out the CPUs of one key changes no group of another key.
proof fn lemma_members_elsewhere(cpus: Seq<CpuInfo>, level: Level, gone: Key, key: Key)
    requires
        key != gone,
    ensures
        members(cpus.filter(filed_elsewhere(level, gone)), level, key) == members(cpus, level, key),
    decreases cpus.len(),
{
    reveal(Seq::filter);
    if cpus.len() > 0 {
        let rest = cpus.drop_last();
        let last = cpus.last();
        lemma_members_elsewhere(rest, level, gone, key);
        let kept = rest.filter(filed_elsewhere(level, gone));
        if last.key(level) != gone {
            assert(kept.push(last).drop_last() =~= kept);
        }
    }
}

/// What is left of a list without the CPUs of its highest key has the other
/// keys of the list as its keys.
proof fn lemma_keys_elsewhere(cpus: Seq<CpuInfo>, level: Level, keys: Seq<Key>)
    requires
        is_keys_of(keys, cpus, level),
        keys.len() > 0,
    ensures
        is_keys_of(keys.drop_last(), cpus.filter(filed_elsewhere(level, keys.last())), level),
{
    let top = keys.last();
    let lower = keys.drop_last();
    let rest = cpus.filter(filed_elsewhere(level, top));
    let leaves = filed_elsewhere(level, top);
    assert(ascending(lower)) by {
        assert forall|i: int, j: int| 0 <= i < j < lower.len() implies key_lt(
            #[trigger] lower[i],
            #[trigger] lower[j],
        ) by {
            assert(key_lt(keys[i], keys[j]));
        }
    }
    assert forall|k: Key| #[trigger] lower.contains(k) <==> has_key(rest, level, k) by {
        if lower.contains(k) {
            let i = choose|i: int| 0 <= i < lower.len() && lower[i] == k;
            assert(keys[i] == k);
            assert(key_lt(keys[i], keys[keys.len() - 1]));
            assert(keys.contains(k));
            let n = choose|n: int| 0 <= n < cpus.len() && (#[trigger] cpus[n]).key(level) == k;
            assert(leaves(cpus[n]));
            cpus.lemma_filter_contains(leaves, n);
            let m = choose|m: int| 0 <= m < rest.len() && rest[m] == cpus[n];
            assert(rest[m].key(level) == k);
        }
        if has_key(rest, level, k) {
            let m = choose|m: int| 0 <= m < rest.len() && (#[trigger] rest[m]).key(level) == k;
            cpus.lemma_filter_pred(leaves, m);
            assert(rest.contains(rest[m]));
            cpus.lemma_filter_contains_rev(leaves, rest[m]);
            let n = choose|n: int| 0 <= n < cpus.len() && cpus[n] == rest[m];
            assert(cpus[n].key(level) == k);
            assert(has_key(cpus, level, k));
            assert(keys.contains(k));
            let i = choose|i: int| 0 <= i < keys.len() && keys[i] == k;
            assert(lower[i] == k);
        }
    }
}

/// The groups of the keys of a list hold every CPU of the list as often as
/// the list does.
proof fn lemma_groups_hold_all(cpus: Seq<CpuInfo>, level: Level, keys: Seq<Key>)
    requires
        is_keys_of(keys, cpus, level),
    ensures
        groups_for(cpus, level, keys).flatten().to_multiset() == cpus.to_multiset(),
    decreases keys.len(),
{
    broadcast use vstd::multiset::group_multiset_axioms;

    let groups = groups_for(cpus, level, keys);
    if keys.len() == 0 {
        if cpus.len() > 0 {
            assert(has_key(cpus, level, cpus[0].key(level)));
            assert(keys.contains(cpus[0].key(level)));
        }
        assert(groups.flatten() =~= cpus);
    } else {
        let top = keys.last();
        let lower = keys.drop_last();
        let rest = cpus.filter(filed_elsewhere(level, top));
        lemma_keys_elsewhere(cpus, level, keys);
        lemma_groups_hold_all(rest, level, lower);
        assert(groups_for(rest, level, lower) =~= groups.drop_last()) by {
            assert forall|i: int| 0 <= i < lower.len() implies members(rest, level, lower[i])
                == members(cpus, level, keys[i]) by {
                assert(key_lt(keys[i], keys[keys.len() - 1]));
                lemma_members_elsewhere(cpus, level, top, lower[i]);
            }
        }
        assert(groups =~= groups.drop_last().push(members(cpus, level, top)));
        groups.drop_last().lemma_flatten_push(members(cpus, level, top));
        lemma_multiset_commutative(groups.drop_last().flatten(), members(cpus, level, top));
        lemma_split_by_key(cpus, level, top);
    }
}

/// The groups of a level divide the CPUs among them: no CPU is in two
/// groups, every CPU is in one, and the groups together hold every CPU as
/// often as the list does. No group is empty, and each is made of the CPUs
/// that are filed under its key.
pub proof fn lemma_partition(cpus: Seq<CpuInfo>, level: Level)
    ensures
        forall|i: int, j: int, c: CpuInfo|
            0 <= i < j < partition(cpus, level).len() ==> !(#[trigger] partition(
                cpus,
                level,
            )[i].contains(c) && #[trigger] partition(cpus, level)[j].contains(c)),
        forall|c: CpuInfo|
            cpus.contains(c) <==> exists|i: int|
                0 <= i < partition(cpus, level).len() && #[trigger] partition(
                    cpus,
                    level,
                )[i].contains(c),
        partition(cpus, level).flatten().to_multiset() == cpus.to_multiset(),
        partition(cpus, level).flatten().len() == cpus.len(),
        forall|i: int|
            0 <= i < partition(cpus, level).len() ==> (#[trigger] partition(cpus, level)[i]).len()
                > 0,
{
    lemma_level_keys(cpus, level);
    let keys = level_keys(cpus, level);
    let groups = partition(cpus, level);
    assert forall|i: int, j: int, c: CpuInfo| 0 <= i < j < groups.len() implies !(
    #[trigger] groups[i].contains(c) && #[trigger] groups[j].contains(c)) by {
        lemma_members(cpus, level, keys[i]);
        lemma_members(cpus, level, keys[j]);
        assert(key_lt(keys[i], keys[j]));
    }
    assert forall|c: CpuInfo|
        cpus.contains(c) <==> exists|i: int|
            0 <= i < groups.len() && #[trigger] groups[i].contains(c) by {
        if cpus.contains(c) {
            let n = choose|n: int| 0 <= n < cpus.len() && cpus[n] == c;
            assert(has_key(cpus, level, cpus[n].key(level)));
            assert(keys.contains(c.key(level)));
            let i = choose|i: int| 0 <= i < keys.len() && keys[i] == c.key(level);
            lemma_members(cpus, level, keys[i]);
            assert(groups[i].contains(c));
        }
        if exists|i: int| 0 <= i < groups.len() && #[trigger] groups[i].contains(c) {
            let i = choose|i: int| 0 <= i < groups.len() && #[trigger] groups[i].contains(c);
            lemma_members(cpus, level, keys[i]);
        }
    }
    lemma_groups_hold_all(cpus, level, keys);
    groups.flatten().to_multiset_ensures();
    cpus.to_multiset_ensures();
    assert forall|i: int| 0 <= i < groups.len() implies (#[trigger] groups[i]).len() > 0 by {
        assert(keys.contains(keys[i]));
        lemma_members(cpus, level, keys[i]);
    }
}

/// Taken together, the groups of the first `n` keys of a list have their
/// CPUs in the order of the keys.
proof fn lemma_groups_in_order(cpus: Seq<CpuInfo>, level: Level, keys: Seq<Key>, n: int)
    requires
        ascending(keys),
        0 <= n <= keys.len(),
    ensures
        forall|p: int|
            0 <= p < groups_for(cpus, level, keys.take(n)).flatten().len() ==> keys.take(
                n,
            ).contains(
                (#[trigger] groups_for(cpus, level, keys.take(n)).flatten()[p]).key(level),
            ),
        forall|p: int, q: int|
            0 <= p < q < groups_for(cpus, level, keys.take(n)).flatten().len() ==> !key_lt(
                (#[trigger] groups_for(cpus, level, keys.take(n)).flatten()[q]).key(level),
                (#[trigger] groups_for(cpus, level, keys.take(n)).flatten()[p]).key(level),
            ),
    decreases n,
{
    let now = groups_for(cpus, level, keys.take(n));
    if n == 0 {
        assert(now.flatten() =~= Seq::<CpuInfo>::empty());
    } else {
        lemma_groups_in_order(cpus, level, keys, n - 1);
        let before = groups_for(cpus, level, keys.take(n - 1));
        let group = members(cpus, level, keys[n - 1]);
        assert(keys.take(n - 1).len() == n - 1);
        lemma_members_by_index(cpus, level, keys[n - 1]);
        assert(now =~= before.push(group));
        before.lemma_flatten_push(group);
        let flat = now.flatten();
        let head = before.flatten();
        assert(flat =~= head + group);
        assert forall|p: int| 0 <= p < flat.len() implies keys.take(n).contains(
            (#[trigger] flat[p]).key(level),
        ) by {
            if p < head.len() {
                assert(flat[p] == head[p]);
                let k = head[p].key(level);
                assert(keys.take(n - 1).contains(k));
                let lower = keys.take(n - 1);
                    let i = choose|i: int| 0 <= i < lower.len() && lower[i] == k;
                assert(keys.take(n)[i] == k);
            } else {
                assert(flat[p] == group[p - head.len()]);
                assert(keys.take(n)[n - 1] == keys[n - 1]);
            }
        }
        assert forall|p: int, q: int| 0 <= p < q < flat.len() implies !key_lt(
            (#[trigger] flat[q]).key(level),
            (#[trigger] flat[p]).key(level),
        ) by {
            if q < head.len() {
                assert(flat[p] == head[p] && flat[q] == head[q]);
            } else {
                assert(flat[q] == group[q - head.len()]);
                if p < head.len() {
                    assert(flat[p] == head[p]);
                    let k = head[p].key(level);
                    assert(keys.take(n - 1).contains(k));
                    let lower = keys.take(n - 1);
                    let i = choose|i: int| 0 <= i < lower.len() && lower[i] == k;
                    assert(key_lt(keys[i], keys[n - 1]));
                } else {
                    assert(flat[p] == group[p - head.len()]);
                }
            }
        }
    }
}

/// `by_core` is a stable sort by core: it holds every CPU of the list as
/// often as the list does, and no CPU stands before one of a lower core.
pub proof fn lemma_by_core(cpus: Seq<CpuInfo>)
    ensures
        by_core(cpus).to_multiset() == cpus.to_multiset(),
        by_core(cpus).len() == cpus.len(),
        forall|p: int, q: int|
            0 <= p < q < by_core(cpus).len() ==> (#[trigger] by_core(cpus)[p]).core <= (
            #[trigger] by_core(cpus)[q]).core,
{
    lemma_partition(cpus, Level::Core);
    lemma_level_keys(cpus, Level::Core);
    let keys = level_keys(cpus, Level::Core);
    assert(keys.take(keys.len() as int) =~= keys);
    lemma_groups_in_order(cpus, Level::Core, keys, keys.len() as int);
}

/// Where every group has two members, the groups taken together have their
/// first members at the even places.
proof fn lemma_flatten_pairs(groups: Seq<Seq<CpuInfo>>)
    requires
        forall|i: int| 0 <= i < groups.len() ==> (#[trigger] groups[i]).len() == 2,
    ensures
        groups.flatten().len() == 2 * groups.len(),
        forall|i: int| 0 <= i < groups.len() ==> groups.flatten()[2 * i] == (#[trigger] groups[i])[0],
    decreases groups.len(),
{
    if groups.len() == 0 {
        assert(groups.flatten() =~= Seq::<CpuInfo>::empty());
    } else {
        let head = groups.drop_last();
        let last = groups.last();
        lemma_flatten_pairs(head);
        assert(groups =~= head.push(last));
        head.lemma_flatten_push(last);
        assert(groups.flatten() =~= head.flatten() + last);
        assert forall|i: int| 0 <= i < groups.len() implies groups.flatten()[2 * i] == (
        #[trigger] groups[i])[0] by {
            if i < head.len() {
                assert(head[i] == groups[i]);
            }
        }
    }
}

/// `one_per_core` keeps half of the CPUs, rounded up.
pub proof fn lemma_one_per_core_len(cpus: Seq<CpuInfo>)
    ensures
        one_per_core(cpus).len() == (cpus.len() + 1) / 2,
{
    lemma_by_core(cpus);
}

/// Where each core of a list of CPUs has exactly two hardware threads in the
/// list, `one_per_core` keeps exactly half of the CPUs: one for each core,
/// the first of its two in the order of the list, in ascending order of the
/// cores.
pub proof fn lemma_one_per_core(cpus: Seq<CpuInfo>)
    requires
        forall|core: u64|
            has_id(cpus, Level::Core, core) ==> (#[trigger] members(
                cpus,
                Level::Core,
                (core, 0),
            )).len() == 2,
    ensures
        2 * one_per_core(cpus).len() == cpus.len(),
        one_per_core(cpus).len() == cpus.len() / 2,
        one_per_core(cpus).len() == level_ids(cpus, Level::Core).len(),
        forall|i: int|
            0 <= i < one_per_core(cpus).len() ==> (#[trigger] one_per_core(cpus)[i]) == partition(
                cpus,
                Level::Core,
            )[i][0],
{
    lemma_level_keys(cpus, Level::Core);
    lemma_partition(cpus, Level::Core);
    let keys = level_keys(cpus, Level::Core);
    let groups = partition(cpus, Level::Core);
    assert forall|i: int| 0 <= i < groups.len() implies (#[trigger] groups[i]).len() == 2 by {
        assert(keys.contains(keys[i]));
        assert(has_key(cpus, Level::Core, keys[i]));
        let n = choose|n: int|
            0 <= n < cpus.len() && (#[trigger] cpus[n]).key(Level::Core) == keys[i];
        assert(cpus[n].key(Level::Core).0 == keys[i].0);
        assert(has_id(cpus, Level::Core, keys[i].0));
        assert(keys[i] == (keys[i].0, 0u64));
    }
    lemma_flatten_pairs(groups);
}

/// Where each core of a machine has exactly two hardware threads, and the
/// CPUs that are filed under `key` at `level` are even in number,
/// `one_per_core` keeps exactly half of these. Where they are odd in number,
/// as when the two threads of one core are filed under different keys, it
/// keeps the greater half.
pub proof fn lemma_one_per_core_within(cpus: Seq<CpuInfo>, level: Level, key: Key)
    requires
        forall|core: u64|
            has_id(cpus, Level::Core, core) ==> (#[trigger] members(
                cpus,
                Level::Core,
                (core, 0),
            )).len() == 2,
        members(cpus, level, key).len() % 2 == 0,
    ensures
        one_per_core(members(cpus, level, key)).len() == members(cpus, level, key).len() / 2,
{
    lemma_one_per_core_len(members(cpus, level, key));
}

} // verus!
