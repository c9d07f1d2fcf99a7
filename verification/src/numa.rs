//! The memory of each NUMA node, read from the report of `numactl --hardware`.
use crate::decimal::{buf_to_u64, decimal_repr, digits_to_u64, lemma_decimal_repr, push_decimal};
use crate::text::{
    append_bytes, ascii, ascii_bytes, has_prefix, lemma_run_len, lemma_split_step, lines, run_end,
    run_len, starts_with, ByteClass, LINE_FEED,
};
use vstd::prelude::*;
use vstd::slice::slice_subrange;
use vstd::utf8::encode_utf8;

verus! {

/// A NUMA node and the bytes of memory it holds. Ordered by node, then by
/// memory.
#[derive(Debug, Eq, PartialEq, Ord, PartialOrd, Copy, Clone, Structural)]
pub struct NodeInfo {
    pub node: u64,
    pub memory: u64,
}

/// The report counts memory in megabytes of this many bytes.
pub const BYTES_PER_MB: u64 = 1_000_000;

/// Where the run of `class` that starts at `from` ends.
pub open spec fn run_stop(s: Seq<u8>, from: int, class: ByteClass) -> int {
    from + run_len(s.skip(from), class)
}

/// `tag` stands in `s` at `from`.
pub open spec fn tag_at(s: Seq<u8>, from: int, tag: Seq<u8>) -> bool {
    starts_with(s.skip(from), tag)
}

/// The node that a number and a count of megabytes describe: none where
/// either is missing or the bytes do not fit in a `u64`.
pub open spec fn node_of(node: Option<u64>, megabytes: Option<u64>) -> Option<NodeInfo> {
    match (node, megabytes) {
        (Some(node), Some(mb)) => if mb * BYTES_PER_MB <= u64::MAX {
            Some(NodeInfo { node, memory: (mb * BYTES_PER_MB) as u64 })
        } else {
            None
        },
        _ => None,
    }
}

/// What a line of the shape `node <N> size: <M> MB` says: the word `node`,
/// the number, the word `size:`, the megabytes and the unit `MB`, in this
/// order from the start of the line, with any run of spaces and tabs between
/// two of them. What follows the unit is not read.
pub open spec fn size_line(line: Seq<u8>) -> Option<NodeInfo> {
    let node_tag = ascii("node"@);
    let size_tag = ascii("size:"@);
    let unit_tag = ascii("MB"@);
    if !starts_with(line, node_tag) {
        None
    } else {
        let node_from = run_stop(line, node_tag.len() as int, ByteClass::Space);
        let node_to = run_stop(line, node_from, ByteClass::Digit);
        let size_at = run_stop(line, node_to, ByteClass::Space);
        if !tag_at(line, size_at, size_tag) {
            None
        } else {
            let mb_from = run_stop(line, size_at + size_tag.len(), ByteClass::Space);
            let mb_to = run_stop(line, mb_from, ByteClass::Digit);
            let unit_at = run_stop(line, mb_to, ByteClass::Space);
            if !tag_at(line, unit_at, unit_tag) {
                None
            } else {
                node_of(
                    digits_to_u64(line.subrange(node_from, node_to)),
                    digits_to_u64(line.subrange(mb_from, mb_to)),
                )
            }
        }
    }
}

/// Whether `tag` stands in `s` at `from`.
fn has_tag_at(s: &[u8], from: usize, tag: &[u8]) -> (r: bool)
    requires
        from <= s.len(),
    ensures
        r == tag_at(s@, from as int, tag@),
        r ==> from + tag@.len() <= s@.len(),
{
    let rest = slice_subrange(s, from, s.len());
    assert(rest@ =~= s@.skip(from as int));
    has_prefix(rest, tag)
}

/// Reads a line of the shape `node <N> size: <M> MB`.
pub fn parse_numactl_size(line: &[u8]) -> (r: Option<NodeInfo>)
    ensures
        r == size_line(line@),
{
    proof {
        reveal_strlit("node");
        reveal_strlit("size:");
        reveal_strlit("MB");
    }
    let node_tag = ascii_bytes("node");
    let size_tag = ascii_bytes("size:");
    let unit_tag = ascii_bytes("MB");
    if !has_prefix(line, node_tag) {
        return None;
    }
    let node_from = run_end(line, node_tag.len(), ByteClass::Space);
    let node_to = run_end(line, node_from, ByteClass::Digit);
    let size_at = run_end(line, node_to, ByteClass::Space);
    if !has_tag_at(line, size_at, size_tag) {
        return None;
    }
    let mb_from = run_end(line, size_at + size_tag.len(), ByteClass::Space);
    let mb_to = run_end(line, mb_from, ByteClass::Digit);
    let unit_at = run_end(line, mb_to, ByteClass::Space);
    if !has_tag_at(line, unit_at, unit_tag) {
        return None;
    }
    let node = buf_to_u64(slice_subrange(line, node_from, node_to));
    let megabytes = buf_to_u64(slice_subrange(line, mb_from, mb_to));
    match (node, megabytes) {
        (Some(node), Some(mb)) => match mb.checked_mul(BYTES_PER_MB) {
            Some(memory) => Some(NodeInfo { node, memory }),
            None => None,
        },
        _ => None,
    }
}

/// What the line that gives the size of `node` begins with.
pub open spec fn size_line_prefix(node: u64) -> Seq<u8> {
    ascii("node "@) + decimal_repr(node as nat) + ascii(" size:"@)
}

/// The first of `ls` that begins with `prefix`.
pub open spec fn first_with_prefix(ls: Seq<Seq<u8>>, prefix: Seq<u8>) -> Option<Seq<u8>>
    decreases ls.len(),
{
    if ls.len() == 0 {
        None
    } else if starts_with(ls[0], prefix) {
        Some(ls[0])
    } else {
        first_with_prefix(ls.drop_first(), prefix)
    }
}

/// What `report` says of `node`: what its first line that begins with
/// `node <node> size:` says, and nothing where it has no such line or that
/// line cannot be read.
pub open spec fn node_info(node: u64, report: Seq<u8>) -> Option<NodeInfo> {
    match first_with_prefix(lines(report), size_line_prefix(node)) {
        Some(line) => size_line(line),
        None => None,
    }
}

/// The bytes that the line giving the size of `node` begins with.
fn make_size_line_prefix(node: u64) -> (r: Vec<u8>)
    ensures
        r@ == size_line_prefix(node),
{
    proof {
        reveal_strlit("node ");
        reveal_strlit(" size:");
    }
    let mut prefix: Vec<u8> = Vec::new();
    append_bytes(&mut prefix, ascii_bytes("node "));
    push_decimal(&mut prefix, node);
    append_bytes(&mut prefix, ascii_bytes(" size:"));
    assert(prefix@ =~= size_line_prefix(node));
    prefix
}

/// Looks up the memory of `node` in the report of `numactl --hardware`.
pub fn get_node_info(node: u64, numactl_output: &str) -> (r: Option<NodeInfo>)
    ensures
        r == node_info(node, encode_utf8(numactl_output@)),
{
    let report = numactl_output.as_bytes();
    let prefix = make_size_line_prefix(node);
    let mut start: usize = 0;
    assert(report@.skip(0) =~= report@);
    loop
        invariant
            0 <= start <= report.len(),
            report@ == encode_utf8(numactl_output@),
            prefix@ == size_line_prefix(node),
            first_with_prefix(lines(report@), prefix@) == first_with_prefix(
                lines(report@.skip(start as int)),
                prefix@,
            ),
        decreases report.len() - start,
    {
        let end = run_end(report, start, ByteClass::Except(LINE_FEED));
        let line = slice_subrange(report, start, end);
        proof {
            lemma_split_step(report@, LINE_FEED, start as int, end as int);
            let ls = lines(report@.skip(start as int));
            assert(ls[0] == line@);
            if end < report.len() {
                assert(ls.drop_first() =~= lines(report@.skip(end + 1)));
            } else {
                assert(ls.drop_first() =~= Seq::<Seq<u8>>::empty());
            }
        }
        if has_prefix(line, prefix.as_slice()) {
            return parse_numactl_size(line);
        }
        if end == report.len() {
            assert(first_with_prefix(Seq::<Seq<u8>>::empty(), prefix@) is None);
            return None;
        }
        start = end + 1;
    }
}

/// A line that begins with the prefix for `node` gives that node and no
/// other.
pub proof fn lemma_size_line_names_node(node: u64, line: Seq<u8>)
    requires
        starts_with(line, size_line_prefix(node)),
    ensures
        size_line(line) matches Some(info) ==> info.node == node,
{
    reveal_strlit("node");
    reveal_strlit("node ");
    reveal_strlit(" size:");
    let digits = decimal_repr(node as nat);
    let prefix = size_line_prefix(node);
    let k = digits.len() as int;
    lemma_decimal_repr(node as nat);
    assert(prefix.len() == 5 + k + 6);
    assert forall|i: int| 0 <= i < prefix.len() implies line[i] == #[trigger] prefix[i] by {
        assert(line.take(prefix.len() as int)[i] == prefix[i]);
    }
    assert(line.take(4) =~= ascii("node"@)) by {
        assert forall|i: int| 0 <= i < 4 implies line[i] == ascii("node"@)[i] by {
            assert(line[i] == prefix[i]);
        }
    }
    // One space, then the digits of the number, then a space.
    let a = line.skip(4);
    assert(a[0] == prefix[4]);
    assert(a[1] == prefix[5] && prefix[5] == digits[0]);
    assert(ByteClass::Digit.holds(digits[0]));
    lemma_run_len(a, ByteClass::Space, 1);
    let b = line.skip(5);
    assert forall|i: int| 0 <= i < k implies ByteClass::Digit.holds(#[trigger] b[i]) by {
        assert(b[i] == prefix[5 + i] && prefix[5 + i] == digits[i]);
    }
    assert(b[k] == prefix[5 + k]);
    lemma_run_len(b, ByteClass::Digit, k);
    assert(line.subrange(5, 5 + k) =~= digits) by {
        assert forall|i: int| 0 <= i < k implies line[5 + i] == digits[i] by {
            assert(line[5 + i] == prefix[5 + i]);
        }
    }
}

/// The line that gives `megabytes` as the size of `node` in the plainest way:
/// one space between each two parts, and nothing after the unit.
pub open spec fn plain_size_line(node: u64, megabytes: u64) -> Seq<u8> {
    size_line_prefix(node) + ascii(" "@) + decimal_repr(megabytes as nat) + ascii(" MB"@)
}

/// A line of the shape `node <N> size: <M> MB` gives node `N` with `M`
/// million bytes of memory, where these fit in a `u64`.
pub proof fn lemma_size_line_plain(node: u64, megabytes: u64)
    requires
        megabytes * BYTES_PER_MB <= u64::MAX,
    ensures
        starts_with(plain_size_line(node, megabytes), size_line_prefix(node)),
        size_line(plain_size_line(node, megabytes)) == Some(
            NodeInfo { node, memory: (megabytes * BYTES_PER_MB) as u64 },
        ),
{
    reveal_strlit("node");
    reveal_strlit("node ");
    reveal_strlit(" size:");
    reveal_strlit("size:");
    reveal_strlit(" ");
    reveal_strlit(" MB");
    reveal_strlit("MB");
    let name = decimal_repr(node as nat);
    let size = decimal_repr(megabytes as nat);
    let k = name.len() as int;
    let m = size.len() as int;
    lemma_decimal_repr(node as nat);
    lemma_decimal_repr(megabytes as nat);
    let prefix = size_line_prefix(node);
    let line = plain_size_line(node, megabytes);
    assert(prefix.len() == 11 + k);
    assert(line.len() == 15 + k + m);
    assert(line.take(prefix.len() as int) =~= prefix);
    assert forall|i: int| 0 <= i < k implies line[5 + i] == name[i] by {
        assert(line[5 + i] == prefix[5 + i]);
    }
    assert forall|i: int| 0 <= i < m implies line[12 + k + i] == size[i] by {}
    assert(line[4] == 0x20 && line[5 + k] == 0x20 && line[11 + k] == 0x20 && line[12 + k + m]
        == 0x20) by {
        assert(line[4] == prefix[4]);
        assert(line[5 + k] == prefix[5 + k]);
    }
    assert(line.take(4) =~= ascii("node"@)) by {
        assert forall|i: int| 0 <= i < 4 implies line[i] == ascii("node"@)[i] by {
            assert(line[i] == prefix[i]);
        }
    }
    // The number of the node, between single spaces.
    let a = line.skip(4);
    assert(a[0] == line[4] && a[1] == line[5] && line[5] == name[0]);
    lemma_run_len(a, ByteClass::Space, 1);
    let b = line.skip(5);
    assert forall|i: int| 0 <= i < k implies ByteClass::Digit.holds(#[trigger] b[i]) by {
        assert(b[i] == line[5 + i]);
    }
    assert(b[k] == line[5 + k]);
    lemma_run_len(b, ByteClass::Digit, k);
    assert(line.subrange(5, 5 + k) =~= name);
    let c = line.skip(5 + k);
    assert(c[0] == line[5 + k] && c[1] == line[6 + k] && line[6 + k] == prefix[6 + k]);
    lemma_run_len(c, ByteClass::Space, 1);
    // The word `size:`.
    let d = line.skip(6 + k);
    assert(d.take(5) =~= ascii("size:"@)) by {
        assert forall|i: int| 0 <= i < 5 implies d[i] == ascii("size:"@)[i] by {
            assert(d[i] == line[6 + k + i] && line[6 + k + i] == prefix[6 + k + i]);
        }
    }
    // The megabytes, between single spaces.
    let e = line.skip(11 + k);
    assert(e[0] == line[11 + k] && e[1] == line[12 + k] && line[12 + k] == size[0]);
    lemma_run_len(e, ByteClass::Space, 1);
    let f = line.skip(12 + k);
    assert forall|i: int| 0 <= i < m implies ByteClass::Digit.holds(#[trigger] f[i]) by {
        assert(f[i] == line[12 + k + i]);
    }
    assert(f[m] == line[12 + k + m]);
    lemma_run_len(f, ByteClass::Digit, m);
    assert(line.subrange(12 + k, 12 + k + m) =~= size);
    let g = line.skip(12 + k + m);
    assert(g[0] == line[12 + k + m] && g[1] == line[13 + k + m] && line[13 + k + m] == 0x4D);
    lemma_run_len(g, ByteClass::Space, 1);
    // The unit.
    let h = line.skip(13 + k + m);
    assert(h.take(2) =~= ascii("MB"@)) by {
        assert(h[0] == line[13 + k + m] && h[1] == line[14 + k + m]);
        assert(line[14 + k + m] == 0x42);
    }
}

/// What a report says of a node bears that node's number.
pub proof fn lemma_node_info_names_node(node: u64, report: Seq<u8>)
    ensures
        node_info(node, report) matches Some(info) ==> info.node == node,
{
    let prefix = size_line_prefix(node);
    lemma_first_with_prefix(lines(report), prefix);
    if let Some(line) = first_with_prefix(lines(report), prefix) {
        lemma_size_line_names_node(node, line);
    }
}

/// The line that `first_with_prefix` finds begins with the prefix.
pub proof fn lemma_first_with_prefix(ls: Seq<Seq<u8>>, prefix: Seq<u8>)
    ensures
        first_with_prefix(ls, prefix) matches Some(line) ==> starts_with(line, prefix)
            && ls.contains(line),
        first_with_prefix(ls, prefix) is None ==> forall|i: int|
            0 <= i < ls.len() ==> !starts_with(#[trigger] ls[i], prefix),
    decreases ls.len(),
{
    if ls.len() > 0 && !starts_with(ls[0], prefix) {
        let rest = ls.drop_first();
        lemma_first_with_prefix(rest, prefix);
        if let Some(line) = first_with_prefix(rest, prefix) {
            let i = choose|i: int| 0 <= i < rest.len() && rest[i] == line;
            assert(ls[i + 1] == line);
        } else {
            assert forall|i: int| 0 <= i < ls.len() implies !starts_with(
                #[trigger] ls[i],
                prefix,
            ) by {
                if i > 0 {
                    assert(ls[i] == rest[i - 1]);
                }
            }
        }
    } else if ls.len() > 0 {
        assert(ls[0] == ls[0]);
    }
}

} // verus!
