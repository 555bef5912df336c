//! A BLAKE3 Merkle tree over serialized ledger records, with audit paths.
use vstd::prelude::*;
use vstd::slice::slice_to_vec;
use vstd::string::*;
use vstd::utf8::encode_utf8;
use crate::digest::{blake3_digest, blake3_hex, blake3_text};
use crate::hexfmt::lemma_hex_text_ascii;

verus! {

/// The text views of a sequence of strings.
pub open spec fn texts(v: Seq<String>) -> Seq<Seq<char>> {
    v.map_values(|s: String| s@)
}

/// The hash of an inner node: BLAKE3 over the UTF-8 bytes of the left child's
/// text followed by those of the right child's text.
pub open spec fn node_hash(left: Seq<char>, right: Seq<char>) -> Seq<char> {
    blake3_text(encode_utf8(left) + encode_utf8(right))
}

/// The root of a tree without leaves: the hash of no bytes.
pub open spec fn empty_root() -> Seq<char> {
    blake3_text(Seq::<u8>::empty())
}

/// One level up: neighbours are paired left to right, and an odd last node
/// is carried up unchanged.
pub open spec fn next_level(level: Seq<Seq<char>>) -> Seq<Seq<char>> {
    Seq::new(
        ((level.len() + 1) / 2) as nat,
        |j: int|
            if 2 * j + 1 < level.len() {
                node_hash(level[2 * j], level[2 * j + 1])
            } else {
                level[2 * j]
            },
    )
}

/// All levels from `level` up to a level of at most one node.
pub open spec fn levels_from(level: Seq<Seq<char>>) -> Seq<Seq<Seq<char>>>
    decreases level.len(),
{
    if level.len() <= 1 {
        seq![level]
    } else {
        seq![level] + levels_from(next_level(level))
    }
}

/// The levels of the tree over `leaves`, leaves first, root level last.
pub open spec fn merkle_levels(leaves: Seq<Seq<char>>) -> Seq<Seq<Seq<char>>> {
    if leaves.len() == 0 {
        seq![seq![empty_root()]]
    } else {
        levels_from(leaves)
    }
}

/// The root hash of the tree over `leaves`.
pub open spec fn merkle_root(leaves: Seq<Seq<char>>) -> Seq<char> {
    merkle_levels(leaves).last()[0]
}

/// The audit path of the node at `idx` of level `k`, up to the root level:
/// at each level the sibling, if there is one, and whether it stands to the left.
pub open spec fn audit_from(levels: Seq<Seq<Seq<char>>>, k: int, idx: int) -> Seq<(Seq<char>, bool)>
    decreases levels.len() - k,
{
    if k < 0 || k >= levels.len() - 1 {
        seq![]
    } else {
        let is_right = idx % 2 == 1;
        let sibling = if is_right {
            idx - 1
        } else {
            idx + 1
        };
        let rest = audit_from(levels, k + 1, idx / 2);
        if sibling < levels[k].len() {
            seq![(levels[k][sibling], is_right)] + rest
        } else {
            rest
        }
    }
}

/// The audit path of leaf `i` of the tree over `leaves`.
pub open spec fn merkle_audit_path(leaves: Seq<Seq<char>>, i: int) -> Seq<(Seq<char>, bool)> {
    audit_from(merkle_levels(leaves), 0, i)
}

/// One step of a verification: the sibling goes left when its flag is set.
pub open spec fn path_step(current: Seq<char>, entry: (Seq<char>, bool)) -> Seq<char> {
    if entry.1 {
        node_hash(entry.0, current)
    } else {
        node_hash(current, entry.0)
    }
}

/// The hash reached from `current` by following `path`.
pub open spec fn fold_path(current: Seq<char>, path: Seq<(Seq<char>, bool)>) -> Seq<char>
    decreases path.len(),
{
    if path.len() == 0 {
        current
    } else {
        fold_path(path_step(current, path[0]), path.drop_first())
    }
}

/// Whether the hashes of `path` lead from `leaf` to `root`.
pub open spec fn path_verifies(leaf: Seq<char>, root: Seq<char>, path: Seq<(Seq<char>, bool)>) -> bool {
    fold_path(leaf, path) == root
}

/// An audit path with each sibling by its text.
pub open spec fn path_texts(v: Seq<(String, bool)>) -> Seq<(Seq<char>, bool)> {
    v.map_values(|e: (String, bool)| (e.0@, e.1))
}

proof fn lemma_path_texts_push(v: Seq<(String, bool)>, e: (String, bool))
    ensures
        path_texts(v.push(e)) == path_texts(v).push((e.0@, e.1)),
{
    assert(path_texts(v.push(e)) =~= path_texts(v).push((e.0@, e.1)));
}

/// One level of an audit path: the sibling entry, if any, then the rest.
proof fn lemma_audit_step(levels: Seq<Seq<Seq<char>>>, k: int, idx: int)
    requires
        0 <= k < levels.len() - 1,
        0 <= idx < levels[k].len(),
        levels[k + 1] == next_level(levels[k]),
    ensures
        idx / 2 < levels[k + 1].len(),
        audit_from(levels, k, idx) == (if (if idx % 2 == 1 { idx - 1 } else { idx + 1 })
            < levels[k].len() {
            seq![(levels[k][if idx % 2 == 1 { idx - 1 } else { idx + 1 }], idx % 2 == 1)]
        } else {
            Seq::<(Seq<char>, bool)>::empty()
        }) + audit_from(levels, k + 1, idx / 2),
{
    let sibling = if idx % 2 == 1 {
        idx - 1
    } else {
        idx + 1
    };
    if sibling >= levels[k].len() {
        assert(Seq::<(Seq<char>, bool)>::empty() + audit_from(levels, k + 1, idx / 2)
            =~= audit_from(levels, k + 1, idx / 2));
    }
}

/// A proof that a leaf hash belongs to a tree with a given root.
#[derive(Debug, Clone)]
pub struct MerkleProof {
    pub leaf_hash: String,
    pub root_hash: String,
    pub audit_path: Vec<(String, bool)>,
}

impl MerkleProof {
    /// The audit path, each sibling by its text.
    pub open spec fn path_view(&self) -> Seq<(Seq<char>, bool)> {
        path_texts(self.audit_path@)
    }
}

/// A Merkle tree: the leaf hashes and every level above them.
pub struct MerkleTree {
    leaves: Vec<String>,
    levels: Vec<Vec<String>>,
}

impl MerkleTree {
    /// The leaf hashes, in order.
    pub closed spec fn leaves_view(&self) -> Seq<Seq<char>> {
        texts(self.leaves@)
    }

    pub closed spec fn levels_view(&self) -> Seq<Seq<Seq<char>>> {
        self.levels@.map_values(|l: Vec<String>| texts(l@))
    }

    #[verifier::type_invariant]
    closed spec fn well_formed(self) -> bool {
        self.levels_view() == merkle_levels(self.leaves_view())
    }
}

/// `levels_from` starts with its argument, ends with one node, and each level
/// is the next level of the one below it.
pub proof fn lemma_levels_shape(level: Seq<Seq<char>>)
    requires
        level.len() >= 1,
    ensures
        levels_from(level).len() >= 1,
        levels_from(level)[0] == level,
        levels_from(level).last().len() == 1,
        forall|k: int|
            1 <= k < levels_from(level).len() ==> {
                &&& #[trigger] levels_from(level)[k] == next_level(levels_from(level)[k - 1])
                &&& levels_from(level)[k - 1].len() >= 2
            },
    decreases level.len(),
{
    if level.len() > 1 {
        let next = next_level(level);
        lemma_levels_shape(next);
        let rest = levels_from(next);
        assert(levels_from(level) == seq![level] + rest);
        assert forall|k: int| 1 <= k < levels_from(level).len() implies {
            &&& #[trigger] levels_from(level)[k] == next_level(levels_from(level)[k - 1])
            &&& levels_from(level)[k - 1].len() >= 2
        } by {
            if k == 1 {
                assert(levels_from(level)[1] == rest[0]);
            } else {
                assert(levels_from(level)[k - 1] == rest[k - 2]);
                assert(levels_from(level)[k] == rest[k - 1]);
            }
        }
    }
}

/// The levels of any tree: the first is the leaves, the last a single root,
/// and each is the next level of the one below.
pub proof fn lemma_merkle_levels_shape(leaves: Seq<Seq<char>>)
    ensures
        merkle_levels(leaves).len() >= 1,
        merkle_levels(leaves).last().len() == 1,
        leaves.len() > 0 ==> merkle_levels(leaves)[0] == leaves,
        forall|k: int|
            1 <= k < merkle_levels(leaves).len() ==> {
                &&& #[trigger] merkle_levels(leaves)[k] == next_level(merkle_levels(leaves)[k - 1])
                &&& merkle_levels(leaves)[k - 1].len() >= 2
            },
{
    if leaves.len() > 0 {
        lemma_levels_shape(leaves);
    }
}

proof fn lemma_fold_prepend(current: Seq<char>, entry: (Seq<char>, bool), rest: Seq<(Seq<char>, bool)>)
    ensures
        fold_path(current, seq![entry] + rest) == fold_path(path_step(current, entry), rest),
{
    assert((seq![entry] + rest).drop_first() =~= rest);
}

/// From any node of level `k`, its audit path leads to the root.
proof fn lemma_audit_reaches_root(levels: Seq<Seq<Seq<char>>>, k: int, idx: int)
    requires
        levels.len() >= 1,
        levels.last().len() == 1,
        forall|j: int|
            1 <= j < levels.len() ==> {
                &&& #[trigger] levels[j] == next_level(levels[j - 1])
                &&& levels[j - 1].len() >= 2
            },
        0 <= k < levels.len(),
        0 <= idx < levels[k].len(),
    ensures
        fold_path(levels[k][idx], audit_from(levels, k, idx)) == levels.last()[0],
    decreases levels.len() - k,
{
    if k == levels.len() - 1 {
        assert(idx == 0);
    } else {
        let level = levels[k];
        let next = levels[k + 1];
        assert(next == next_level(level));
        let h = idx / 2;
        assert(h < next.len());
        lemma_audit_reaches_root(levels, k + 1, h);
        let rest = audit_from(levels, k + 1, h);
        if idx % 2 == 1 {
            assert(2 * h + 1 == idx);
            assert(next[h] == node_hash(level[idx - 1], level[idx]));
            lemma_fold_prepend(level[idx], (level[idx - 1], true), rest);
        } else if idx + 1 < level.len() {
            assert(2 * h == idx);
            assert(next[h] == node_hash(level[idx], level[idx + 1]));
            lemma_fold_prepend(level[idx], (level[idx + 1], false), rest);
        } else {
            assert(2 * h == idx);
            assert(next[h] == level[idx]);
        }
    }
}

/// Law: the audit path of every leaf leads from that leaf to the root, so the
/// proof that `generate_proof` gives for any leaf is accepted by `verify_proof`.
pub proof fn lemma_every_leaf_proof_verifies(leaves: Seq<Seq<char>>, i: int)
    requires
        0 <= i < leaves.len(),
    ensures
        path_verifies(leaves[i], merkle_root(leaves), merkle_audit_path(leaves, i)),
{
    lemma_merkle_levels_shape(leaves);
    lemma_audit_reaches_root(merkle_levels(leaves), 0, i);
}

/// Law: a proof that verifies stops verifying when only its root hash is
/// replaced by a different one.
pub proof fn lemma_other_root_rejected(
    leaf: Seq<char>,
    root: Seq<char>,
    other_root: Seq<char>,
    path: Seq<(Seq<char>, bool)>,
)
    requires
        path_verifies(leaf, root, path),
        other_root != root,
    ensures
        !path_verifies(leaf, other_root, path),
{
}

/// The single node that the levels above `level` reach.
pub open spec fn top(level: Seq<Seq<char>>) -> Seq<char> {
    levels_from(level).last()[0]
}

/// Where a level of `n` nodes splits under the root: the largest power of two below `n`.
pub open spec fn split_point(n: int) -> int
    decreases n,
{
    if n <= 2 {
        1
    } else {
        2 * split_point((n + 1) / 2)
    }
}

proof fn lemma_split_point(n: int)
    requires
        n >= 2,
    ensures
        1 <= split_point(n) < n <= 2 * split_point(n),
        n >= 3 ==> split_point(n) % 2 == 0 && split_point(n) / 2 == split_point((n + 1) / 2),
    decreases n,
{
    if n > 2 {
        lemma_split_point((n + 1) / 2);
    }
}

proof fn lemma_top_step(level: Seq<Seq<char>>)
    requires
        level.len() >= 1,
    ensures
        top(level) == top(next_level(level)),
        level.len() == 1 ==> top(level) == level[0],
{
    if level.len() >= 2 {
        lemma_levels_shape(next_level(level));
        assert(levels_from(level) == seq![level] + levels_from(next_level(level)));
    } else {
        assert(next_level(level) =~= level);
    }
}

proof fn lemma_next_level_split(a: Seq<Seq<char>>, s: int)
    requires
        0 <= s <= a.len(),
        s % 2 == 0,
    ensures
        next_level(a) == next_level(a.subrange(0, s)) + next_level(a.subrange(s, a.len() as int)),
{
    let x = a.subrange(0, s);
    let y = a.subrange(s, a.len() as int);
    assert(next_level(a) =~= next_level(x) + next_level(y)) by {
        assert(next_level(x).len() == s / 2);
        assert forall|j: int| 0 <= j < next_level(a).len() implies #[trigger] next_level(a)[j] == (next_level(x)
            + next_level(y))[j] by {
            if j < s / 2 {
                assert(x[2 * j] == a[2 * j]);
                assert(2 * j + 1 < s);
                assert(x[2 * j + 1] == a[2 * j + 1]);
            } else {
                let k = j - s / 2;
                assert(y[2 * k] == a[2 * j]);
                if 2 * j + 1 < a.len() {
                    assert(y[2 * k + 1] == a[2 * j + 1]);
                }
            }
        }
    }
}

/// Under the root, the tree splits into the tree of the first `split_point`
/// nodes and the tree of the rest.
pub proof fn lemma_top_split(a: Seq<Seq<char>>)
    requires
        a.len() >= 2,
    ensures
        top(a) == node_hash(
            top(a.subrange(0, split_point(a.len() as int))),
            top(a.subrange(split_point(a.len() as int), a.len() as int)),
        ),
    decreases a.len(),
{
    let n = a.len() as int;
    lemma_split_point(n);
    let s = split_point(n);
    lemma_top_step(a);
    if n == 2 {
        assert(next_level(a).len() == 1);
        lemma_top_step(next_level(a));
        lemma_top_step(a.subrange(0, 1));
        lemma_top_step(a.subrange(1, 2));
    } else {
        let x = a.subrange(0, s);
        let y = a.subrange(s, n);
        let big = next_level(a);
        lemma_next_level_split(a, s);
        assert(next_level(x).len() == s / 2);
        assert(big.len() == (n + 1) / 2);
        lemma_top_split(big);
        assert(big.subrange(0, s / 2) =~= next_level(x));
        assert(big.subrange(s / 2, big.len() as int) =~= next_level(y));
        lemma_top_step(x);
        lemma_top_step(y);
    }
}

/// The leaf hashes of a sequence of serialized records.
pub open spec fn record_leaves(records: Seq<Seq<u8>>) -> Seq<Seq<char>> {
    records.map_values(|r: Seq<u8>| blake3_text(r))
}

/// Whether `t` is the BLAKE3 hash text of some bytes.
pub open spec fn is_hash_text(t: Seq<char>) -> bool {
    exists|x: Seq<u8>| #[trigger] blake3_text(x) == t
}

/// Whether `r` is the input of an inner node: the texts of two hashes, one after the other.
pub open spec fn is_node_input(r: Seq<u8>) -> bool {
    exists|l: Seq<char>, rr: Seq<char>|
        #![trigger is_hash_text(l), is_hash_text(rr)]
        is_hash_text(l) && is_hash_text(rr) && r == encode_utf8(l) + encode_utf8(rr)
}

/// A serialized record that a tree can tell from every other node: not empty,
/// and not the input of an inner node.
pub open spec fn leaf_record(r: Seq<u8>) -> bool {
    r.len() > 0 && !is_node_input(r)
}

/// What BLAKE3 hashes to give the root of the tree over `records`.
pub open spec fn root_input(records: Seq<Seq<u8>>) -> Seq<u8> {
    let l = record_leaves(records);
    let s = split_point(records.len() as int);
    if records.len() == 0 {
        Seq::empty()
    } else if records.len() == 1 {
        records[0]
    } else {
        encode_utf8(top(l.subrange(0, s))) + encode_utf8(top(l.subrange(s, l.len() as int)))
    }
}

proof fn lemma_hash_text_bytes(t: Seq<char>)
    requires
        forall|x: Seq<u8>| #[trigger] blake3_digest(x).len() == 32,
        is_hash_text(t),
    ensures
        encode_utf8(t).len() == 64,
{
    let x = choose|x: Seq<u8>| #[trigger] blake3_text(x) == t;
    assert(blake3_digest(x).len() == 32);
    lemma_hex_text_ascii(blake3_digest(x), false);
    vstd::utf8::is_ascii_chars_encode_utf8(t);
}

proof fn lemma_root_input(records: Seq<Seq<u8>>)
    requires
        forall|x: Seq<u8>| #[trigger] blake3_digest(x).len() == 32,
        forall|i: int| 0 <= i < records.len() ==> leaf_record(#[trigger] records[i]),
    ensures
        merkle_root(record_leaves(records)) == blake3_text(root_input(records)),
        records.len() >= 1 ==> is_hash_text(merkle_root(record_leaves(records))),
        records.len() >= 1 ==> merkle_root(record_leaves(records)) == top(record_leaves(records)),
        records.len() == 0 ==> root_input(records).len() == 0,
        records.len() == 1 ==> leaf_record(root_input(records)),
        records.len() >= 2 ==> is_node_input(root_input(records)),
        records.len() >= 2 ==> root_input(records).len() == 128,
{
    let l = record_leaves(records);
    let n = records.len() as int;
    if n == 0 {
        assert(merkle_levels(l) == seq![seq![empty_root()]]);
    } else if n == 1 {
        lemma_top_step(l);
        assert(is_hash_text(blake3_text(records[0])));
    } else {
        lemma_split_point(n);
        let s = split_point(n);
        lemma_top_split(l);
        let lt = top(l.subrange(0, s));
        let rt = top(l.subrange(s, n));
        assert(top(l) == blake3_text(root_input(records)));
        assert(is_hash_text(blake3_text(root_input(records))));
        lemma_top_hash(l.subrange(0, s));
        lemma_top_hash(l.subrange(s, n));
        assert(is_hash_text(lt) && is_hash_text(rt));
        lemma_hash_text_bytes(lt);
        lemma_hash_text_bytes(rt);
    }
}

proof fn lemma_top_hash(l: Seq<Seq<char>>)
    requires
        l.len() >= 1,
        forall|i: int| 0 <= i < l.len() ==> is_hash_text(#[trigger] l[i]),
    ensures
        is_hash_text(top(l)),
{
    if l.len() == 1 {
        lemma_top_step(l);
        assert(is_hash_text(l[0]));
    } else {
        lemma_top_split(l);
        let n = l.len() as int;
        let s = split_point(n);
        let input = encode_utf8(top(l.subrange(0, s))) + encode_utf8(top(l.subrange(s, n)));
        assert(blake3_text(input) == top(l));
    }
}

proof fn lemma_root_injective(r1: Seq<Seq<u8>>, r2: Seq<Seq<u8>>)
    requires
        forall|x: Seq<u8>| #[trigger] blake3_digest(x).len() == 32,
        forall|x: Seq<u8>, y: Seq<u8>| #[trigger] blake3_text(x) == #[trigger] blake3_text(y) ==> x == y,
        forall|i: int| 0 <= i < r1.len() ==> leaf_record(#[trigger] r1[i]),
        forall|i: int| 0 <= i < r2.len() ==> leaf_record(#[trigger] r2[i]),
        merkle_root(record_leaves(r1)) == merkle_root(record_leaves(r2)),
    ensures
        r1 == r2,
    decreases r1.len() + r2.len(),
{
    lemma_root_input(r1);
    lemma_root_input(r2);
    let i1 = root_input(r1);
    let i2 = root_input(r2);
    assert(i1 == i2);
    let n1 = r1.len() as int;
    let n2 = r2.len() as int;
    if n1 == 0 || n2 == 0 {
        if n1 != n2 {
            if n1 == 1 || n2 == 1 {
            }
        }
        assert(r1 =~= r2);
    } else if n1 == 1 || n2 == 1 {
        if n1 == 1 && n2 == 1 {
            assert(r1 =~= r2);
        }
    } else {
        lemma_split_point(n1);
        lemma_split_point(n2);
        let s1 = split_point(n1);
        let s2 = split_point(n2);
        let l1 = record_leaves(r1);
        let l2 = record_leaves(r2);
        let a1 = r1.subrange(0, s1);
        let b1 = r1.subrange(s1, n1);
        let a2 = r2.subrange(0, s2);
        let b2 = r2.subrange(s2, n2);
        assert(record_leaves(a1) =~= l1.subrange(0, s1));
        assert(record_leaves(b1) =~= l1.subrange(s1, n1));
        assert(record_leaves(a2) =~= l2.subrange(0, s2));
        assert(record_leaves(b2) =~= l2.subrange(s2, n2));
        lemma_root_input(a1);
        lemma_root_input(b1);
        lemma_root_input(a2);
        lemma_root_input(b2);
        let ta1 = top(l1.subrange(0, s1));
        let tb1 = top(l1.subrange(s1, n1));
        let ta2 = top(l2.subrange(0, s2));
        let tb2 = top(l2.subrange(s2, n2));
        lemma_hash_text_bytes(ta1);
        lemma_hash_text_bytes(tb1);
        lemma_hash_text_bytes(ta2);
        lemma_hash_text_bytes(tb2);
        assert(encode_utf8(ta1) =~= i1.subrange(0, 64));
        assert(encode_utf8(ta2) =~= i2.subrange(0, 64));
        assert(encode_utf8(tb1) =~= i1.subrange(64, 128));
        assert(encode_utf8(tb2) =~= i2.subrange(64, 128));
        vstd::utf8::encode_utf8_decode_utf8(ta1);
        vstd::utf8::encode_utf8_decode_utf8(ta2);
        vstd::utf8::encode_utf8_decode_utf8(tb1);
        vstd::utf8::encode_utf8_decode_utf8(tb2);
        lemma_root_injective(a1, a2);
        lemma_root_injective(b1, b2);
        assert(r1 =~= a1 + b1);
        assert(r2 =~= a2 + b2);
    }
}

/// Law: where BLAKE3 hashes are 32 bytes and free of collisions, different
/// sequences of serialized records give trees with different roots. Left out
/// are records that are empty or are themselves the input of an inner node
/// (the texts of two hashes), which a tree cannot tell from its own nodes.
pub proof fn lemma_distinct_records_distinct_roots(a: Seq<Seq<u8>>, b: Seq<Seq<u8>>)
    requires
        forall|x: Seq<u8>| #[trigger] blake3_digest(x).len() == 32,
        forall|x: Seq<u8>, y: Seq<u8>| #[trigger] blake3_text(x) == #[trigger] blake3_text(y) ==> x == y,
        forall|i: int| 0 <= i < a.len() ==> leaf_record(#[trigger] a[i]),
        forall|i: int| 0 <= i < b.len() ==> leaf_record(#[trigger] b[i]),
        a != b,
    ensures
        merkle_root(record_leaves(a)) != merkle_root(record_leaves(b)),
{
    if merkle_root(record_leaves(a)) == merkle_root(record_leaves(b)) {
        lemma_root_injective(a, b);
    }
}

/// A copy of `v` with the same texts.
pub(crate) fn clone_texts(v: &Vec<String>) -> (res: Vec<String>)
    ensures
        texts(res@) == texts(v@),
{
    let mut out: Vec<String> = Vec::new();
    let mut i: usize = 0;
    while i < v.len()
        invariant
            i <= v@.len(),
            out@.len() == i,
            forall|j: int| 0 <= j < i ==> #[trigger] out@[j]@ == v@[j]@,
        decreases v@.len() - i,
    {
        out.push(v[i].clone());
        i = i + 1;
    }
    proof {
        assert(texts(out@) =~= texts(v@));
    }
    out
}

fn hash_node(left: &String, right: &String) -> (res: String)
    ensures
        res@ == node_hash(left@, right@),
{
    let mut buf = slice_to_vec(left.as_str().as_bytes());
    buf.extend_from_slice(right.as_str().as_bytes());
    proof {
        assert(buf@ =~= encode_utf8(left@) + encode_utf8(right@));
    }
    blake3_hex(buf.as_slice())
}

fn build_next_level(level: &Vec<String>) -> (res: Vec<String>)
    ensures
        texts(res@) == next_level(texts(level@)),
{
    let n = level.len();
    let ghost lv = texts(level@);
    let mut out: Vec<String> = Vec::new();
    let mut i: usize = 0;
    while i < n
        invariant
            n == level@.len(),
            lv == texts(level@),
            i <= n,
            i % 2 == 0 || i == n,
            out@.len() == (i + 1) / 2,
            forall|j: int| 0 <= j < out@.len() ==> #[trigger] out@[j]@ == next_level(lv)[j],
        decreases n - i,
    {
        let ghost j = out@.len() as int;
        assert(2 * j == i);
        if i + 1 < n {
            let h = hash_node(&level[i], &level[i + 1]);
            out.push(h);
            i = i + 2;
        } else {
            out.push(level[i].clone());
            i = i + 1;
            assert(i == n);
        }
        assert(out@[j]@ == next_level(lv)[j]);
    }
    proof {
        assert(texts(out@) =~= next_level(lv));
    }
    out
}

impl MerkleTree {
    /// Builds the tree whose leaves are the BLAKE3 hashes of the serialized
    /// records, in order. A tree without leaves has the hash of no bytes as its root.
    pub fn new(serialized_records: &[Vec<u8>]) -> (tree: MerkleTree)
        ensures
            tree.leaves_view().len() == serialized_records@.len(),
            forall|i: int|
                0 <= i < serialized_records@.len() ==> #[trigger] tree.leaves_view()[i]
                    == blake3_text(serialized_records@[i]@),
    {
        let mut leaves: Vec<String> = Vec::new();
        let mut i: usize = 0;
        while i < serialized_records.len()
            invariant
                i <= serialized_records@.len(),
                leaves@.len() == i,
                forall|j: int|
                    0 <= j < i ==> #[trigger] leaves@[j]@ == blake3_text(serialized_records@[j]@),
            decreases serialized_records@.len() - i,
        {
            let h = blake3_hex(serialized_records[i].as_slice());
            leaves.push(h);
            i = i + 1;
        }
        if leaves.len() == 0 {
            let empty: Vec<u8> = Vec::new();
            let root = blake3_hex(empty.as_slice());
            let mut top: Vec<String> = Vec::new();
            top.push(root);
            let mut levels: Vec<Vec<String>> = Vec::new();
            levels.push(top);
            proof {
                assert(empty@ =~= Seq::<u8>::empty());
                let t = MerkleTree { leaves, levels };
                assert(t.levels_view() =~= merkle_levels(t.leaves_view())) by {
                    assert(t.levels_view()[0] =~= seq![empty_root()]);
                }
            }
            return MerkleTree { leaves, levels };
        }
        let ghost lv = texts(leaves@);
        let mut levels: Vec<Vec<String>> = Vec::new();
        levels.push(clone_texts(&leaves));
        let mut current = clone_texts(&leaves);
        assert(texts(current@).len() == current@.len());
        assert(texts(leaves@).len() == leaves@.len());
        while current.len() > 1
            invariant
                levels@.len() >= 1,
                current@.len() >= 1,
                texts(levels@.last()@) == texts(current@),
                levels@.map_values(|l: Vec<String>| texts(l@)) + levels_from(
                    texts(current@),
                ).drop_first() == levels_from(lv),
            decreases current@.len(),
        {
            let next = build_next_level(&current);
            let ghost old_levels = levels@.map_values(|l: Vec<String>| texts(l@));
            proof {
                assert(levels_from(texts(current@)) == seq![texts(current@)] + levels_from(
                    texts(next@),
                ));
                assert(levels_from(texts(current@)).drop_first() =~= levels_from(texts(next@)));
                assert(levels_from(texts(next@)) =~= seq![texts(next@)] + levels_from(
                    texts(next@),
                ).drop_first()) by {
                    if texts(next@).len() > 1 {
                    }
                }
            }
            levels.push(clone_texts(&next));
            proof {
                assert(levels@.map_values(|l: Vec<String>| texts(l@)) =~= old_levels.push(
                    texts(next@),
                ));
            }
            current = next;
        }
        proof {
            assert(levels_from(texts(current@)).drop_first() =~= Seq::<Seq<Seq<char>>>::empty());
            assert(levels@.map_values(|l: Vec<String>| texts(l@)) =~= levels_from(lv));
        }
        MerkleTree { leaves, levels }
    }
}


impl MerkleTree {
    /// The leaf hashes, in order.
    pub fn leaves(&self) -> (res: &Vec<String>)
        ensures
            texts(res@) == self.leaves_view(),
    {
        &self.leaves
    }

    /// The root hash: the single node of the top level.
    pub fn root_hash(&self) -> (res: String)
        ensures
            res@ == merkle_root(self.leaves_view()),
    {
        proof {
            use_type_invariant(self);
            lemma_merkle_levels_shape(self.leaves_view());
        }
        let top = &self.levels[self.levels.len() - 1];
        proof {
            assert(texts(top@) == self.levels_view().last());
            assert(texts(top@)[0] == top@[0]@);
        }
        top[0].clone()
    }

    /// The audit proof of leaf `leaf_index`, or `None` where there is no such leaf.
    pub fn generate_proof(&self, leaf_index: usize) -> (res: Option<MerkleProof>)
        ensures
            res is None <==> leaf_index >= self.leaves_view().len(),
            res matches Some(p) ==> {
                &&& p.leaf_hash@ == self.leaves_view()[leaf_index as int]
                &&& p.root_hash@ == merkle_root(self.leaves_view())
                &&& p.path_view() == merkle_audit_path(self.leaves_view(), leaf_index as int)
            },
    {
        proof {
            use_type_invariant(self);
            lemma_merkle_levels_shape(self.leaves_view());
        }
        if leaf_index >= self.leaves.len() {
            return None;
        }
        let ghost lv = self.levels_view();
        let leaf_hash = self.leaves[leaf_index].clone();
        let root_hash = self.root_hash();
        let mut audit_path: Vec<(String, bool)> = Vec::new();
        let mut current_idx = leaf_index;
        let top = self.levels.len() - 1;
        let mut k: usize = 0;
        proof {
            assert(lv[0] == self.leaves_view());
            assert(lv[0].len() == self.leaves@.len());
        }
        while k < top
            invariant
                top == lv.len() - 1,
                lv == self.levels_view(),
                self.levels@.len() == lv.len(),
                forall|j: int|
                    1 <= j < lv.len() ==> {
                        &&& #[trigger] lv[j] == next_level(lv[j - 1])
                        &&& lv[j - 1].len() >= 2
                    },
                k <= top,
                current_idx < lv[k as int].len(),
                path_texts(audit_path@) + audit_from(lv, k as int, current_idx as int) == audit_from(
                    lv,
                    0,
                    leaf_index as int,
                ),
            decreases top - k,
        {
            let level = &self.levels[k];
            proof {
                assert(lv[k + 1] == next_level(lv[k as int]));
                lemma_audit_step(lv, k as int, current_idx as int);
                assert(texts(level@) == lv[k as int]);
                assert(level@.len() == lv[k as int].len());
            }
            let is_right = current_idx % 2 == 1;
            let sibling_idx = if is_right {
                current_idx - 1
            } else {
                current_idx + 1
            };
            let ghost before = path_texts(audit_path@);
            let ghost rest = audit_from(lv, k + 1, current_idx as int / 2);
            if sibling_idx < level.len() {
                let s = level[sibling_idx].clone();
                let ghost e = (lv[k as int][sibling_idx as int], is_right);
                proof {
                    assert(s@ == texts(level@)[sibling_idx as int]);
                    lemma_path_texts_push(audit_path@, (s, is_right));
                    assert(before + (seq![e] + rest) =~= before.push(e) + rest);
                }
                audit_path.push((s, is_right));
            } else {
                proof {
                    assert(before + (Seq::<(Seq<char>, bool)>::empty() + rest) =~= before + rest);
                }
            }
            current_idx = current_idx / 2;
            k = k + 1;
        }
        proof {
            assert(audit_from(lv, k as int, current_idx as int) =~= Seq::<(Seq<char>, bool)>::empty());
            assert(path_texts(audit_path@) =~= audit_from(lv, 0, leaf_index as int));
            assert(texts(self.leaves@)[leaf_index as int] == self.leaves@[leaf_index as int]@);
        }
        Some(MerkleProof { leaf_hash, root_hash, audit_path })
    }

    /// Whether the audit path of `proof` leads from its leaf hash to its root hash.
    pub fn verify_proof(proof: &MerkleProof) -> (res: bool)
        ensures
            res == path_verifies(proof.leaf_hash@, proof.root_hash@, proof.path_view()),
    {
        let ghost path = proof.path_view();
        let mut current = proof.leaf_hash.clone();
        let n = proof.audit_path.len();
        let mut i: usize = 0;
        proof {
            assert(path.skip(0) =~= path);
        }
        while i < n
            invariant
                n == proof.audit_path@.len(),
                path == proof.path_view(),
                i <= n,
                fold_path(proof.leaf_hash@, path) == fold_path(current@, path.skip(i as int)),
            decreases n - i,
        {
            let entry = &proof.audit_path[i];
            proof {
                assert(path[i as int] == (entry.0@, entry.1));
                assert(path.skip(i as int).drop_first() =~= path.skip(i + 1));
                assert(path.skip(i as int)[0] == path[i as int]);
            }
            if entry.1 {
                current = hash_node(&entry.0, &current);
            } else {
                current = hash_node(&current, &entry.0);
            }
            i = i + 1;
        }
        proof {
            assert(path.skip(n as int) =~= Seq::<(Seq<char>, bool)>::empty());
        }
        current == proof.root_hash
    }
}

} // verus!
