//! Consistent hashing for distributing keys across shards.
//!
//! Each node owns [`VIRTUAL_NODES`] points on a ring of 64-bit hashes. A key
//! goes to the node of the first point at or after the key's hash, wrapping
//! round to the lowest point. Adding a node moves only the keys that now land
//! on one of its points; removing a node moves only the keys it owned.

use std::collections::BTreeMap;
use std::collections::hash_map::DefaultHasher;
use std::hash::{BuildHasher, BuildHasherDefault};

use vstd::prelude::*;
use vstd::string::*;

use crate::text::{
    decimal_string, decimal_text, lemma_decimal_text, lemma_decimal_text_no_colon,
    lemma_split_append_field, split_on, texts,
};

verus! {

/// Virtual nodes (points on the ring) per physical node.
pub const VIRTUAL_NODES: u32 = 150;

/// The value that a `std::collections::hash_map::DefaultHasher`, created by
/// `DefaultHasher::new`, finishes with after hashing the string `key`.
pub uninterp spec fn spec_hash_key(key: Seq<char>) -> u64;

/// The text that `{:#?}` (the `Debug` format of `str`) writes for `s`.
pub uninterp spec fn spec_debug_text(s: Seq<char>) -> Seq<char>;

/// Hashes a key with `BuildHasher::hash_one` on `BuildHasherDefault<DefaultHasher>`:
/// a `DefaultHasher` made by `DefaultHasher::new`, which starts from fixed keys,
/// hashes the key and finishes, so that equal texts hash alike. The contract
/// claims only that the result is the hash of the key's text; which number that
/// is, is not stated.
#[verifier::external_body]
fn hash_key(key: &str) -> (h: u64)
    ensures
        h == spec_hash_key(key@),
{
    BuildHasherDefault::<DefaultHasher>::default().hash_one(key)
}

/// Writes `node` with the alternate `Debug` format of `str` (`{:#?}`): the text
/// in double quotes, with escapes. The contract claims only that the result is
/// a function of the text; the escaping rules are not stated.
#[verifier::external_body]
fn debug_text(node: &str) -> (text: String)
    ensures
        text@ == spec_debug_text(node@),
{
    format!("{:#?}", node)
}

/// The label that is hashed for the `i`-th virtual node of `node`.
pub open spec fn vnode_label(node: Seq<char>, i: nat) -> Seq<char> {
    spec_debug_text(node) + seq![':'] + decimal_text(i)
}

/// The point on the ring of the `i`-th virtual node of `node`.
pub open spec fn vnode_hash(node: Seq<char>, i: nat) -> u64 {
    spec_hash_key(vnode_label(node, i))
}

/// The ring after the first `count` virtual nodes of `node` are placed on it,
/// in order, each taking over its point.
pub open spec fn with_vnodes(m: Map<u64, Seq<char>>, node: Seq<char>, count: nat) -> Map<
    u64,
    Seq<char>,
>
    decreases count,
{
    if count == 0 {
        m
    } else {
        with_vnodes(m, node, (count - 1) as nat).insert(vnode_hash(node, (count - 1) as nat), node)
    }
}

/// The ring without the points of `node`.
pub open spec fn without_node(m: Map<u64, Seq<char>>, node: Seq<char>) -> Map<u64, Seq<char>> {
    m.restrict(m.dom().filter(|k: u64| m[k] != node))
}

/// `k` is the lowest point of `m` at or after `h`.
pub open spec fn is_first_from(m: Map<u64, Seq<char>>, h: u64, k: u64) -> bool {
    &&& m.contains_key(k)
    &&& k >= h
    &&& forall|j: u64| #[trigger] m.contains_key(j) && j >= h ==> k <= j
}

/// The lowest point of `m` at or after `h`.
pub open spec fn first_from(m: Map<u64, Seq<char>>, h: u64) -> u64 {
    choose|k: u64| is_first_from(m, h, k)
}

/// The node that owns hash `h` on ring `m`: the node of the first point at or
/// after `h`, else that of the lowest point; none on an empty ring.
pub open spec fn ring_lookup(m: Map<u64, Seq<char>>, h: u64) -> Option<Seq<char>> {
    if exists|k: u64| #[trigger] m.contains_key(k) && k >= h {
        Some(m[first_from(m, h)])
    } else if exists|k: u64| #[trigger] m.contains_key(k) {
        Some(m[first_from(m, 0)])
    } else {
        None
    }
}

/// What a ring holds: its points with their nodes, and its nodes in the order
/// they were added.
pub ghost struct RingView {
    pub vnodes: Map<u64, Seq<char>>,
    pub nodes: Seq<Seq<char>>,
}

/// A ring's invariant: finitely many points, no node twice, and every point
/// belongs to a node of the ring.
pub open spec fn ring_wf(v: RingView) -> bool {
    &&& v.vnodes.dom().finite()
    &&& v.nodes.no_duplicates()
    &&& forall|k: u64| #[trigger] v.vnodes.contains_key(k) ==> v.nodes.contains(v.vnodes[k])
}

/// Consistent hash ring over shard names.
pub struct ConsistentHashRing {
    ring: BTreeMap<u64, String>,
    nodes: Vec<String>,
}

impl View for ConsistentHashRing {
    type V = RingView;

    closed spec fn view(&self) -> RingView {
        RingView { vnodes: self.ring@.map_values(|s: String| s@), nodes: texts(self.nodes@) }
    }
}

/// The first point of `ring` at or after `from`, as `BTreeMap::range(from..)`
/// yields it first (the range iterates in ascending key order).
#[verifier::external_body]
fn first_point_from<'a>(ring: &'a BTreeMap<u64, String>, from: u64) -> (r: Option<(&'a u64, &'a String)>)
    ensures
        match r {
            Some((k, v)) => {
                &&& ring@.contains_key(*k)
                &&& ring@[*k] == *v
                &&& *k >= from
                &&& forall|j: u64| #[trigger] ring@.contains_key(j) && j >= from ==> *k <= j
            },
            None => forall|j: u64| #[trigger] ring@.contains_key(j) ==> j < from,
        },
{
    ring.range(from..).next()
}

/// Keeps the points of `ring` whose node is not `node`, as `BTreeMap::retain`
/// does with a predicate that holds exactly for those points.
#[verifier::external_body]
fn retain_points_not_of(ring: &mut BTreeMap<u64, String>, node: &String)
    ensures
        final(ring)@ == old(ring)@.restrict(old(ring)@.dom().filter(|k: u64| old(ring)@[k]@ != node@)),
{
    ring.retain(|_, v| other_node(v, node))
}

/// Whether two node names are equal.
fn same_node(a: &String, b: &String) -> (r: bool)
    ensures
        r == (a@ == b@),
{
    a.eq(b)
}

/// Whether two node names differ.
fn other_node(a: &String, b: &String) -> (r: bool)
    ensures
        r == (a@ != b@),
{
    !a.eq(b)
}

/// Whether the list holds a node of the given name.
fn has_node(nodes: &Vec<String>, node: &String) -> (r: bool)
    ensures
        r == texts(nodes@).contains(node@),
{
    let mut i: usize = 0;
    while i < nodes.len()
        invariant
            i <= nodes@.len(),
            forall|k: int| 0 <= k < i ==> texts(nodes@)[k] != node@,
        decreases nodes.len() - i,
    {
        if same_node(&nodes[i], node) {
            assert(texts(nodes@)[i as int] == node@);
            return true;
        }
        i = i + 1;
    }
    false
}

/// `k` is the least element of `s` at or after `h`.
spec fn is_least_from(s: Set<u64>, h: u64, k: u64) -> bool {
    &&& s.contains(k)
    &&& k >= h
    &&& forall|j: u64| #[trigger] s.contains(j) && j >= h ==> k <= j
}

/// A finite set with an element at or after `h` has a least such element.
proof fn lemma_least_from_exists(s: Set<u64>, h: u64) -> (k: u64)
    requires
        s.finite(),
        exists|k: u64| #[trigger] s.contains(k) && k >= h,
    ensures
        is_least_from(s, h, k),
    decreases s.len(),
{
    let x = choose|k: u64| #[trigger] s.contains(k) && k >= h;
    let rest = s.remove(x);
    if exists|k: u64| #[trigger] rest.contains(k) && k >= h {
        let y = lemma_least_from_exists(rest, h);
        let m = if x < y { x } else { y };
        assert forall|j: u64| #[trigger] s.contains(j) && j >= h implies m <= j by {
            if j != x {
                assert(rest.contains(j));
            }
        }
        m
    } else {
        assert forall|j: u64| #[trigger] s.contains(j) && j >= h implies x <= j by {
            if j != x {
                assert(rest.contains(j));
            }
        }
        x
    }
}

/// On a finite ring, `first_from` is the lowest point at or after `h` whenever
/// there is one.
proof fn lemma_first_from(m: Map<u64, Seq<char>>, h: u64)
    requires
        m.dom().finite(),
        exists|k: u64| #[trigger] m.contains_key(k) && k >= h,
    ensures
        is_first_from(m, h, first_from(m, h)),
{
    let k = lemma_least_from_exists(m.dom(), h);
    assert(is_first_from(m, h, k));
}

/// The lowest point at or after `h` is unique.
proof fn lemma_first_unique(m: Map<u64, Seq<char>>, h: u64, a: u64, b: u64)
    requires
        is_first_from(m, h, a),
        is_first_from(m, h, b),
    ensures
        a == b,
{
    assert(a <= b && b <= a);
}

/// The node found for a hash is the node of some point of the ring, and a
/// node is found exactly when the ring has a point.
proof fn lemma_lookup_point(m: Map<u64, Seq<char>>, h: u64)
    requires
        m.dom().finite(),
    ensures
        ring_lookup(m, h) is None <==> m.is_empty(),
        ring_lookup(m, h) matches Some(n) ==> exists|k: u64| #[trigger] m.contains_key(k) && m[k] == n,
{
    if exists|k: u64| #[trigger] m.contains_key(k) && k >= h {
        lemma_first_from(m, h);
        let k = first_from(m, h);
        assert(m.contains_key(k));
    } else if exists|k: u64| #[trigger] m.contains_key(k) {
        let j = choose|k: u64| #[trigger] m.contains_key(k);
        assert(m.contains_key(j) && j >= 0);
        lemma_first_from(m, 0);
        let k = first_from(m, 0);
        assert(m.contains_key(k));
    } else {
        assert(m.dom() =~= Set::<u64>::empty());
    }
}

/// Placing points of `node` keeps every point, and each point then belongs
/// either to `node` or to its earlier owner.
proof fn lemma_with_vnodes_shape(m: Map<u64, Seq<char>>, node: Seq<char>, count: nat)
    requires
        m.dom().finite(),
    ensures
        with_vnodes(m, node, count).dom().finite(),
        forall|k: u64| #[trigger] m.contains_key(k) ==> with_vnodes(m, node, count).contains_key(k),
        forall|k: u64| #[trigger]
            with_vnodes(m, node, count).contains_key(k) ==> with_vnodes(m, node, count)[k] == node || (
            m.contains_key(k) && with_vnodes(m, node, count)[k] == m[k]),
        count > 0 ==> with_vnodes(m, node, count).contains_key(vnode_hash(node, (count - 1) as nat)),
    decreases count,
{
    if count > 0 {
        lemma_with_vnodes_shape(m, node, (count - 1) as nat);
    }
}

/// When a ring grows by points of `node`, possibly taking over points, every
/// hash keeps its node or goes to `node`.
proof fn lemma_lookup_after_growth(m: Map<u64, Seq<char>>, m2: Map<u64, Seq<char>>, node: Seq<char>, h: u64)
    requires
        m.dom().finite(),
        m2.dom().finite(),
        forall|k: u64| #[trigger] m.contains_key(k) ==> m2.contains_key(k),
        forall|k: u64| #[trigger] m2.contains_key(k) ==> m2[k] == node || (m.contains_key(k) && m2[k] == m[k]),
    ensures
        ring_lookup(m2, h) == ring_lookup(m, h) || ring_lookup(m2, h) == Some(node),
{
    if exists|k: u64| #[trigger] m2.contains_key(k) && k >= h {
        lemma_first_from(m2, h);
        let k = first_from(m2, h);
        if m2[k] != node {
            assert(m.contains_key(k) && k >= h);
            lemma_first_from(m, h);
            assert(is_first_from(m, h, k));
            lemma_first_unique(m, h, k, first_from(m, h));
        }
    } else if exists|k: u64| #[trigger] m2.contains_key(k) {
        let j = choose|k: u64| #[trigger] m2.contains_key(k);
        assert(m2.contains_key(j) && j >= 0);
        lemma_first_from(m2, 0);
        let k = first_from(m2, 0);
        if m2[k] != node {
            assert(m.contains_key(k));
            assert(!exists|i: u64| #[trigger] m.contains_key(i) && i >= h);
            lemma_first_from(m, 0);
            assert(is_first_from(m, 0, k));
            lemma_first_unique(m, 0, k, first_from(m, 0));
        }
    } else {
        assert(!exists|i: u64| #[trigger] m.contains_key(i));
    }
}

/// When a ring loses the points of `node`, every hash that `node` did not own
/// keeps its node, and no hash goes to `node`.
proof fn lemma_lookup_after_removal(m: Map<u64, Seq<char>>, node: Seq<char>, h: u64)
    requires
        m.dom().finite(),
    ensures
        ring_lookup(m, h) != Some(node) ==> ring_lookup(without_node(m, node), h) == ring_lookup(m, h),
        ring_lookup(without_node(m, node), h) != Some(node),
{
    let m2 = without_node(m, node);
    assert(m2.dom() =~= m.dom().filter(|k: u64| m[k] != node));
    assert(m2.dom().finite());
    lemma_lookup_point(m2, h);
    if ring_lookup(m, h) != Some(node) {
        if exists|k: u64| #[trigger] m.contains_key(k) && k >= h {
            lemma_first_from(m, h);
            let k = first_from(m, h);
            assert(m2.contains_key(k));
            assert(is_first_from(m2, h, k));
            lemma_first_from(m2, h);
            lemma_first_unique(m2, h, k, first_from(m2, h));
        } else if exists|k: u64| #[trigger] m.contains_key(k) {
            let j = choose|k: u64| #[trigger] m.contains_key(k);
            assert(m.contains_key(j) && j >= 0);
            lemma_first_from(m, 0);
            let k = first_from(m, 0);
            assert(m2.contains_key(k));
            assert(is_first_from(m2, 0, k));
            assert(!exists|i: u64| #[trigger] m2.contains_key(i) && i >= h);
            lemma_first_from(m2, 0);
            lemma_first_unique(m2, 0, k, first_from(m2, 0));
        } else {
            assert(m2.dom() =~= Set::<u64>::empty());
        }
    }
}

/// Every key is routed to a node of the ring, and a key finds a node exactly
/// when the ring has a point.
pub proof fn law_lookup_finds_member(v: RingView, key: Seq<char>)
    requires
        ring_wf(v),
    ensures
        ring_lookup(v.vnodes, spec_hash_key(key)) is None <==> v.vnodes.is_empty(),
        ring_lookup(v.vnodes, spec_hash_key(key)) matches Some(n) ==> v.nodes.contains(n),
{
    lemma_lookup_point(v.vnodes, spec_hash_key(key));
}

/// Adding a node moves a key only to the new node: every key keeps its node or
/// now goes to the added one, and after the addition every key finds a node.
pub proof fn law_add_node_moves_keys_only_to_it(v: RingView, node: Seq<char>, key: Seq<char>)
    requires
        ring_wf(v),
    ensures
        ({
            let after = with_vnodes(v.vnodes, node, VIRTUAL_NODES as nat);
            let h = spec_hash_key(key);
            &&& ring_lookup(after, h) == ring_lookup(v.vnodes, h) || ring_lookup(after, h) == Some(node)
            &&& ring_lookup(after, h) is Some
        }),
{
    let after = with_vnodes(v.vnodes, node, VIRTUAL_NODES as nat);
    let h = spec_hash_key(key);
    lemma_with_vnodes_shape(v.vnodes, node, VIRTUAL_NODES as nat);
    lemma_lookup_after_growth(v.vnodes, after, node, h);
    lemma_lookup_point(after, h);
    assert(after.contains_key(vnode_hash(node, (VIRTUAL_NODES - 1) as nat)));
}

/// Removing a node moves only the keys it owned: every other key keeps its
/// node, and no key goes to the removed node any more.
pub proof fn law_remove_node_keeps_other_keys(v: RingView, node: Seq<char>, key: Seq<char>)
    requires
        ring_wf(v),
    ensures
        ({
            let after = without_node(v.vnodes, node);
            let h = spec_hash_key(key);
            &&& ring_lookup(v.vnodes, h) != Some(node) ==> ring_lookup(after, h) == ring_lookup(v.vnodes, h)
            &&& ring_lookup(after, h) != Some(node)
        }),
{
    lemma_lookup_after_removal(v.vnodes, node, spec_hash_key(key));
}

/// The label of a point names its node in full and its index: two points
/// share a label only when their nodes have the same `{:#?}` text and the
/// points have the same index. So the 150 points of a node come from 150
/// distinct labels, and nodes with different texts never hash a common label.
pub proof fn law_vnode_labels_identify(node1: Seq<char>, i: nat, node2: Seq<char>, j: nat)
    ensures
        vnode_label(node1, i) == vnode_label(node2, j) ==> spec_debug_text(node1) == spec_debug_text(node2)
            && i == j,
{
    if vnode_label(node1, i) == vnode_label(node2, j) {
        let d1 = spec_debug_text(node1);
        let d2 = spec_debug_text(node2);
        let t1 = decimal_text(i);
        let t2 = decimal_text(j);
        lemma_decimal_text_no_colon(i);
        lemma_decimal_text_no_colon(j);
        lemma_split_append_field(d1, t1, ':');
        lemma_split_append_field(d2, t2, ':');
        let l = vnode_label(node1, i);
        assert(split_on(l, ':') == split_on(d1, ':').push(t1));
        assert(split_on(l, ':') == split_on(d2, ':').push(t2));
        assert(split_on(d1, ':').push(t1).last() == t1);
        assert(split_on(d2, ':').push(t2).last() == t2);
        assert(t1 == t2);
        lemma_decimal_text(i);
        lemma_decimal_text(j);
        assert(d1.len() == d2.len());
        assert(d1 =~= l.take(d1.len() as int));
        assert(d2 =~= l.take(d2.len() as int));
    }
}

/// Placing the first `count` points of `node` leaves each of them on the ring,
/// owned by `node`.
proof fn lemma_with_vnodes_owns(m: Map<u64, Seq<char>>, node: Seq<char>, count: nat)
    ensures
        forall|i: nat| #![trigger vnode_hash(node, i)]
            i < count ==> with_vnodes(m, node, count).contains_key(vnode_hash(node, i))
                && with_vnodes(m, node, count)[vnode_hash(node, i)] == node,
    decreases count,
{
    if count > 0 {
        lemma_with_vnodes_owns(m, node, (count - 1) as nat);
    }
}

impl ConsistentHashRing {
    /// The ring's invariant holds.
    pub open spec fn wf(&self) -> bool {
        ring_wf(self@)
    }

    /// An empty ring.
    pub fn new() -> (r: Self)
        ensures
            r.wf(),
            r@.vnodes == Map::<u64, Seq<char>>::empty(),
            r@.nodes == Seq::<Seq<char>>::empty(),
    {
        let r = ConsistentHashRing { ring: BTreeMap::new(), nodes: Vec::new() };
        assert(r@.vnodes =~= Map::<u64, Seq<char>>::empty());
        assert(r@.nodes =~= Seq::<Seq<char>>::empty());
        r
    }

    /// Adds a node with [`VIRTUAL_NODES`] points, each hashed from the node's
    /// `{:#?}` text, a `:` and the point's index. A point that another node
    /// already holds is taken over. Adding a node that is present changes nothing.
    pub fn add_node(&mut self, node: String)
        requires
            old(self).wf(),
        ensures
            final(self).wf(),
            old(self)@.nodes.contains(node@) ==> final(self)@ == old(self)@,
            !old(self)@.nodes.contains(node@) ==> {
                &&& final(self)@.nodes == old(self)@.nodes.push(node@)
                &&& final(self)@.vnodes == with_vnodes(
                    old(self)@.vnodes,
                    node@,
                    VIRTUAL_NODES as nat,
                )
                &&& forall|i: nat| #![trigger vnode_hash(node@, i)]
                    i < VIRTUAL_NODES ==> final(self)@.vnodes.contains_key(vnode_hash(node@, i))
                        && final(self)@.vnodes[vnode_hash(node@, i)] == node@
            },
    {
        let ghost v0 = self@;
        if has_node(&self.nodes, &node) {
            return;
        }
        let ghost before = self.nodes@;
        self.nodes.push(node.clone());
        proof {
            assert(self@.nodes =~= v0.nodes.push(node@)) by {
                assert(self.nodes@ == before.push(node));
            }
            assert(self@.vnodes =~= with_vnodes(v0.vnodes, node@, 0));
            assert forall|a: int, b: int| 0 <= a < b < self@.nodes.len() implies self@.nodes[a] != self@.nodes[b] by {
                if b == self@.nodes.len() - 1 {
                    assert(v0.nodes[a] == self@.nodes[a]);
                }
            }
            assert forall|k: u64| #[trigger] self@.vnodes.contains_key(k) implies self@.nodes.contains(self@.vnodes[k]) by {
                let j = choose|j: int| 0 <= j < v0.nodes.len() && v0.nodes[j] == v0.vnodes[k];
                assert(self@.nodes[j] == v0.nodes[j]);
            }
        }
        let head = debug_text(node.as_str());
        let mut i: u32 = 0;
        while i < VIRTUAL_NODES
            invariant
                i <= VIRTUAL_NODES,
                head@ == spec_debug_text(node@),
                ring_wf(v0),
                !v0.nodes.contains(node@),
                self@.nodes == v0.nodes.push(node@),
                self@.vnodes == with_vnodes(v0.vnodes, node@, i as nat),
                ring_wf(self@),
            decreases VIRTUAL_NODES - i,
        {
            proof {
                reveal_strlit(":");
            }
            let mut label = head.clone();
            label.append(":");
            label.append(decimal_string(i as u64).as_str());
            let h = hash_key(label.as_str());
            let ghost ring_before = self.ring@;
            self.ring.insert(h, node.clone());
            proof {
                assert(label@ == vnode_label(node@, i as nat));
                assert(self@.vnodes =~= ring_before.map_values(|s: String| s@).insert(h, node@));
                assert(self@.nodes.contains(node@)) by {
                    assert(self@.nodes[self@.nodes.len() - 1] == node@);
                }
            }
            i = i + 1;
        }
        proof {
            lemma_with_vnodes_owns(v0.vnodes, node@, VIRTUAL_NODES as nat);
        }
    }

    /// Removes a node and all of its points; other nodes keep their points.
    pub fn remove_node(&mut self, node: &String)
        requires
            old(self).wf(),
        ensures
            final(self).wf(),
            final(self)@.nodes == old(self)@.nodes.filter(|n: Seq<char>| n != node@),
            final(self)@.vnodes == without_node(old(self)@.vnodes, node@),
    {
        let ghost v0 = self@;
        let ghost pred = |n: Seq<char>| n != node@;
        let mut kept: Vec<String> = Vec::new();
        let mut i: usize = 0;
        proof {
            assert(texts(kept@) =~= v0.nodes.take(0).filter(pred)) by {
                reveal_with_fuel(Seq::filter, 1);
                assert(v0.nodes.take(0) =~= Seq::<Seq<char>>::empty());
            }
        }
        while i < self.nodes.len()
            invariant
                i <= self.nodes@.len(),
                self@ == v0,
                ring_wf(v0),
                pred == (|n: Seq<char>| n != node@),
                texts(kept@) == v0.nodes.take(i as int).filter(pred),
                texts(kept@).no_duplicates(),
                forall|x: Seq<char>| #[trigger] texts(kept@).contains(x) ==> v0.nodes.take(i as int).contains(x),
            decreases self.nodes.len() - i,
        {
            let ghost kept_before = kept@;
            proof {
                assert(v0.nodes.take(i + 1).drop_last() =~= v0.nodes.take(i as int));
                assert(v0.nodes.take(i + 1).last() == v0.nodes[i as int]);
                assert(v0.nodes[i as int] == self.nodes@[i as int]@);
                reveal_with_fuel(Seq::filter, 1);
            }
            if !same_node(&self.nodes[i], node) {
                let ghost text = self.nodes@[i as int]@;
                kept.push(self.nodes[i].clone());
                proof {
                    assert(texts(kept@) =~= texts(kept_before).push(text));
                    assert(!texts(kept_before).contains(text)) by {
                        if texts(kept_before).contains(text) {
                            let j = choose|j: int| 0 <= j < i && v0.nodes.take(i as int)[j] == text;
                            assert(v0.nodes[j] == v0.nodes[i as int]);
                        }
                    }
                    assert forall|x: Seq<char>| #[trigger] texts(kept@).contains(x) implies v0.nodes.take(i + 1).contains(x) by {
                        if x == text {
                            assert(v0.nodes.take(i + 1)[i as int] == x);
                        } else {
                            assert(texts(kept_before).contains(x));
                            let j = choose|j: int| 0 <= j < i && v0.nodes.take(i as int)[j] == x;
                            assert(v0.nodes.take(i + 1)[j] == x);
                        }
                    }
                }
            } else {
                proof {
                    assert forall|x: Seq<char>| #[trigger] texts(kept@).contains(x) implies v0.nodes.take(i + 1).contains(x) by {
                        let j = choose|j: int| 0 <= j < i && v0.nodes.take(i as int)[j] == x;
                        assert(v0.nodes.take(i + 1)[j] == x);
                    }
                }
            }
            i = i + 1;
        }
        proof {
            assert(v0.nodes.take(i as int) =~= v0.nodes);
        }
        self.nodes = kept;
        let ghost ring_before = self.ring@;
        retain_points_not_of(&mut self.ring, node);
        proof {
            assert(self@.vnodes =~= without_node(v0.vnodes, node@));
            assert(self@.nodes == v0.nodes.filter(pred));
            assert(self@.nodes.no_duplicates());
            assert(self@.vnodes.dom() =~= v0.vnodes.dom().filter(|k: u64| v0.vnodes[k] != node@));
            assert(self@.vnodes.dom().finite());
            assert forall|k: u64| #[trigger] self@.vnodes.contains_key(k) implies self@.nodes.contains(self@.vnodes[k]) by {
                let x = v0.vnodes[k];
                assert(v0.nodes.contains(x));
                let j = choose|j: int| 0 <= j < v0.nodes.len() && v0.nodes[j] == x;
                v0.nodes.lemma_filter_contains(pred, j);
            }
        }
    }

    /// The node responsible for `key`: the node of the first point at or after
    /// the key's hash, wrapping round to the lowest point; `None` on an empty ring.
    pub fn get_node(&self, key: &str) -> (r: Option<String>)
        requires
            self.wf(),
        ensures
            match r {
                Some(n) => ring_lookup(self@.vnodes, spec_hash_key(key@)) == Some(n@),
                None => ring_lookup(self@.vnodes, spec_hash_key(key@)) is None,
            },
            r is None <==> self@.vnodes.is_empty(),
            r matches Some(n) ==> self@.nodes.contains(n@),
    {
        let ghost m = self@.vnodes;
        if self.ring.is_empty() {
            assert(m =~= Map::<u64, Seq<char>>::empty());
            return None;
        }
        let h = hash_key(key);
        match first_point_from(&self.ring, h) {
            Some((k, v)) => {
                proof {
                    assert(is_first_from(m, h, *k));
                    assert(m.contains_key(*k));
                }
                Some(v.clone())
            },
            None => match first_point_from(&self.ring, 0) {
                Some((k, v)) => {
                    proof {
                        assert(is_first_from(m, 0, *k));
                        assert(m.contains_key(*k));
                    }
                    Some(v.clone())
                },
                None => {
                    proof {
                        assert(self.ring@.dom().len() > 0);
                        let k = self.ring@.dom().choose();
                        assert(self.ring@.contains_key(k));
                    }
                    None
                },
            },
        }
    }
}

impl Default for ConsistentHashRing {
    /// An empty ring.
    fn default() -> (r: Self)
        ensures
            r.wf(),
            r@.vnodes == Map::<u64, Seq<char>>::empty(),
            r@.nodes == Seq::<Seq<char>>::empty(),
    {
        Self::new()
    }
}

} // verus!
