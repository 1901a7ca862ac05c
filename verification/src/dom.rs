//! The document tree: element and text nodes, and the ordered-unique
//! attribute mapping of an element.
//!
//! Exec values are mirrored by mathematical models: an `Element` is modelled
//! by an `ElementV` over sequences, a `Node` by a `NodeV` whose children form
//! a sequence, and an `AttrMap` by its ordered sequence of key/value pairs,
//! from which `attrs_map` derives the key-to-value mapping that lookups obey.

use vstd::prelude::*;

verus! {

/// An element: a tag name and its attribute mapping.
#[derive(Debug, Clone, PartialEq)]
pub struct Element {
    pub tag_name: Vec<char>,
    pub attributes: AttrMap,
}

/// A literal run of non-tag characters.
#[derive(Debug, Clone, PartialEq)]
pub struct Text {
    pub data: Vec<char>,
}

/// The two kinds of node.
#[derive(Debug, Clone, PartialEq)]
pub enum NodeType {
    Element(Element),
    Text(Text),
}

/// A node of the document tree, owning its ordered children.
#[derive(Debug, PartialEq)]
pub struct Node {
    pub node_type: NodeType,
    pub children: Vec<Node>,
}

/// Model of an element: tag name and ordered attribute pairs.
#[verifier::ext_equal]
pub struct ElementV {
    pub tag_name: Seq<char>,
    pub attributes: Seq<(Seq<char>, Seq<char>)>,
}

/// Model of a node kind.
#[verifier::ext_equal]
pub enum NodeTypeV {
    Element(ElementV),
    Text(Seq<char>),
}

/// Model of a node: kind and ordered children.
#[verifier::ext_equal]
pub struct NodeV {
    pub node_type: NodeTypeV,
    pub children: Seq<NodeV>,
}

/// An ordered mapping from attribute keys to values; keys stay unique.
#[derive(Debug, Clone, PartialEq)]
pub struct AttrMap {
    pairs: Vec<(Vec<char>, Vec<char>)>,
}

impl View for AttrMap {
    type V = Seq<(Seq<char>, Seq<char>)>;

    closed spec fn view(&self) -> Seq<(Seq<char>, Seq<char>)> {
        Seq::new(self.pairs@.len(), |i: int| (self.pairs@[i].0@, self.pairs@[i].1@))
    }
}

impl View for Element {
    type V = ElementV;

    open spec fn view(&self) -> ElementV {
        ElementV { tag_name: self.tag_name@, attributes: self.attributes@ }
    }
}

/// Model of a node, taken depth over the whole subtree.
pub open spec fn node_view(n: Node) -> NodeV
    decreases n,
{
    NodeV {
        node_type: match n.node_type {
            NodeType::Element(e) => NodeTypeV::Element(e@),
            NodeType::Text(t) => NodeTypeV::Text(t.data@),
        },
        children: children_view(n.children@),
    }
}

/// Models of a whole child list or stack of nodes, in order.
pub open spec fn children_view(ns: Seq<Node>) -> Seq<NodeV>
    decreases ns,
{
    if ns.len() == 0 {
        Seq::<NodeV>::empty()
    } else {
        seq![node_view(ns[0])] + children_view(ns.drop_first())
    }
}

/// Pointwise reading of `children_view`.
pub proof fn lemma_children_view(ns: Seq<Node>)
    ensures
        children_view(ns).len() == ns.len(),
        forall|i: int| 0 <= i < ns.len() ==> children_view(ns)[i] == node_view(ns[i]),
    decreases ns.len(),
{
    if ns.len() > 0 {
        lemma_children_view(ns.drop_first());
    }
}

/// Appending a node appends its model.
pub proof fn lemma_children_view_push(ns: Seq<Node>, n: Node)
    ensures
        children_view(ns.push(n)) == children_view(ns).push(node_view(n)),
{
    lemma_children_view(ns.push(n));
    lemma_children_view(ns);
    assert(children_view(ns.push(n)) =~= children_view(ns).push(node_view(n)));
}

/// Dropping the last node drops its model.
pub proof fn lemma_children_view_drop_last(ns: Seq<Node>)
    requires
        ns.len() > 0,
    ensures
        children_view(ns.drop_last()) == children_view(ns).drop_last(),
{
    lemma_children_view(ns.drop_last());
    lemma_children_view(ns);
    assert(children_view(ns.drop_last()) =~= children_view(ns).drop_last());
}

/// A well-formed element: non-empty tag name, unique attribute keys.
pub open spec fn element_v_wf(e: ElementV) -> bool {
    e.tag_name.len() > 0 && attr_keys_unique(e.attributes)
}

/// A well-formed node: its element, if any, is well formed, and so is every
/// node below it.
pub open spec fn node_wf(n: NodeV) -> bool
    decreases n, 0int,
{
    &&& match n.node_type {
        NodeTypeV::Element(e) => element_v_wf(e),
        NodeTypeV::Text(_) => true,
    }
    &&& nodes_wf(n.children, 0)
}

/// Well-formedness of the nodes of `cs` from position `i` on.
pub open spec fn nodes_wf(cs: Seq<NodeV>, i: int) -> bool
    decreases cs, cs.len() - i,
{
    i < 0 || i >= cs.len() || (node_wf(cs[i]) && nodes_wf(cs, i + 1))
}

/// Pointwise reading of `nodes_wf`.
pub proof fn lemma_nodes_wf(cs: Seq<NodeV>, i: int)
    requires
        0 <= i <= cs.len(),
    ensures
        nodes_wf(cs, i) <==> (forall|k: int| i <= k < cs.len() ==> node_wf(cs[k])),
    decreases cs.len() - i,
{
    if i < cs.len() {
        lemma_nodes_wf(cs, i + 1);
    }
}

/// No two pairs share a key.
pub open spec fn attr_keys_unique(pairs: Seq<(Seq<char>, Seq<char>)>) -> bool {
    forall|p: int, q: int| 0 <= p < q < pairs.len() ==> pairs[p].0 != pairs[q].0
}

/// Some pair carries key `k`.
pub open spec fn has_key(pairs: Seq<(Seq<char>, Seq<char>)>, k: Seq<char>) -> bool {
    exists|p: int| 0 <= p < pairs.len() && pairs[p].0 == k
}

/// The index of the pair carrying key `k`; meaningful when `has_key` holds
/// and keys are unique.
pub open spec fn index_of_key(pairs: Seq<(Seq<char>, Seq<char>)>, k: Seq<char>) -> int {
    choose|p: int| 0 <= p < pairs.len() && pairs[p].0 == k
}

/// The mapping an ordered pair sequence denotes: each present key maps to the
/// value stored beside it.
pub open spec fn attrs_map(pairs: Seq<(Seq<char>, Seq<char>)>) -> Map<Seq<char>, Seq<char>> {
    Map::new(|k: Seq<char>| has_key(pairs, k), |k: Seq<char>| pairs[index_of_key(pairs, k)].1)
}

/// Stores `(k, v)`: overwrites the value beside the first pair keyed `k`, or
/// appends a new pair when `k` is absent.
pub open spec fn upsert(
    pairs: Seq<(Seq<char>, Seq<char>)>,
    k: Seq<char>,
    v: Seq<char>,
) -> Seq<(Seq<char>, Seq<char>)>
    decreases pairs.len(),
{
    if pairs.len() == 0 {
        seq![(k, v)]
    } else if pairs[0].0 == k {
        seq![(k, v)] + pairs.drop_first()
    } else {
        seq![pairs[0]] + upsert(pairs.drop_first(), k, v)
    }
}

/// A present key's stored value is what `attrs_map` returns for it.
pub proof fn lemma_attrs_map_at(pairs: Seq<(Seq<char>, Seq<char>)>, p: int)
    requires
        attr_keys_unique(pairs),
        0 <= p < pairs.len(),
    ensures
        attrs_map(pairs).dom().contains(pairs[p].0),
        attrs_map(pairs)[pairs[p].0] == pairs[p].1,
{
    assert(has_key(pairs, pairs[p].0));
    let q = index_of_key(pairs, pairs[p].0);
    assert(0 <= q < pairs.len() && pairs[q].0 == pairs[p].0);
    assert(q == p);
}

/// When `k` heads the sequence, `upsert` rewrites the head in place.
pub proof fn lemma_upsert_found(
    pairs: Seq<(Seq<char>, Seq<char>)>,
    k: Seq<char>,
    v: Seq<char>,
    j: int,
)
    requires
        0 <= j < pairs.len(),
        pairs[j].0 == k,
        forall|p: int| 0 <= p < j ==> pairs[p].0 != k,
    ensures
        upsert(pairs, k, v) =~= pairs.update(j, (k, v)),
    decreases pairs.len(),
{
    if j == 0 {
        assert(pairs[0].0 == k);
    } else {
        assert(pairs[0].0 != k);
        lemma_upsert_found(pairs.drop_first(), k, v, j - 1);
        assert(upsert(pairs, k, v) =~= seq![pairs[0]] + pairs.drop_first().update(j - 1, (k, v)));
    }
}

/// When `k` is absent, `upsert` appends the new pair.
pub proof fn lemma_upsert_absent(pairs: Seq<(Seq<char>, Seq<char>)>, k: Seq<char>, v: Seq<char>)
    requires
        !has_key(pairs, k),
    ensures
        upsert(pairs, k, v) =~= pairs.push((k, v)),
    decreases pairs.len(),
{
    if pairs.len() > 0 {
        assert(pairs[0].0 != k);
        assert(!has_key(pairs.drop_first(), k)) by {
            if has_key(pairs.drop_first(), k) {
                let p = choose|p: int|
                    0 <= p < pairs.drop_first().len() && pairs.drop_first()[p].0 == k;
                assert(pairs[p + 1].0 == k);
            }
        }
        lemma_upsert_absent(pairs.drop_first(), k, v);
        assert(upsert(pairs, k, v) =~= seq![pairs[0]] + pairs.drop_first().push((k, v)));
    }
}

/// `upsert` keeps keys unique and acts on the denoted mapping exactly as a
/// mapping insertion: the stored value for `k` becomes `v`, every other key
/// keeps its value.
pub proof fn lemma_upsert(pairs: Seq<(Seq<char>, Seq<char>)>, k: Seq<char>, v: Seq<char>)
    requires
        attr_keys_unique(pairs),
    ensures
        attr_keys_unique(upsert(pairs, k, v)),
        attrs_map(upsert(pairs, k, v)) =~= attrs_map(pairs).insert(k, v),
{
    let u = upsert(pairs, k, v);
    if has_key(pairs, k) {
        let j = index_of_key(pairs, k);
        assert(0 <= j < pairs.len() && pairs[j].0 == k);
        assert(forall|p: int| 0 <= p < j ==> pairs[p].0 != k);
        lemma_upsert_found(pairs, k, v, j);
        assert(attr_keys_unique(u));
        assert forall|k2: Seq<char>| #[trigger] has_key(u, k2) == (k2 == k || has_key(
            pairs,
            k2,
        )) by {
            if has_key(u, k2) {
                let p = index_of_key(u, k2);
                assert(0 <= p < u.len() && u[p].0 == k2);
                if p != j {
                    assert(pairs[p].0 == k2);
                }
            }
            if k2 == k {
                assert(u[j].0 == k2);
                assert(has_key(u, k2));
            } else if has_key(pairs, k2) {
                let p = choose|p: int| 0 <= p < pairs.len() && pairs[p].0 == k2;
                assert(u[p].0 == k2);
                assert(has_key(u, k2));
            }
        }
        assert forall|k2: Seq<char>| attrs_map(u).dom().contains(k2) implies attrs_map(u)[k2]
            == attrs_map(pairs).insert(k, v)[k2] by {
            if k2 == k {
                lemma_attrs_map_at(u, j);
            } else {
                let p = index_of_key(u, k2);
                assert(0 <= p < u.len() && u[p].0 == k2);
                assert(p != j);
                lemma_attrs_map_at(u, p);
                lemma_attrs_map_at(pairs, p);
            }
        }
    } else {
        lemma_upsert_absent(pairs, k, v);
        assert(attr_keys_unique(u)) by {
            assert(forall|p: int| 0 <= p < pairs.len() ==> pairs[p].0 != k);
        }
        assert forall|k2: Seq<char>| #[trigger] has_key(u, k2) == (k2 == k || has_key(
            pairs,
            k2,
        )) by {
            if has_key(u, k2) {
                let p = index_of_key(u, k2);
                assert(0 <= p < u.len() && u[p].0 == k2);
                if p < pairs.len() {
                    assert(pairs[p].0 == k2);
                }
            }
            if k2 == k {
                assert(u[pairs.len() as int].0 == k2);
                assert(has_key(u, k2));
            } else if has_key(pairs, k2) {
                let p = choose|p: int| 0 <= p < pairs.len() && pairs[p].0 == k2;
                assert(u[p].0 == k2);
                assert(has_key(u, k2));
            }
        }
        assert forall|k2: Seq<char>| attrs_map(u).dom().contains(k2) implies attrs_map(u)[k2]
            == attrs_map(pairs).insert(k, v)[k2] by {
            if k2 == k {
                lemma_attrs_map_at(u, pairs.len() as int);
            } else {
                let p = index_of_key(u, k2);
                assert(0 <= p < u.len() && u[p].0 == k2);
                assert(p != pairs.len());
                lemma_attrs_map_at(u, p);
                lemma_attrs_map_at(pairs, p);
            }
        }
    }
}

/// Law: the order in which two attributes with different keys are stored
/// does not affect the denoted key/value mapping.
pub proof fn lemma_attr_order_insensitive(
    pairs: Seq<(Seq<char>, Seq<char>)>,
    k1: Seq<char>,
    v1: Seq<char>,
    k2: Seq<char>,
    v2: Seq<char>,
)
    requires
        attr_keys_unique(pairs),
        k1 != k2,
    ensures
        attrs_map(upsert(upsert(pairs, k1, v1), k2, v2)) == attrs_map(
            upsert(upsert(pairs, k2, v2), k1, v1),
        ),
{
    lemma_upsert(pairs, k1, v1);
    lemma_upsert(upsert(pairs, k1, v1), k2, v2);
    lemma_upsert(pairs, k2, v2);
    lemma_upsert(upsert(pairs, k2, v2), k1, v1);
    assert(attrs_map(pairs).insert(k1, v1).insert(k2, v2) =~= attrs_map(pairs).insert(
        k2,
        v2,
    ).insert(k1, v1));
}

/// Law: storing the same key twice keeps only the later value.
pub proof fn lemma_attr_last_wins(
    pairs: Seq<(Seq<char>, Seq<char>)>,
    k: Seq<char>,
    v1: Seq<char>,
    v2: Seq<char>,
)
    requires
        attr_keys_unique(pairs),
    ensures
        attrs_map(upsert(upsert(pairs, k, v1), k, v2)) == attrs_map(pairs).insert(k, v2),
{
    lemma_upsert(pairs, k, v1);
    lemma_upsert(upsert(pairs, k, v1), k, v2);
    assert(attrs_map(pairs).insert(k, v1).insert(k, v2) =~= attrs_map(pairs).insert(k, v2));
}

impl AttrMap {
    /// Keys are unique; every mapping the parser builds keeps this.
    pub open spec fn wf(&self) -> bool {
        attr_keys_unique(self@)
    }

    /// An empty mapping.
    pub fn new() -> (r: AttrMap)
        ensures
            r@ == Seq::<(Seq<char>, Seq<char>)>::empty(),
            r.wf(),
    {
        let r = AttrMap { pairs: Vec::new() };
        proof {
            assert(r@ =~= Seq::<(Seq<char>, Seq<char>)>::empty());
        }
        r
    }

    /// The number of stored pairs.
    pub fn len(&self) -> (r: usize)
        ensures
            r == self@.len(),
    {
        self.pairs.len()
    }

    /// The pair stored at position `i`, in storage order.
    pub fn pair_at(&self, i: usize) -> (r: &(Vec<char>, Vec<char>))
        requires
            i < self@.len(),
        ensures
            (r.0@, r.1@) == self@[i as int],
    {
        &self.pairs[i]
    }

    /// Stores `value` under `key`; a later store under the same key wins.
    pub fn insert(&mut self, key: Vec<char>, value: Vec<char>)
        ensures
            final(self)@ == upsert(old(self)@, key@, value@),
            old(self).wf() ==> final(self).wf(),
            old(self).wf() ==> attrs_map(final(self)@) == attrs_map(old(self)@).insert(
                key@,
                value@,
            ),
    {
        let ghost old_view = self@;
        let ghost kv = key@;
        let ghost vv = value@;
        let mut j: usize = 0;
        while j < self.pairs.len()
            invariant
                j <= self.pairs@.len(),
                self@ == old_view,
                old_view == old(self)@,
                kv == key@,
                vv == value@,
                forall|p: int| 0 <= p < j ==> old_view[p].0 != kv,
            decreases self.pairs@.len() - j,
        {
            if crate::scan::chars_eq(&self.pairs[j].0, &key) {
                proof {
                    assert(old_view[j as int].0 == kv);
                    lemma_upsert_found(old_view, kv, vv, j as int);
                    if old(self).wf() {
                        lemma_upsert(old_view, kv, vv);
                    }
                }
                let ghost old_pairs = self.pairs@;
                self.pairs.remove(j);
                self.pairs.insert(j, (key, value));
                proof {
                    assert(self.pairs@ =~= old_pairs.update(j as int, self.pairs@[j as int]));
                    assert(self@ =~= old_view.update(j as int, (kv, vv)));
                    assert(self@ == upsert(old_view, kv, vv));
                }
                return ;
            }
            j = j + 1;
        }
        proof {
            assert(!has_key(old_view, kv)) by {
                if has_key(old_view, kv) {
                    let p = choose|p: int| 0 <= p < old_view.len() && old_view[p].0 == kv;
                    assert(old_view[p].0 == kv);
                }
            }
            lemma_upsert_absent(old_view, kv, vv);
            if old(self).wf() {
                lemma_upsert(old_view, kv, vv);
            }
        }
        self.pairs.push((key, value));
        proof {
            assert(self@ =~= old_view.push((kv, vv)));
        }
    }

    /// Looks a key up: returns the stored value exactly when the key is
    /// present.
    pub fn get(&self, key: &Vec<char>) -> (r: Option<&Vec<char>>)
        requires
            self.wf(),
        ensures
            match r {
                Some(v) => attrs_map(self@).dom().contains(key@) && v@ == attrs_map(self@)[key@],
                None => !attrs_map(self@).dom().contains(key@),
            },
    {
        let mut j: usize = 0;
        while j < self.pairs.len()
            invariant
                self.wf(),
                j <= self.pairs@.len(),
                forall|p: int| 0 <= p < j ==> self@[p].0 != key@,
            decreases self.pairs@.len() - j,
        {
            if crate::scan::chars_eq(&self.pairs[j].0, &key) {
                proof {
                    assert(self@[j as int].0 == key@);
                    lemma_attrs_map_at(self@, j as int);
                }
                return Some(&self.pairs[j].1);
            }
            j = j + 1;
        }
        proof {
            if has_key(self@, key@) {
                let p = choose|p: int| 0 <= p < self@.len() && self@[p].0 == key@;
                assert(self@[p].0 == key@);
            }
        }
        None
    }
}

} // verus!
