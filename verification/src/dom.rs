//! The tree model: a document is a single root `Node`, each node either
//! textual character data or a named element with an attribute map and an
//! ordered sequence of child nodes.

use vstd::prelude::*;

verus! {

/// Mathematical model of an element: a tag name and an attribute map
/// (attribute name to attribute value, keys unique, order insignificant).
#[verifier::ext_equal]
pub struct SpecElementData {
    pub tag_name: Seq<char>,
    pub attributes: Map<Seq<char>, Seq<char>>,
}

/// Mathematical model of a node's payload.
#[verifier::ext_equal]
pub enum SpecNodeType {
    Text(Seq<char>),
    Element(SpecElementData),
}

/// Mathematical model of a node: payload plus ordered children.
#[verifier::ext_equal]
pub struct SpecNode {
    pub node_type: SpecNodeType,
    pub children: Seq<SpecNode>,
}

impl SpecNode {
    /// A text node: character data, no children.
    pub open spec fn text(data: Seq<char>) -> SpecNode {
        SpecNode { node_type: SpecNodeType::Text(data), children: Seq::empty() }
    }

    /// An element node with the given tag, attributes and children.
    pub open spec fn element(
        tag: Seq<char>,
        attributes: Map<Seq<char>, Seq<char>>,
        children: Seq<SpecNode>,
    ) -> SpecNode {
        SpecNode {
            node_type: SpecNodeType::Element(SpecElementData { tag_name: tag, attributes }),
            children,
        }
    }
}

/// The attribute map built from a sequence of (name, value) pairs,
/// later pairs overwriting earlier ones with the same name.
pub open spec fn attr_pairs_map(ps: Seq<(String, String)>) -> Map<Seq<char>, Seq<char>>
    decreases ps.len(),
{
    if ps.len() == 0 {
        Map::empty()
    } else {
        attr_pairs_map(ps.drop_last()).insert(ps.last().0@, ps.last().1@)
    }
}

/// All pairs carry distinct attribute names.
pub open spec fn distinct_keys(ps: Seq<(String, String)>) -> bool {
    forall|i: int, j: int| 0 <= i < j < ps.len() ==> ps[i].0@ != ps[j].0@
}

/// An attribute map: attribute names mapped to attribute values.
/// Keys are unique; insertion order is not significant for the map's value.
#[derive(Debug)]
pub struct AttrMap {
    pairs: Vec<(String, String)>,
}

impl View for AttrMap {
    type V = Map<Seq<char>, Seq<char>>;

    closed spec fn view(&self) -> Map<Seq<char>, Seq<char>> {
        attr_pairs_map(self.pairs@)
    }
}

impl AttrMap {
    #[verifier::type_invariant]
    spec fn inv(self) -> bool {
        distinct_keys(self.pairs@)
    }

    /// The empty attribute map.
    pub fn new() -> (m: AttrMap)
        ensures
            m@ == Map::<Seq<char>, Seq<char>>::empty(),
    {
        let m = AttrMap { pairs: Vec::new() };
        m
    }

    /// Insert an attribute; an existing attribute with the same name is
    /// overwritten (last write wins).
    pub fn insert(&mut self, name: String, value: String)
        ensures
            final(self)@ == old(self)@.insert(name@, value@),
    {
        proof {
            use_type_invariant(&*self);
        }
        let mut idx: usize = 0;
        let mut found: bool = false;
        while !found && idx < self.pairs.len()
            invariant
                idx <= self.pairs.len(),
                *self == *old(self),
                distinct_keys(self.pairs@),
                !found ==> forall|j: int| 0 <= j < idx ==> self.pairs@[j].0@ != name@,
                found ==> idx < self.pairs.len() && self.pairs@[idx as int].0@ == name@,
            decreases self.pairs.len() - idx + (if found { 0int } else { 1int }),
        {
            if self.pairs[idx].0 == name {
                found = true;
            } else {
                idx = idx + 1;
            }
        }
        let ghost old_pairs = self.pairs@;
        let mut out: Vec<(String, String)> = Vec::new();
        let mut i: usize = 0;
        while i < self.pairs.len()
            invariant
                i <= self.pairs.len(),
                *self == *old(self),
                distinct_keys(self.pairs@),
                found ==> idx < self.pairs.len() && self.pairs@[idx as int].0@ == name@,
                !found ==> forall|j: int|
                    0 <= j < self.pairs@.len() ==> self.pairs@[j].0@ != name@,
                !found || i <= idx ==> out@ == self.pairs@.take(i as int),
                found && i > idx ==> out@ == self.pairs@.take(i as int).remove(idx as int),
            decreases self.pairs.len() - i,
        {
            if !(found && i == idx) {
                out.push((self.pairs[i].0.clone(), self.pairs[i].1.clone()));
                proof {
                    assert(out@.last() == self.pairs@[i as int]);
                    if !found || i < idx {
                        assert(out@ =~= self.pairs@.take(i + 1));
                    } else {
                        assert(out@ =~= self.pairs@.take(i + 1).remove(idx as int));
                    }
                }
            } else {
                proof {
                    assert(self.pairs@.take(i + 1).remove(idx as int) =~= self.pairs@.take(
                        i as int,
                    ));
                }
            }
            i = i + 1;
        }
        proof {
            assert(self.pairs@.take(self.pairs@.len() as int) =~= self.pairs@);
        }
        let ghost kept = out@;
        out.push((name, value));
        proof {
            assert(out@.drop_last() =~= kept);
            assert(out@.last() == (name, value));
            if found {
                assert(kept == old_pairs.remove(idx as int));
                lemma_attr_pairs_map_remove(old_pairs, idx as int);
                assert(forall|j: int| 0 <= j < kept.len() ==> kept[j].0@ != name@) by {
                    assert(forall|j: int| 0 <= j < idx ==> kept[j] == old_pairs[j]);
                    assert(forall|j: int| idx <= j < kept.len() ==> kept[j] == old_pairs[j + 1]);
                    assert(forall|j: int|
                        0 <= j < old_pairs.len() && j != idx ==> old_pairs[j].0@ != name@);
                }
                assert(distinct_keys(kept)) by {
                    assert(forall|j: int| 0 <= j < idx ==> kept[j] == old_pairs[j]);
                    assert(forall|j: int| idx <= j < kept.len() ==> kept[j] == old_pairs[j + 1]);
                }
                assert(attr_pairs_map(out@) =~= attr_pairs_map(old_pairs).insert(name@, value@));
            } else {
                assert(attr_pairs_map(out@) =~= attr_pairs_map(old_pairs).insert(name@, value@));
            }
            assert(distinct_keys(out@)) by {
                assert(forall|j: int| 0 <= j < kept.len() ==> out@[j] == kept[j]);
                assert(out@[out@.len() - 1] == (name, value));
            }
        }
        *self = AttrMap { pairs: out };
    }

    /// Look an attribute up by name.
    pub fn get<'a>(&'a self, name: &String) -> (r: Option<&'a String>)
        ensures
            match r {
                Some(v) => self@.contains_key(name@) && v@ == self@[name@],
                None => !self@.contains_key(name@),
            },
    {
        proof {
            assert(self.pairs@.take(self.pairs@.len() as int) =~= self.pairs@);
        }
        let mut j = self.pairs.len();
        loop
            invariant
                j <= self.pairs.len(),
                self@.contains_key(name@) == attr_pairs_map(self.pairs@.take(j as int)).contains_key(
                    name@,
                ),
                self@.contains_key(name@) ==> self@[name@] == attr_pairs_map(
                    self.pairs@.take(j as int),
                )[name@],
            decreases j,
        {
            if j == 0 {
                proof {
                    assert(self.pairs@.take(0) =~= Seq::<(String, String)>::empty());
                }
                return None;
            }
            j = j - 1;
            proof {
                assert(self.pairs@.take(j + 1).drop_last() =~= self.pairs@.take(j as int));
                assert(self.pairs@.take(j + 1).last() == self.pairs@[j as int]);
            }
            if self.pairs[j].0 == *name {
                return Some(&self.pairs[j].1);
            }
        }
    }

    /// The number of attributes in the map.
    pub fn len(&self) -> (n: usize)
        ensures
            n == self@.dom().len(),
    {
        proof {
            use_type_invariant(self);
            lemma_attr_pairs_map_dom_len(self.pairs@);
        }
        self.pairs.len()
    }
}

/// No pair of `ps` carries the name `k` if and only if `k` is not a key of
/// the map the pairs build.
proof fn lemma_attr_pairs_map_contains(ps: Seq<(String, String)>, k: Seq<char>)
    ensures
        attr_pairs_map(ps).contains_key(k) <==> exists|i: int| 0 <= i < ps.len() && ps[i].0@ == k,
    decreases ps.len(),
{
    if ps.len() > 0 {
        lemma_attr_pairs_map_contains(ps.drop_last(), k);
        if attr_pairs_map(ps).contains_key(k) {
            if ps.last().0@ == k {
                assert(ps[ps.len() - 1].0@ == k);
            } else {
                let i = choose|i: int| 0 <= i < ps.drop_last().len() && ps.drop_last()[i].0@ == k;
                assert(ps[i].0@ == k);
            }
        }
        if exists|i: int| 0 <= i < ps.len() && ps[i].0@ == k {
            let i = choose|i: int| 0 <= i < ps.len() && ps[i].0@ == k;
            if i < ps.len() - 1 {
                assert(ps.drop_last()[i].0@ == k);
            }
        }
    }
}

/// With distinct keys, the map built from the pairs has exactly one key per pair.
proof fn lemma_attr_pairs_map_dom_len(ps: Seq<(String, String)>)
    requires
        distinct_keys(ps),
    ensures
        attr_pairs_map(ps).dom().finite(),
        attr_pairs_map(ps).dom().len() == ps.len(),
    decreases ps.len(),
{
    if ps.len() == 0 {
        assert(attr_pairs_map(ps).dom() =~= Set::<Seq<char>>::empty());
    } else {
        let prefix = ps.drop_last();
        assert(distinct_keys(prefix)) by {
            assert(forall|i: int, j: int|
                0 <= i < j < prefix.len() ==> prefix[i] == ps[i] && prefix[j] == ps[j]);
        }
        lemma_attr_pairs_map_dom_len(prefix);
        lemma_attr_pairs_map_contains(prefix, ps.last().0@);
        assert(!attr_pairs_map(prefix).contains_key(ps.last().0@)) by {
            assert(forall|i: int| 0 <= i < prefix.len() ==> ps[i].0@ != ps.last().0@);
            assert(forall|i: int| 0 <= i < prefix.len() ==> prefix[i] == ps[i]);
        }
        assert(attr_pairs_map(ps).dom() =~= attr_pairs_map(prefix).dom().insert(ps.last().0@));
    }
}

/// Removing the pair at `idx` removes its key from the map the pairs build,
/// provided the keys are distinct.
proof fn lemma_attr_pairs_map_remove(ps: Seq<(String, String)>, idx: int)
    requires
        distinct_keys(ps),
        0 <= idx < ps.len(),
    ensures
        attr_pairs_map(ps.remove(idx)) =~= attr_pairs_map(ps).remove(ps[idx].0@),
    decreases ps.len(),
{
    let k = ps[idx].0@;
    if idx == ps.len() - 1 {
        assert(ps.remove(idx) =~= ps.drop_last());
        lemma_attr_pairs_map_contains(ps.drop_last(), k);
        assert(!attr_pairs_map(ps.drop_last()).contains_key(k)) by {
            assert(forall|i: int|
                0 <= i < ps.drop_last().len() ==> ps.drop_last()[i] == ps[i] && ps[i].0@ != k);
        }
        assert(attr_pairs_map(ps.drop_last()) =~= attr_pairs_map(ps).remove(k));
    } else {
        let prefix = ps.drop_last();
        assert(distinct_keys(prefix)) by {
            assert(forall|i: int, j: int|
                0 <= i < j < prefix.len() ==> prefix[i] == ps[i] && prefix[j] == ps[j]);
        }
        lemma_attr_pairs_map_remove(prefix, idx);
        assert(ps.remove(idx).drop_last() =~= prefix.remove(idx));
        assert(ps.remove(idx).last() == ps.last());
        assert(prefix[idx] == ps[idx]);
        assert(k != ps.last().0@);
        assert(attr_pairs_map(prefix).remove(k).insert(ps.last().0@, ps.last().1@)
            =~= attr_pairs_map(prefix).insert(ps.last().0@, ps.last().1@).remove(k));
    }
}

/// Attribute order does not affect the map: inserting two attributes with
/// different names yields the same attribute map in either order.
pub proof fn lemma_attr_insert_order(
    m: Map<Seq<char>, Seq<char>>,
    k1: Seq<char>,
    v1: Seq<char>,
    k2: Seq<char>,
    v2: Seq<char>,
)
    requires
        k1 != k2,
    ensures
        m.insert(k1, v1).insert(k2, v2) == m.insert(k2, v2).insert(k1, v1),
{
    assert(m.insert(k1, v1).insert(k2, v2) =~= m.insert(k2, v2).insert(k1, v1));
}

/// An element's payload: its tag name and its attributes.
#[derive(Debug)]
pub struct ElementData {
    pub tag_name: String,
    pub attributes: AttrMap,
}

/// A node's payload: character data, or an element.
#[derive(Debug)]
pub enum NodeType {
    Text(String),
    Element(ElementData),
}

/// One node of the document tree, owning its ordered children.
#[derive(Debug)]
pub struct Node {
    pub node_type: NodeType,
    pub children: Vec<Node>,
}

/// The mathematical value of a node: payloads become sequences and maps,
/// children become a sequence of node models, in document order.
pub open spec fn node_view(n: Node) -> SpecNode
    decreases n, 1int,
{
    proof {
        assert(decreases_to!(n => n.children));
        assert(decreases_to!(n.children => n.children@));
    }
    SpecNode {
        node_type: match n.node_type {
            NodeType::Text(s) => SpecNodeType::Text(s@),
            NodeType::Element(ed) => SpecNodeType::Element(
                SpecElementData { tag_name: ed.tag_name@, attributes: ed.attributes@ },
            ),
        },
        children: seq_nodes_view(n.children@),
    }
}

/// The mathematical value of each node of a sequence, in order
/// (the recursive form; `nodes_view` is the direct one).
pub open spec fn seq_nodes_view(ns: Seq<Node>) -> Seq<SpecNode>
    decreases ns, 0int,
{
    if ns.len() == 0 {
        Seq::empty()
    } else {
        seq![node_view(ns[0])] + seq_nodes_view(ns.drop_first())
    }
}

/// The mathematical value of a node sequence, in order.
pub open spec fn nodes_view(ns: Seq<Node>) -> Seq<SpecNode> {
    Seq::new(ns.len(), |i: int| node_view(ns[i]))
}

/// The recursive and the direct form of a node sequence's value agree.
pub proof fn lemma_seq_nodes_view(ns: Seq<Node>)
    ensures
        seq_nodes_view(ns) == nodes_view(ns),
    decreases ns.len(),
{
    if ns.len() == 0 {
        assert(seq_nodes_view(ns) =~= nodes_view(ns));
    } else {
        lemma_seq_nodes_view(ns.drop_first());
        assert(seq_nodes_view(ns) =~= nodes_view(ns));
    }
}

impl View for Node {
    type V = SpecNode;

    open spec fn view(&self) -> SpecNode {
        node_view(*self)
    }
}

/// Wrap character data as a text node with no children.
pub fn text(data: String) -> (n: Node)
    ensures
        n@ == SpecNode::text(data@),
{
    let n = Node { children: Vec::new(), node_type: NodeType::Text(data) };
    proof {
        assert(n@.children =~= Seq::<SpecNode>::empty());
        assert(n@ =~= SpecNode::text(data@));
    }
    n
}

/// Wrap a tag name, an attribute map and a child sequence as an element node.
pub fn elem(name: String, attrs: AttrMap, children: Vec<Node>) -> (n: Node)
    ensures
        n@ == SpecNode::element(name@, attrs@, nodes_view(children@)),
{
    let ghost cs = children@;
    let n = Node {
        children,
        node_type: NodeType::Element(ElementData { tag_name: name, attributes: attrs }),
    };
    proof {
        lemma_seq_nodes_view(cs);
        assert(n@.children =~= nodes_view(cs));
        assert(n@ =~= SpecNode::element(name@, attrs@, nodes_view(cs)));
    }
    n
}

} // verus!
