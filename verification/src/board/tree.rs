//! The device tree as the kernel reads it: nodes with names, properties and
//! children, the lookups the board code makes, and the breadth-first order in which
//! it walks them.
use vstd::prelude::*;

verus! {

/// The value of a property.
pub enum PropertyValue {
    Empty,
    Integer(u64),
    Integers(Vec<u64>),
    PHandle(u32),
    String(String),
    Strings(Vec<String>),
    /// An address and its length.
    Address(u64, u64),
    Addresses(Vec<(u64, u64)>),
    /// Child bus address, parent bus address, length.
    Ranges(Vec<(u128, u64, u64)>),
    Unknown,
}

/// A named property.
pub struct NodeProperty {
    pub name: String,
    pub value: PropertyValue,
}

/// A node: its name (type, then `@` and an index), its properties and children.
pub struct DeviceTreeNode {
    pub name: String,
    pub props: Vec<NodeProperty>,
    pub nodes: Vec<DeviceTreeNode>,
}

/// A device tree.
pub struct DeviceTree {
    pub root: DeviceTreeNode,
}

/// The first node of `nodes` named `name`.
pub closed spec fn first_child(nodes: Seq<DeviceTreeNode>, name: Seq<char>) -> Option<int> {
    if exists|i: int| 0 <= i < nodes.len() && #[trigger] nodes[i].name@ == name {
        Some(choose|i: int| 0 <= i < nodes.len() && nodes[i].name@ == name
            && forall|j: int| 0 <= j < i ==> #[trigger] nodes[j].name@ != name)
    } else {
        None
    }
}

/// The value of the first property of `props` named `name`.
pub closed spec fn first_value(props: Seq<NodeProperty>, name: Seq<char>) -> Option<PropertyValue> {
    if exists|i: int| 0 <= i < props.len() && #[trigger] props[i].name@ == name {
        let i = choose|i: int| 0 <= i < props.len() && props[i].name@ == name
            && forall|j: int| 0 <= j < i ==> #[trigger] props[j].name@ != name;
        Some(props[i].value)
    } else {
        None
    }
}

/// The part of a node name before its first `@`, or the whole name.
pub closed spec fn type_of(name: Seq<char>) -> Seq<char> {
    if exists|i: int| 0 <= i < name.len() && #[trigger] name[i] == '@' {
        let i = choose|i: int| 0 <= i < name.len() && name[i] == '@'
            && forall|j: int| 0 <= j < i ==> #[trigger] name[j] != '@';
        name.subrange(0, i)
    } else {
        name
    }
}

/// The number of nodes in a tree.
pub open spec fn tree_size(n: DeviceTreeNode) -> nat
    decreases n,
{
    1 + forest_size(n.nodes@)
}

/// The number of nodes in a sequence of trees.
pub open spec fn forest_size(s: Seq<DeviceTreeNode>) -> nat
    decreases s,
{
    if s.len() == 0 {
        0
    } else {
        tree_size(s[0]) + forest_size(s.subrange(1, s.len() as int))
    }
}

/// The size of two sequences of trees put together.
pub proof fn lemma_forest_append(a: Seq<DeviceTreeNode>, b: Seq<DeviceTreeNode>)
    ensures
        forest_size(a + b) == forest_size(a) + forest_size(b),
    decreases a.len(),
{
    if a.len() == 0 {
        assert(a + b =~= b);
    } else {
        assert((a + b).subrange(1, (a + b).len() as int) =~= a.subrange(1, a.len() as int) + b);
        lemma_forest_append(a.subrange(1, a.len() as int), b);
    }
}

/// Taking the first tree off a queue and adding its children leaves one node less.
pub proof fn lemma_forest_step(q: Seq<DeviceTreeNode>)
    requires
        q.len() > 0,
    ensures
        forest_size(q.subrange(1, q.len() as int) + q[0].nodes@) + 1 == forest_size(q),
{
    lemma_forest_append(q.subrange(1, q.len() as int), q[0].nodes@);
    assert(forest_size(q) == tree_size(q[0]) + forest_size(q.subrange(1, q.len() as int)));
    assert(tree_size(q[0]) == 1 + forest_size(q[0].nodes@));
}

/// The nodes of the trees in `queue`, breadth first.
pub open spec fn bfs(queue: Seq<DeviceTreeNode>) -> Seq<DeviceTreeNode>
    decreases forest_size(queue),
{
    if queue.len() == 0 {
        Seq::empty()
    } else {
        proof {
            lemma_forest_step(queue);
        }
        seq![queue[0]] + bfs(queue.subrange(1, queue.len() as int) + queue[0].nodes@)
    }
}

/// The nodes of a tree, breadth first from its root.
pub open spec fn nodes_in_order(tree: DeviceTree) -> Seq<DeviceTreeNode> {
    bfs(seq![tree.root])
}

/// `s` holds the same text as `lit`.
pub fn same_text(s: &String, lit: &str) -> (r: bool)
    ensures
        r == (s@ == lit@),
{
    let t = lit.to_owned();
    *s == t
}

/// Whether `text` holds `part` somewhere.
pub fn contains_text(text: &str, part: &str) -> (r: bool)
    ensures
        r == exists|i: int| 0 <= i && i + part@.len() <= text@.len()
            && #[trigger] text@.subrange(i, i + part@.len()) == part@,
{
    let n = text.unicode_len();
    let m = part.unicode_len();
    if m > n {
        return false;
    }
    let mut i: usize = 0;
    while i <= n - m
        invariant
            n == text@.len(),
            m == part@.len(),
            m <= n,
            i <= n - m + 1,
            forall|k: int| 0 <= k < i ==> #[trigger] text@.subrange(k, k + m) != part@,
        decreases n - i,
    {
        let mut j: usize = 0;
        let mut same = true;
        assert(text@.subrange(i as int, i as int) =~= part@.subrange(0, 0));
        while j < m
            invariant
                n == text@.len(),
                m == part@.len(),
                i + m <= n,
                j <= m,
                same == (text@.subrange(i as int, i + j) == part@.subrange(0, j as int)),
            decreases m - j,
        {
            let a = text.get_char(i + j);
            let b = part.get_char(j);
            if same && a != b {
                assert(text@.subrange(i as int, i + j + 1)[j as int] != part@.subrange(0, j + 1)[j as int]);
                same = false;
            } else if same {
                assert(text@.subrange(i as int, i + j + 1) =~= text@.subrange(i as int, i + j).push(a));
                assert(part@.subrange(0, j + 1) =~= part@.subrange(0, j as int).push(b));
            } else {
                assert(text@.subrange(i as int, i + j + 1).subrange(0, j as int) =~= text@.subrange(i as int, i + j));
                assert(part@.subrange(0, j + 1).subrange(0, j as int) =~= part@.subrange(0, j as int));
            }
            j = j + 1;
        }
        assert(part@.subrange(0, m as int) =~= part@);
        if same {
            return true;
        }
        i = i + 1;
    }
    false
}

impl DeviceTreeNode {
    /// The node's name.
    pub fn name(&self) -> (r: &String)
        ensures
            r@ == self.name@,
    {
        &self.name
    }

    /// The children of the node.
    pub fn nodes(&self) -> (r: &Vec<DeviceTreeNode>)
        ensures
            r@ == self.nodes@,
    {
        &self.nodes
    }

    /// The part of the name before its first `@`.
    pub fn type_prefix(&self) -> (r: String)
        ensures
            r@ == type_of(self.name@),
    {
        let text = self.name.as_str();
        let n = text.unicode_len();
        let mut i: usize = 0;
        while i < n
            invariant
                n == text@.len(),
                text@ == self.name@,
                i <= n,
                forall|j: int| 0 <= j < i ==> #[trigger] text@[j] != '@',
            decreases n - i,
        {
            if text.get_char(i) == '@' {
                let r = text.substring_char(0, i).to_owned();
                proof {
                    let k = choose|k: int| 0 <= k < self.name@.len() && self.name@[k] == '@'
                        && forall|j: int| 0 <= j < k ==> #[trigger] self.name@[j] != '@';
                    assert(self.name@[i as int] == '@');
                    assert(k == i) by {
                        if k < i {
                            assert(text@[k] != '@');
                        } else if k > i {
                            assert(self.name@[i as int] != '@');
                        }
                    }
                }
                return r;
            }
            i = i + 1;
        }
        self.name.clone()
    }

    /// The child named `name`, if any (the first of that name).
    pub fn find_child(&self, name: &str) -> (r: Option<&DeviceTreeNode>)
        ensures
            match first_child(self.nodes@, name@) {
                Some(i) => r == Some(&self.nodes@[i]),
                None => r is None,
            },
    {
        let mut i: usize = 0;
        while i < self.nodes.len()
            invariant
                i <= self.nodes@.len(),
                forall|j: int| 0 <= j < i ==> #[trigger] self.nodes@[j].name@ != name@,
            decreases self.nodes@.len() - i,
        {
            if same_text(&self.nodes[i].name, name) {
                proof {
                    let k = choose|k: int| 0 <= k < self.nodes@.len() && self.nodes@[k].name@ == name@
                        && forall|j: int| 0 <= j < k ==> #[trigger] self.nodes@[j].name@ != name@;
                    assert(self.nodes@[i as int].name@ == name@);
                    assert(k == i) by {
                        if k < i {
                            assert(self.nodes@[k].name@ != name@);
                        } else if k > i {
                            assert(self.nodes@[i as int].name@ != name@);
                        }
                    }
                }
                return Some(&self.nodes[i]);
            }
            i = i + 1;
        }
        None
    }

    /// The value of the property named `name`, if any (the first of that name).
    pub fn value(&self, name: &str) -> (r: Option<&PropertyValue>)
        ensures
            match first_value(self.props@, name@) {
                Some(v) => r == Some(&v),
                None => r is None,
            },
    {
        let mut i: usize = 0;
        while i < self.props.len()
            invariant
                i <= self.props@.len(),
                forall|j: int| 0 <= j < i ==> #[trigger] self.props@[j].name@ != name@,
            decreases self.props@.len() - i,
        {
            if same_text(&self.props[i].name, name) {
                proof {
                    let k = choose|k: int| 0 <= k < self.props@.len() && self.props@[k].name@ == name@
                        && forall|j: int| 0 <= j < k ==> #[trigger] self.props@[j].name@ != name@;
                    assert(self.props@[i as int].name@ == name@);
                    assert(k == i) by {
                        if k < i {
                            assert(self.props@[k].name@ != name@);
                        } else if k > i {
                            assert(self.props@[i as int].name@ != name@);
                        }
                    }
                }
                return Some(&self.props[i].value);
            }
            i = i + 1;
        }
        None
    }
}

/// The nodes a sequence of references points to.
pub open spec fn derefs(s: Seq<&DeviceTreeNode>) -> Seq<DeviceTreeNode> {
    s.map_values(|r: &DeviceTreeNode| *r)
}

impl DeviceTree {
    /// The root node.
    pub fn root(&self) -> (r: &DeviceTreeNode)
        ensures
            *r == self.root,
    {
        &self.root
    }

    /// Every node of the tree, breadth first from the root.
    pub fn nodes_in_order(&self) -> (r: Vec<&DeviceTreeNode>)
        ensures
            derefs(r@) == nodes_in_order(*self),
    {
        let mut queue: Vec<&DeviceTreeNode> = Vec::new();
        queue.push(&self.root);
        let mut i: usize = 0;
        assert(derefs(queue@).subrange(0, 1) =~= seq![self.root]);
        assert(derefs(queue@).subrange(0, 0) =~= Seq::<DeviceTreeNode>::empty());
        while i < queue.len()
            invariant
                i <= queue@.len(),
                derefs(queue@).subrange(0, i as int) + bfs(derefs(queue@).subrange(i as int, queue@.len() as int))
                    == nodes_in_order(*self),
            decreases forest_size(derefs(queue@).subrange(i as int, queue@.len() as int)),
        {
            let node = queue[i];
            let ghost before = derefs(queue@);
            let ghost q = before.subrange(i as int, before.len() as int);
            let mut k: usize = 0;
            while k < node.nodes.len()
                invariant
                    k <= node.nodes@.len(),
                    i < before.len(),
                    derefs(queue@) == before + node.nodes@.subrange(0, k as int),
                decreases node.nodes@.len() - k,
            {
                let ghost prev = queue@;
                let child = &node.nodes[k];
                queue.push(child);
                assert(queue@ == prev.push(child));
                assert(derefs(queue@) =~= derefs(prev).push(*child));
                assert(derefs(queue@) =~= before + node.nodes@.subrange(0, k + 1));
                k = k + 1;
            }
            proof {
                let after = derefs(queue@);
                assert(node.nodes@.subrange(0, node.nodes@.len() as int) =~= node.nodes@);
                assert(q[0] == *node);
                assert(after.subrange(i + 1, after.len() as int) =~= q.subrange(1, q.len() as int) + node.nodes@);
                assert(after.subrange(0, i + 1) =~= before.subrange(0, i as int).push(*node));
                assert(bfs(q) == seq![q[0]] + bfs(q.subrange(1, q.len() as int) + q[0].nodes@));
                assert(after.subrange(0, i + 1) + bfs(after.subrange(i + 1, after.len() as int))
                    =~= before.subrange(0, i as int) + bfs(q));
                lemma_forest_step(q);
            }
            i = i + 1;
        }
        proof {
            let d = derefs(queue@);
            assert(d.subrange(i as int, d.len() as int) =~= Seq::<DeviceTreeNode>::empty());
            assert(d.subrange(0, i as int) =~= d);
        }
        queue
    }
}

} // verus!
