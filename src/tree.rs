use vstd::laws_cmp::obeys_partial_cmp_spec_properties;
use vstd::prelude::*;
use vstd::seq_lib::{to_multiset_contains, to_multiset_update};
use vstd::std_specs::cmp::PartialOrdSpec;

verus! {

/// One node of the arena.
struct Node<T, U> {
    id: String,
    data: Option<T>,
    decision: Option<U>,
    children: Vec<usize>,
    latest_parent: Option<usize>,
    latest_child: Option<usize>,
}

/// A decision tree: an arena of nodes addressed by index.
///
/// Index 0 is the root, with the reserved id `"root"` and no decision; it
/// has no payload unless one is written to it.
/// A parent always has a smaller index than its children, so the parent
/// links can never form a cycle.
pub struct DT<T, U> {
    nodes: Vec<Node<T, U>>,
}

impl<T, U> DT<T, U> {
    /// Number of nodes in the tree, the root included.
    pub closed spec fn size(&self) -> nat {
        self.nodes@.len()
    }

    /// Whether `n` names a node of this tree.
    pub open spec fn valid(&self, n: int) -> bool {
        0 <= n < self.size()
    }

    /// The id of `n`.
    pub closed spec fn id_of(&self, n: int) -> Seq<char> {
        self.nodes@[n].id@
    }

    /// The payload of `n`.
    pub closed spec fn data_of(&self, n: int) -> Option<T> {
        self.nodes@[n].data
    }

    /// The decision value of `n`, tested when a traversal considers `n`.
    pub closed spec fn decision_of(&self, n: int) -> Option<U> {
        self.nodes@[n].decision
    }

    /// The children of `n`, in traversal priority order.
    pub closed spec fn children_of(&self, n: int) -> Seq<usize> {
        self.nodes@[n].children@
    }

    /// The parent of `n`; `None` for the root only.
    pub closed spec fn parent_of(&self, n: int) -> Option<usize> {
        self.nodes@[n].latest_parent
    }

    /// The child most recently appended to `n`.
    pub closed spec fn latest_child_of(&self, n: int) -> Option<usize> {
        self.nodes@[n].latest_child
    }

    /// Whether some node of the tree has the id `id`.
    pub open spec fn has_id(&self, id: Seq<char>) -> bool {
        exists|i: int| self.valid(i) && #[trigger] self.id_of(i) == id
    }

    /// Node `i` reads the same in `self` and in `other`.
    pub open spec fn same_node(&self, other: &Self, i: int) -> bool {
        &&& self.id_of(i) == other.id_of(i)
        &&& self.data_of(i) == other.data_of(i)
        &&& self.decision_of(i) == other.decision_of(i)
        &&& self.children_of(i) == other.children_of(i)
        &&& self.parent_of(i) == other.parent_of(i)
        &&& self.latest_child_of(i) == other.latest_child_of(i)
    }

    /// The structural invariant of the tree: the root is node 0; every
    /// other node has a decision and a parent of smaller index that lists
    /// it among its children; children lists hold no repeats and name their
    /// parent back; the latest-child cache points into the children list;
    /// ids are unique.
    pub closed spec fn wf(&self) -> bool {
        &&& 1 <= self.nodes@.len() <= usize::MAX
        &&& self.id_of(0) == "root"@
        &&& self.parent_of(0) is None
        &&& self.decision_of(0) is None
        &&& forall|i: int|
            #![trigger self.parent_of(i)]
            0 < i < self.size() ==> {
                &&& self.parent_of(i) is Some
                &&& self.parent_of(i)->0 < i
                &&& self.children_of(self.parent_of(i)->0 as int).contains(i as usize)
                &&& self.decision_of(i) is Some
            }
        &&& forall|i: int, k: int|
            #![trigger self.children_of(i)[k]]
            self.valid(i) && 0 <= k < self.children_of(i).len() ==> {
                &&& i < self.children_of(i)[k] < self.size()
                &&& self.parent_of(self.children_of(i)[k] as int) == Some(i as usize)
            }
        &&& forall|i: int|
            #![trigger self.children_of(i)]
            self.valid(i) ==> self.children_of(i).no_duplicates()
        &&& forall|i: int|
            #![trigger self.latest_child_of(i)]
            self.valid(i) ==> {
                &&& (self.latest_child_of(i) is None <==> self.children_of(i).len() == 0)
                &&& (self.latest_child_of(i) matches Some(c) ==> self.children_of(i).contains(c))
            }
        &&& forall|i: int, j: int|
            self.valid(i) && self.valid(j) && i != j ==> #[trigger] self.id_of(i)
                != #[trigger] self.id_of(j)
    }

    /// The node reached from `n` by `steps` parent hops, if every hop exists.
    pub open spec fn back_spec(&self, n: int, steps: nat) -> Option<usize>
        decreases steps,
    {
        if steps == 0 {
            Some(n as usize)
        } else {
            match self.parent_of(n) {
                Some(p) => self.back_spec(p as int, (steps - 1) as nat),
                None => None,
            }
        }
    }

    /// The first (or, with `last`, the last) child of `n`.
    pub open spec fn edge_child(&self, n: int, last: bool) -> Option<usize> {
        if self.children_of(n).len() == 0 {
            None
        } else if last {
            Some(self.children_of(n).last())
        } else {
            Some(self.children_of(n)[0])
        }
    }

    /// The node reached from `n` by `steps` hops down, each to the first
    /// (or, with `last`, the last) child, if every hop exists.
    pub open spec fn forward_spec(&self, n: int, steps: nat, last: bool) -> Option<usize>
        decreases steps,
    {
        if steps == 0 {
            Some(n as usize)
        } else {
            match self.forward_spec(n, (steps - 1) as nat, last) {
                Some(m) => self.edge_child(m as int, last),
                None => None,
            }
        }
    }

    /// Every child of a node is a node of the tree, below its parent, and
    /// carries a decision.
    pub proof fn lemma_child_valid(&self, n: int, k: int)
        requires
            self.wf(),
            self.valid(n),
            0 <= k < self.children_of(n).len(),
        ensures
            self.valid(self.children_of(n)[k] as int),
            n < self.children_of(n)[k],
            self.parent_of(self.children_of(n)[k] as int) == Some(n as usize),
            self.decision_of(self.children_of(n)[k] as int) is Some,
    {
        let c = self.children_of(n)[k] as int;
        assert(0 < c < self.size());
        assert(self.parent_of(c) is Some);
    }

    /// `self` is `other` with one new node, of id `id`, appended below `at`.
    /// The new node gets the next free index, `other.size()`.
    pub open spec fn appended(&self, other: &Self, at: usize, id: Seq<char>, data: T, decision: U) -> bool {
        let c = other.size() as int;
        &&& self.size() == other.size() + 1
        &&& self.id_of(c) == id
        &&& self.data_of(c) == Some(data)
        &&& self.decision_of(c) == Some(decision)
        &&& self.children_of(c).len() == 0
        &&& self.parent_of(c) == Some(at)
        &&& self.latest_child_of(c) is None
        &&& self.children_of(at as int) == other.children_of(at as int).push(c as usize)
        &&& self.latest_child_of(at as int) == Some(c as usize)
        &&& self.id_of(at as int) == other.id_of(at as int)
        &&& self.data_of(at as int) == other.data_of(at as int)
        &&& self.decision_of(at as int) == other.decision_of(at as int)
        &&& self.parent_of(at as int) == other.parent_of(at as int)
        &&& forall|i: int| other.valid(i) && i != at ==> #[trigger] self.same_node(other, i)
    }

    /// Creates a tree that holds only its root, with id `"root"`.
    pub fn init() -> (r: Self)
        ensures
            r.wf(),
            r.size() == 1,
            r.id_of(0) == "root"@,
            r.data_of(0) is None,
            r.decision_of(0) is None,
            r.parent_of(0) is None,
            r.children_of(0).len() == 0,
            r.latest_child_of(0) is None,
    {
        let root = Node {
            id: String::from_str("root"),
            data: None,
            decision: None,
            children: Vec::new(),
            latest_parent: None,
            latest_child: None,
        };
        let mut nodes: Vec<Node<T, U>> = Vec::new();
        nodes.push(root);
        proof {
            reveal_strlit("root");
        }
        DT { nodes }
    }

    /// Whether a node of the tree has the id `id`.
    pub fn contains(&self, id: &str) -> (r: bool)
        requires
            self.wf(),
        ensures
            r == self.has_id(id@),
    {
        self.find(id).is_some()
    }

    /// The node with the id `id`, if there is one.
    pub fn find(&self, id: &str) -> (r: Option<usize>)
        requires
            self.wf(),
        ensures
            r is None <==> !self.has_id(id@),
            r matches Some(n) ==> self.valid(n as int) && self.id_of(n as int) == id@,
    {
        let key = id.to_owned();
        let mut i: usize = 0;
        while i < self.nodes.len()
            invariant
                0 <= i <= self.nodes@.len(),
                key@ == id@,
                forall|j: int| 0 <= j < i ==> self.id_of(j) != id@,
            decreases self.nodes@.len() - i,
        {
            if self.nodes[i].id == key {
                assert(self.id_of(i as int) == id@);
                return Some(i);
            }
            i = i + 1;
        }
        None
    }

    /// Appends a new child below `at` and returns `at`, so that further
    /// children can be appended to the same parent.
    pub fn append(&mut self, at: usize, id: &str, data: T, decision: U) -> (r: usize)
        requires
            old(self).wf(),
            old(self).valid(at as int),
            !old(self).has_id(id@),
            old(self).size() < usize::MAX,
        ensures
            r == at,
            final(self).wf(),
            final(self).appended(old(self), at, id@, data, decision),
    {
        let c = self.nodes.len();
        let child = Node {
            id: id.to_owned(),
            data: Some(data),
            decision: Some(decision),
            children: Vec::new(),
            latest_parent: Some(at),
            latest_child: None,
        };
        self.nodes.push(child);
        self.nodes[at].children.push(c);
        self.nodes[at].latest_child = Some(c);
        proof {
            let o = old(self);
            let ci = c as int;
            assert(forall|i: int| 0 <= i < o.size() ==> #[trigger] self.id_of(i) == o.id_of(i));
            assert(forall|i: int|
                0 <= i < o.size() && i != at ==> #[trigger] self.children_of(i) == o.children_of(i));
            assert(forall|i: int| 0 <= i < o.size() ==> #[trigger] self.parent_of(i) == o.parent_of(i));
            assert(forall|i: int|
                0 <= i < o.size() ==> #[trigger] self.decision_of(i) == o.decision_of(i));
            assert(self.children_of(at as int).last() == c);
            assert forall|i: int|
                #![trigger self.parent_of(i)]
                0 < i < self.size() implies {
                    &&& self.parent_of(i) is Some
                    &&& self.parent_of(i)->0 < i
                    &&& self.children_of(self.parent_of(i)->0 as int).contains(i as usize)
                    &&& self.decision_of(i) is Some
                } by {
                if i < ci {
                    let p = o.parent_of(i)->0 as int;
                    if p == at {
                        let k = choose|k: int|
                            0 <= k < o.children_of(p).len() && o.children_of(p)[k] == i as usize;
                        assert(self.children_of(p)[k] == i as usize);
                    }
                } else {
                    assert(self.children_of(at as int)[self.children_of(at as int).len() - 1]
                        == i as usize);
                }
            }
            assert forall|i: int, k: int|
                #![trigger self.children_of(i)[k]]
                self.valid(i) && 0 <= k < self.children_of(i).len() implies {
                    &&& i < self.children_of(i)[k] < self.size()
                    &&& self.parent_of(self.children_of(i)[k] as int) == Some(i as usize)
                } by {
                if i != at && i < ci {
                    assert(o.children_of(i)[k] == self.children_of(i)[k]);
                } else if i == at && k < o.children_of(i).len() {
                    assert(o.children_of(i)[k] == self.children_of(i)[k]);
                }
            }
            assert forall|i: int| #![trigger self.children_of(i)]
                self.valid(i) implies self.children_of(i).no_duplicates() by {
                if i == at {
                    let s = self.children_of(i);
                    assert forall|a: int, b: int|
                        0 <= a < s.len() && 0 <= b < s.len() && a != b implies s[a] != s[b] by {
                        if a < s.len() - 1 && b < s.len() - 1 {
                            assert(o.children_of(i)[a] == s[a]);
                            assert(o.children_of(i)[b] == s[b]);
                        } else if a < s.len() - 1 {
                            assert(o.children_of(i)[a] == s[a]);
                        } else if b < s.len() - 1 {
                            assert(o.children_of(i)[b] == s[b]);
                        }
                    }
                }
            }
            assert forall|i: int, j: int|
                self.valid(i) && self.valid(j) && i != j implies #[trigger] self.id_of(i)
                    != #[trigger] self.id_of(j) by {
                if i == ci {
                    assert(!(o.valid(j) && o.id_of(j) == id@));
                } else if j == ci {
                    assert(!(o.valid(i) && o.id_of(i) == id@));
                }
            }
            assert forall|i: int| #![trigger self.latest_child_of(i)]
                self.valid(i) implies {
                    &&& (self.latest_child_of(i) is None <==> self.children_of(i).len() == 0)
                    &&& (self.latest_child_of(i) matches Some(c) ==> self.children_of(i).contains(c))
                } by {
                if i != at && i < ci {
                    assert(self.latest_child_of(i) == o.latest_child_of(i));
                    if o.latest_child_of(i) is Some {
                        assert(o.children_of(i).contains(o.latest_child_of(i)->0));
                    }
                }
            }
            assert(forall|i: int|
                o.valid(i) && i != at ==> #[trigger] self.same_node(o, i));
        }
        at
    }

    /// Number of nodes in the tree, the root included.
    pub fn tree_len(&self) -> (r: usize)
        ensures
            r == self.size(),
    {
        self.nodes.len()
    }

    /// Number of children of `n`.
    pub fn len(&self, n: usize) -> (r: usize)
        requires
            self.valid(n as int),
        ensures
            r == self.children_of(n as int).len(),
    {
        self.nodes[n].children.len()
    }

    /// The payload of `n`, borrowed.
    pub fn read(&self, n: usize) -> (r: &Option<T>)
        requires
            self.valid(n as int),
        ensures
            *r == self.data_of(n as int),
    {
        &self.nodes[n].data
    }

    /// Replaces the payload of `n`.
    pub fn write(&mut self, n: usize, data: T)
        requires
            old(self).wf(),
            old(self).valid(n as int),
        ensures
            final(self).wf(),
            final(self).size() == old(self).size(),
            final(self).data_of(n as int) == Some(data),
            final(self).id_of(n as int) == old(self).id_of(n as int),
            final(self).decision_of(n as int) == old(self).decision_of(n as int),
            final(self).children_of(n as int) == old(self).children_of(n as int),
            final(self).parent_of(n as int) == old(self).parent_of(n as int),
            final(self).latest_child_of(n as int) == old(self).latest_child_of(n as int),
            forall|i: int|
                old(self).valid(i) && i != n ==> #[trigger] final(self).same_node(old(self), i),
    {
        self.nodes[n].data = Some(data);
        proof {
            let o = old(self);
            assert(forall|i: int| 0 <= i < o.size() ==> #[trigger] self.id_of(i) == o.id_of(i));
            assert(forall|i: int|
                0 <= i < o.size() ==> #[trigger] self.children_of(i) == o.children_of(i));
            assert(forall|i: int| 0 <= i < o.size() ==> #[trigger] self.parent_of(i) == o.parent_of(i));
            assert(forall|i: int|
                0 <= i < o.size() ==> #[trigger] self.decision_of(i) == o.decision_of(i));
            assert(forall|i: int|
                0 <= i < o.size() ==> #[trigger] self.latest_child_of(i) == o.latest_child_of(i));
            assert(forall|i: int| 0 <= i < o.size() && i != n ==> #[trigger] self.data_of(i) == o.data_of(i));
        }
    }

    /// The parent of `n`; `None` for the root.
    pub fn latest_parent(&self, n: usize) -> (r: Option<usize>)
        requires
            self.valid(n as int),
        ensures
            r == self.parent_of(n as int),
    {
        self.nodes[n].latest_parent
    }

    /// The child most recently appended to `n`.
    pub fn latest_child(&self, n: usize) -> (r: Option<usize>)
        requires
            self.valid(n as int),
        ensures
            r == self.latest_child_of(n as int),
    {
        self.nodes[n].latest_child
    }

    /// The child of `n` at position `index`, if there is one.
    pub fn child_index(&self, n: usize, index: usize) -> (r: Option<usize>)
        requires
            self.valid(n as int),
        ensures
            index < self.children_of(n as int).len() ==> r == Some(
                self.children_of(n as int)[index as int],
            ),
            index >= self.children_of(n as int).len() ==> r is None,
    {
        if index < self.nodes[n].children.len() {
            Some(self.nodes[n].children[index])
        } else {
            None
        }
    }

    /// The first child of `n`.
    pub fn first(&self, n: usize) -> (r: Option<usize>)
        requires
            self.valid(n as int),
        ensures
            r == self.edge_child(n as int, false),
    {
        self.child_index(n, 0)
    }

    /// The last child of `n`.
    pub fn last(&self, n: usize) -> (r: Option<usize>)
        requires
            self.valid(n as int),
        ensures
            r == self.edge_child(n as int, true),
    {
        let len = self.len(n);
        if len == 0 {
            None
        } else {
            self.child_index(n, len - 1)
        }
    }

    /// The root of the tree, found through its reserved id.
    pub fn root(&self) -> (r: Option<usize>)
        requires
            self.wf(),
        ensures
            r == Some(0usize),
    {
        proof {
            reveal_strlit("root");
            assert(self.id_of(0) == "root"@);
        }
        let r = self.find("root");
        proof {
            if let Some(k) = r {
                assert(k == 0) by {
                    if k != 0 {
                        assert(self.id_of(k as int) != self.id_of(0));
                    }
                }
            }
        }
        r
    }

    /// The node `steps` parent hops above `n`; `None` when the root is
    /// passed before all the hops are made.
    pub fn back(&self, n: usize, steps: usize) -> (r: Option<usize>)
        requires
            self.wf(),
            self.valid(n as int),
        ensures
            r == self.back_spec(n as int, steps as nat),
            r matches Some(m) ==> self.valid(m as int),
    {
        let mut cur = n;
        let mut left = steps;
        while left > 0
            invariant
                self.wf(),
                self.valid(cur as int),
                self.back_spec(n as int, steps as nat) == self.back_spec(cur as int, left as nat),
            decreases left,
        {
            match self.latest_parent(cur) {
                Some(p) => {
                    cur = p;
                    left = left - 1;
                },
                None => {
                    return None;
                },
            }
        }
        Some(cur)
    }

    /// Once a walk down has fallen off the tree, longer walks do too.
    proof fn lemma_forward_none(&self, n: int, a: nat, b: nat, last: bool)
        requires
            a <= b,
            self.forward_spec(n, a, last) is None,
        ensures
            self.forward_spec(n, b, last) is None,
        decreases b - a,
    {
        if a < b {
            self.lemma_forward_none(n, a, (b - 1) as nat, last);
        }
    }

    fn forward(&self, n: usize, steps: usize, last: bool) -> (r: Option<usize>)
        requires
            self.wf(),
            self.valid(n as int),
        ensures
            r == self.forward_spec(n as int, steps as nat, last),
            r matches Some(m) ==> self.valid(m as int),
    {
        let mut cur = n;
        let mut i: usize = 0;
        while i < steps
            invariant
                self.wf(),
                self.valid(cur as int),
                i <= steps,
                self.forward_spec(n as int, i as nat, last) == Some(cur),
            decreases steps - i,
        {
            let next = if last {
                self.last(cur)
            } else {
                self.first(cur)
            };
            match next {
                Some(c) => {
                    proof {
                        let k = if last { self.children_of(cur as int).len() - 1 } else { 0 };
                        assert(self.children_of(cur as int)[k] == c);
                    }
                    cur = c;
                    i = i + 1;
                },
                None => {
                    proof {
                        self.lemma_forward_none(n as int, (i + 1) as nat, steps as nat, last);
                    }
                    return None;
                },
            }
        }
        Some(cur)
    }

    /// The node reached from `n` by `steps` hops, each to the first child.
    pub fn forward_first(&self, n: usize, steps: usize) -> (r: Option<usize>)
        requires
            self.wf(),
            self.valid(n as int),
        ensures
            r == self.forward_spec(n as int, steps as nat, false),
            r matches Some(m) ==> self.valid(m as int),
    {
        self.forward(n, steps, false)
    }

    /// The node reached from `n` by `steps` hops, each to the last child.
    pub fn forward_last(&self, n: usize, steps: usize) -> (r: Option<usize>)
        requires
            self.wf(),
            self.valid(n as int),
        ensures
            r == self.forward_spec(n as int, steps as nat, true),
            r matches Some(m) ==> self.valid(m as int),
    {
        self.forward(n, steps, true)
    }

    /// Whether `n` has at least one child.
    pub fn has_children(&self, n: usize) -> (r: bool)
        requires
            self.valid(n as int),
        ensures
            r == (self.children_of(n as int).len() > 0),
    {
        self.len(n) > 0
    }

    /// Whether `n` has a parent.
    pub fn has_parent(&self, n: usize) -> (r: bool)
        requires
            self.valid(n as int),
        ensures
            r == self.parent_of(n as int) is Some,
    {
        self.latest_parent(n).is_some()
    }

    /// Whether `n` is the root, the one node without a parent.
    pub fn is_root(&self, n: usize) -> (r: bool)
        requires
            self.wf(),
            self.valid(n as int),
        ensures
            r == self.parent_of(n as int) is None,
            r <==> n == 0,
    {
        self.latest_parent(n).is_none()
    }
}


impl<T, U> DT<T, U> {
    /// Parent and child links agree: the parent of every node lists that
    /// node among its children, and every child of a node names that node
    /// as its parent.
    pub proof fn lemma_parent_child_consistent(&self)
        requires
            self.wf(),
        ensures
            forall|c: int|
                #![trigger self.parent_of(c)]
                self.valid(c) && self.parent_of(c) is Some ==> {
                    &&& self.valid(self.parent_of(c)->0 as int)
                    &&& self.children_of(self.parent_of(c)->0 as int).contains(c as usize)
                },
            forall|p: int, k: int|
                #![trigger self.children_of(p)[k]]
                self.valid(p) && 0 <= k < self.children_of(p).len() ==> {
                    &&& self.valid(self.children_of(p)[k] as int)
                    &&& self.parent_of(self.children_of(p)[k] as int) == Some(p as usize)
                },
            forall|c: int| #![trigger self.parent_of(c)] self.valid(c) ==> (self.parent_of(c) is None <==> c == 0),
    {
    }

    /// No node is one of its own children.
    pub proof fn lemma_no_self_child(&self, n: int)
        requires
            self.wf(),
            self.valid(n),
        ensures
            !self.children_of(n).contains(n as usize),
    {
        if self.children_of(n).contains(n as usize) {
            let k = choose|k: int|
                0 <= k < self.children_of(n).len() && self.children_of(n)[k] == n as usize;
            assert(n < self.children_of(n)[k]);
        }
    }

    /// Appending always creates a new node: the new child is a node that
    /// did not exist before, never the node it was appended below, and the
    /// tree keeps every other node.
    pub proof fn lemma_append_creates_new_node(
        after: &Self,
        before: &Self,
        at: usize,
        id: Seq<char>,
        data: T,
        decision: U,
    )
        requires
            before.wf(),
            before.valid(at as int),
            after.appended(before, at, id, data, decision),
        ensures
            !before.valid(before.size() as int),
            after.valid(before.size() as int),
            before.size() != at,
            after.children_of(at as int).contains(before.size() as usize),
            !after.children_of(at as int).contains(at),
    {
        let c = before.size() as usize;
        assert(after.children_of(at as int).last() == c);
        if after.children_of(at as int).contains(at) {
            let k = choose|k: int|
                0 <= k < after.children_of(at as int).len() && after.children_of(at as int)[k] == at;
            if k < before.children_of(at as int).len() {
                assert(before.children_of(at as int)[k] == at);
                assert(at < before.children_of(at as int)[k]);
            } else {
                assert(after.children_of(at as int)[k] == c);
            }
        }
    }

    /// Two nodes created by two appends are two nodes, with two handles,
    /// even when they carry the same payload and the same decision.
    pub proof fn lemma_fresh_nodes_distinct(
        t0: &Self,
        t1: &Self,
        t2: &Self,
        at1: usize,
        id1: Seq<char>,
        at2: usize,
        id2: Seq<char>,
        data: T,
        decision: U,
    )
        requires
            t0.wf(),
            t1.appended(t0, at1, id1, data, decision),
            t2.appended(t1, at2, id2, data, decision),
        ensures
            t0.size() != t1.size(),
            t2.valid(t0.size() as int),
            t2.valid(t1.size() as int),
            t2.data_of(t0.size() as int) == t2.data_of(t1.size() as int),
            t2.decision_of(t0.size() as int) == t2.decision_of(t1.size() as int),
    {
        let h1 = t0.size() as int;
        if h1 != at2 {
            assert(t2.same_node(t1, h1));
        }
    }

    /// No two nodes of a tree share an id.
    pub proof fn lemma_ids_unique(&self, i: int, j: int)
        requires
            self.wf(),
            self.valid(i),
            self.valid(j),
            self.id_of(i) == self.id_of(j),
        ensures
            i == j,
    {
    }

    /// `self` is `other` after one append.
    pub open spec fn grown_by_append(&self, other: &Self) -> bool {
        exists|at: usize, id: Seq<char>, data: T, decision: U|
            #[trigger] self.appended(other, at, id, data, decision)
    }

    /// A tree built by `init` followed by appends holds one node for each
    /// append, plus the root.
    pub proof fn lemma_size_counts_appends(ts: Seq<Self>)
        requires
            ts.len() >= 1,
            ts[0].size() == 1,
            forall|k: int| 0 < k < ts.len() ==> (#[trigger] ts[k]).grown_by_append(&ts[k - 1]),
        ensures
            ts.last().size() == ts.len(),
        decreases ts.len(),
    {
        if ts.len() > 1 {
            let front = ts.drop_last();
            assert forall|k: int| 0 < k < front.len() implies (#[trigger] front[k]).grown_by_append(
                &front[k - 1],
            ) by {
                assert(front[k] == ts[k] && front[k - 1] == ts[k - 1]);
            }
            Self::lemma_size_counts_appends(front);
            let k = ts.len() - 1;
            assert(ts[k].grown_by_append(&ts[k - 1]));
            let (at, id, data, decision) = choose|at: usize, id: Seq<char>, data: T, decision: U|
                #[trigger] ts[k].appended(&ts[k - 1], at, id, data, decision);
            assert(front.last() == ts[k - 1]);
        }
    }

    /// Walking down `steps` times and then back up `steps` times returns
    /// to the starting node.
    pub proof fn lemma_forward_back(&self, n: int, steps: nat, last: bool)
        requires
            self.wf(),
            self.valid(n),
            self.forward_spec(n, steps, last) is Some,
        ensures
            self.valid(self.forward_spec(n, steps, last)->0 as int),
            self.back_spec(self.forward_spec(n, steps, last)->0 as int, steps) == Some(
                n as usize,
            ),
        decreases steps,
    {
        if steps > 0 {
            let m = self.forward_spec(n, (steps - 1) as nat, last)->0 as int;
            self.lemma_forward_back(n, (steps - 1) as nat, last);
            let k = if last {
                self.children_of(m).len() - 1
            } else {
                0
            };
            self.lemma_child_valid(m, k);
        }
    }
}

/// `b` does not come strictly before `a`: the two may stand in this order.
pub open spec fn in_order<U: PartialOrd>(a: U, b: U) -> bool {
    b.partial_cmp_spec(&a) != Some(core::cmp::Ordering::Less)
}

impl<T, U: Copy> DT<T, U> {
    /// The decision value of `n`; `None` for the root.
    pub fn decision(&self, n: usize) -> (r: Option<U>)
        requires
            self.valid(n as int),
        ensures
            r == self.decision_of(n as int),
    {
        self.nodes[n].decision
    }
}

impl<T: Copy, U> DT<T, U> {
    /// The payload of `n`, copied out; `None` for the root.
    pub fn content(&self, n: usize) -> (r: Option<T>)
        requires
            self.valid(n as int),
        ensures
            r == self.data_of(n as int),
    {
        self.nodes[n].data
    }
}

impl<T, U: PartialOrd + Copy> DT<T, U> {
    /// The children of `n` stand in ascending order of their decisions.
    pub open spec fn children_sorted(&self, n: int) -> bool {
        forall|k: int|
            0 <= k < self.children_of(n).len() - 1 ==> in_order(
                self.decision_of(#[trigger] self.children_of(n)[k] as int)->0,
                self.decision_of(self.children_of(n)[k + 1] as int)->0,
            )
    }

    /// `self` is `other` with the children of `n` put in another order.
    pub open spec fn reordered_at(&self, other: &Self, n: int) -> bool {
        &&& self.size() == other.size()
        &&& self.children_of(n).to_multiset() == other.children_of(n).to_multiset()
        &&& forall|i: int|
            other.valid(i) ==> {
                &&& #[trigger] self.id_of(i) == other.id_of(i)
                &&& self.data_of(i) == other.data_of(i)
                &&& self.decision_of(i) == other.decision_of(i)
                &&& self.parent_of(i) == other.parent_of(i)
                &&& self.latest_child_of(i) == other.latest_child_of(i)
            }
        &&& forall|i: int|
            other.valid(i) && i != n ==> #[trigger] self.children_of(i) == other.children_of(i)
    }

    /// Reordering the children of one node keeps the tree well formed.
    proof fn lemma_reordered_wf(a: &Self, b: &Self, n: int)
        requires
            a.wf(),
            a.valid(n),
            b.size() == a.size(),
            forall|i: int|
                a.valid(i) ==> {
                    &&& #[trigger] b.id_of(i) == a.id_of(i)
                    &&& b.data_of(i) == a.data_of(i)
                    &&& b.decision_of(i) == a.decision_of(i)
                    &&& b.parent_of(i) == a.parent_of(i)
                    &&& b.latest_child_of(i) == a.latest_child_of(i)
                },
            forall|i: int| a.valid(i) && i != n ==> #[trigger] b.children_of(i) == a.children_of(i),
            b.children_of(n).to_multiset() == a.children_of(n).to_multiset(),
        ensures
            b.wf(),
    {
        broadcast use to_multiset_contains;

        let sa = a.children_of(n);
        let sb = b.children_of(n);
        assert(b.id_of(0) == a.id_of(0));
        assert(forall|x: usize| sa.contains(x) <==> sa.to_multiset().count(x) > 0);
        assert(forall|x: usize| sb.contains(x) <==> sb.to_multiset().count(x) > 0);
        assert forall|i: int|
            #![trigger b.parent_of(i)]
            0 < i < b.size() implies {
                &&& b.parent_of(i) is Some
                &&& b.parent_of(i)->0 < i
                &&& b.children_of(b.parent_of(i)->0 as int).contains(i as usize)
                &&& b.decision_of(i) is Some
            } by {
            assert(b.id_of(i) == a.id_of(i));
            let p = a.parent_of(i)->0 as int;
            assert(a.children_of(p).contains(i as usize));
            if p == n {
                assert(sa.to_multiset().count(i as usize) > 0);
                assert(sb.to_multiset().count(i as usize) > 0);
            }
        }
        assert forall|i: int, k: int|
            #![trigger b.children_of(i)[k]]
            b.valid(i) && 0 <= k < b.children_of(i).len() implies {
                &&& i < b.children_of(i)[k] < b.size()
                &&& b.parent_of(b.children_of(i)[k] as int) == Some(i as usize)
            } by {
            assert(b.id_of(i) == a.id_of(i));
            if i == n {
                assert(sb.contains(sb[k]));
                let j = choose|j: int| 0 <= j < sa.len() && sa[j] == sb[k];
                assert(sa[j] == sb[k]);
            } else {
                assert(a.children_of(i)[k] == b.children_of(i)[k]);
            }
        }
        assert forall|i: int| #![trigger b.children_of(i)]
            b.valid(i) implies b.children_of(i).no_duplicates() by {
            if i == n {
                sa.lemma_multiset_has_no_duplicates();
                sb.lemma_multiset_has_no_duplicates_conv();
            }
        }
        assert forall|i: int| #![trigger b.latest_child_of(i)]
            b.valid(i) implies {
                &&& (b.latest_child_of(i) is None <==> b.children_of(i).len() == 0)
                &&& (b.latest_child_of(i) matches Some(c) ==> b.children_of(i).contains(c))
            } by {
            assert(b.id_of(i) == a.id_of(i));
            assert(a.latest_child_of(i) is None <==> a.children_of(i).len() == 0);
            if i == n {
                sa.to_multiset_ensures();
                sb.to_multiset_ensures();
                assert(sa.len() == sb.len());
                if let Some(c) = a.latest_child_of(i) {
                    assert(sa.contains(c));
                    assert(sa.to_multiset().count(c) > 0);
                    assert(sb.to_multiset().count(c) > 0);
                }
            }
        }
        assert forall|i: int, j: int|
            b.valid(i) && b.valid(j) && i != j implies #[trigger] b.id_of(i)
                != #[trigger] b.id_of(j) by {
            assert(b.id_of(i) == a.id_of(i));
            assert(b.id_of(j) == a.id_of(j));
            assert(a.id_of(i) != a.id_of(j));
        }
    }

    /// Sorts the children of `n` in ascending order of their decisions.
    /// Nothing else in the tree changes.
    pub(crate) fn sort_children(&mut self, n: usize)
        requires
            old(self).wf(),
            old(self).valid(n as int),
            U::obeys_partial_cmp_spec(),
            obeys_partial_cmp_spec_properties::<U>(),
        ensures
            final(self).wf(),
            final(self).reordered_at(old(self), n as int),
            final(self).children_sorted(n as int),
    {
        let ghost key = |c: usize| self.decision_of(c as int)->0;
        let mut ch: Vec<usize> = Vec::new();
        let mut keys: Vec<U> = Vec::new();
        let len = self.nodes[n].children.len();
        let mut k: usize = 0;
        while k < len
            invariant
                self.wf(),
                self.valid(n as int),
                len == self.children_of(n as int).len(),
                k <= len,
                ch@ == self.children_of(n as int).take(k as int),
                keys@.len() == k,
                forall|q: int| 0 <= q < k ==> keys@[q] == key(#[trigger] ch@[q]),
                key == (|c: usize| self.decision_of(c as int)->0),
            decreases len - k,
        {
            let c = self.nodes[n].children[k];
            proof {
                assert(self.children_of(n as int)[k as int] == c);
            }
            ch.push(c);
            keys.push(self.nodes[c].decision.unwrap());
            proof {
                assert(ch@ =~= self.children_of(n as int).take(k + 1));
            }
            k = k + 1;
        }
        proof {
            assert(ch@ =~= self.children_of(n as int));
        }
        sort_keyed(&mut ch, &mut keys, Ghost(key));
        let ghost before = *self;
        self.nodes[n].children = ch;
        proof {
            assert forall|q: int| before.valid(q) implies {
                &&& #[trigger] self.id_of(q) == before.id_of(q)
                &&& self.data_of(q) == before.data_of(q)
                &&& self.decision_of(q) == before.decision_of(q)
                &&& self.parent_of(q) == before.parent_of(q)
                &&& self.latest_child_of(q) == before.latest_child_of(q)
            } by {}
            assert(forall|q: int|
                before.valid(q) && q != n ==> #[trigger] self.children_of(q) == before.children_of(
                    q,
                ));
            Self::lemma_reordered_wf(&before, self, n as int);
        }
    }
}

/// Sorts `ch` by insertion, moving `keys` along so that each key stays
/// beside its element; the result is in ascending order of the keys.
fn sort_keyed<U: PartialOrd + Copy>(
    ch: &mut Vec<usize>,
    keys: &mut Vec<U>,
    key: Ghost<spec_fn(usize) -> U>,
)
    requires
        old(ch)@.len() == old(keys)@.len(),
        forall|q: int| 0 <= q < old(ch)@.len() ==> old(keys)@[q] == key@(#[trigger] old(ch)@[q]),
        U::obeys_partial_cmp_spec(),
        obeys_partial_cmp_spec_properties::<U>(),
    ensures
        final(ch)@.to_multiset() == old(ch)@.to_multiset(),
        final(ch)@.len() == final(keys)@.len(),
        forall|q: int|
            0 <= q < final(ch)@.len() ==> final(keys)@[q] == key@(#[trigger] final(ch)@[q]),
        forall|q: int|
            0 <= q < final(ch)@.len() - 1 ==> in_order(
                key@(#[trigger] final(ch)@[q]),
                key@(final(ch)@[q + 1]),
            ),
{
    broadcast use to_multiset_update;

    proof {
        reveal(obeys_partial_cmp_spec_properties);
    }
    let len = ch.len();
    let mut i: usize = 1;
    while i < len
        invariant
            ch@.len() == len,
            keys@.len() == len,
            1 <= i,
            ch@.to_multiset() == old(ch)@.to_multiset(),
            forall|q: int| 0 <= q < len ==> keys@[q] == key@(#[trigger] ch@[q]),
            forall|q: int|
                0 <= q && q + 1 < i ==> in_order(#[trigger] keys@[q], keys@[q + 1]),
            U::obeys_partial_cmp_spec(),
            obeys_partial_cmp_spec_properties::<U>(),
        decreases len - i,
    {
        let mut j: usize = i;
        let mut moving = true;
        while moving && j > 0
            invariant
                ch@.len() == len,
                keys@.len() == len,
                1 <= i < len,
                j <= i,
                ch@.to_multiset() == old(ch)@.to_multiset(),
                forall|q: int| 0 <= q < len ==> keys@[q] == key@(#[trigger] ch@[q]),
                forall|q: int|
                    0 <= q && q + 1 < j ==> in_order(#[trigger] keys@[q], keys@[q + 1]),
                forall|q: int|
                    j <= q && q + 1 <= i ==> in_order(#[trigger] keys@[q], keys@[q + 1]),
                0 < j < i ==> in_order(keys@[j - 1], keys@[j + 1]),
                !moving ==> j > 0 && in_order(keys@[j - 1], keys@[j as int]),
                U::obeys_partial_cmp_spec(),
                obeys_partial_cmp_spec_properties::<U>(),
            decreases j + (if moving { 1int } else { 0int }),
        {
            let x = keys[j - 1];
            let y = keys[j];
            if y < x {
                let a = ch[j - 1];
                let b = ch[j];
                let ghost s = ch@;
                ch.set(j - 1, b);
                ch.set(j, a);
                keys.set(j - 1, y);
                keys.set(j, x);
                proof {
                    broadcast use vstd::multiset::group_multiset_axioms;

                    reveal(obeys_partial_cmp_spec_properties);
                    let s1 = s.update(j - 1, b);
                    assert(s[j - 1] == a);
                    assert(s1[j as int] == b);
                    broadcast use to_multiset_contains;

                    assert(s.contains(a) && s.contains(b));
                    assert(s.to_multiset().count(a) > 0);
                    assert(s.to_multiset().count(b) > 0);
                    to_multiset_update(s, j - 1, b);
                    to_multiset_update(s1, j as int, a);
                    assert(s1.to_multiset() == s.to_multiset().insert(b).remove(a));
                    assert(s1.update(j as int, a).to_multiset() == s1.to_multiset().insert(
                        a,
                    ).remove(b));
                    assert(ch@ == s1.update(j as int, a));
                    assert(ch@.to_multiset() =~= s.to_multiset());
                    assert(x.partial_cmp_spec(&y) == Some(core::cmp::Ordering::Greater));
                }
                j = j - 1;
            } else {
                moving = false;
            }
        }
        i = i + 1;
    }
}

} // verus!
