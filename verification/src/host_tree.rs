//! A model of the host tree collaborator, reduced to exactly the interface
//! the registry consumes: stable node identities, parent lookup, and the
//! naming information a node reports when it registers.
//!
//! Nodes are introduced parent-first, which keeps every parent chain finite:
//! each node records a depth strictly greater than its parent's, so upward
//! walks terminate.

use vstd::prelude::*;

verus! {

/// One host-tree node, as seen by the registry: its identity, its parent,
/// its intrinsic class name, and the custom registration name it exposes
/// when it implements the naming capability.
pub struct HostNode {
    pub id: u64,
    pub parent: Option<u64>,
    pub depth: usize,
    pub class_name: String,
    pub di_name: Option<String>,
}

/// The host tree: an association vector of nodes keyed by identity.
pub struct HostTree {
    pub nodes: Vec<HostNode>,
}

/// The first node with identity `id`, if any.
pub open spec fn find_host_node(s: Seq<HostNode>, id: u64) -> Option<HostNode>
    decreases s.len(),
{
    if s.len() == 0 {
        None
    } else if s[0].id == id {
        Some(s[0])
    } else {
        find_host_node(s.drop_first(), id)
    }
}

impl HostTree {
    /// Whether a node with this identity has been introduced.
    pub open spec fn spec_has_node(self, id: u64) -> bool {
        find_host_node(self.nodes@, id) is Some
    }

    /// The node's parent identity, or `None` at the root of the host tree.
    pub open spec fn spec_parent(self, id: u64) -> Option<u64>
        recommends
            self.spec_has_node(id),
    {
        find_host_node(self.nodes@, id).unwrap().parent
    }

    /// The node's distance from its root.
    pub open spec fn spec_depth(self, id: u64) -> usize
        recommends
            self.spec_has_node(id),
    {
        find_host_node(self.nodes@, id).unwrap().depth
    }

    /// The node's intrinsic class name.
    pub open spec fn spec_class_name(self, id: u64) -> Seq<char>
        recommends
            self.spec_has_node(id),
    {
        find_host_node(self.nodes@, id).unwrap().class_name@
    }

    /// The custom registration name the node exposes, if it implements the
    /// naming capability.
    pub open spec fn spec_di_name(self, id: u64) -> Option<Seq<char>>
        recommends
            self.spec_has_node(id),
    {
        match find_host_node(self.nodes@, id).unwrap().di_name {
            Some(n) => Some(n@),
            None => None,
        }
    }

    /// Well-formedness: every identity that resolves resolves to a node
    /// carrying that identity, every non-root node's parent resolves to a
    /// node of strictly smaller depth, and depths never exceed the node
    /// count (so a child's depth always fits).
    pub open spec fn wf(self) -> bool {
        forall|id: u64| #[trigger] find_host_node(self.nodes@, id) is Some ==> {
            let n = find_host_node(self.nodes@, id).unwrap();
            &&& n.id == id
            &&& match n.parent {
                Some(p) => {
                    &&& find_host_node(self.nodes@, p) is Some
                    &&& find_host_node(self.nodes@, p).unwrap().depth < n.depth
                },
                None => true,
            }
            &&& n.depth <= self.nodes@.len()
        }
    }

    /// An empty host tree.
    pub fn new() -> (t: HostTree)
        ensures
            t.wf(),
            t.nodes@.len() == 0,
            forall|id: u64| !#[trigger] t.spec_has_node(id),
    {
        HostTree { nodes: Vec::new() }
    }

    /// Introduce a node. A root has no parent; any other node names a parent
    /// that was introduced before it.
    pub fn add_node(
        &mut self,
        id: u64,
        parent: Option<u64>,
        class_name: String,
        di_name: Option<String>,
    )
        requires
            old(self).wf(),
            !old(self).spec_has_node(id),
            match parent {
                Some(p) => old(self).spec_has_node(p),
                None => true,
            },
            old(self).nodes@.len() < usize::MAX,
        ensures
            final(self).wf(),
            final(self).spec_has_node(id),
            final(self).spec_parent(id) == parent,
            final(self).spec_class_name(id) == class_name@,
            final(self).spec_di_name(id) == match di_name {
                Some(n) => Some(n@),
                None => None::<Seq<char>>,
            },
            forall|o: u64| o != id ==> #[trigger] find_host_node(final(self).nodes@, o)
                == find_host_node(old(self).nodes@, o),
    {
        let depth: usize = match parent {
            Some(p) => {
                let pd = self.depth_of(p);
                pd + 1
            },
            None => 0,
        };
        let node = HostNode { id, parent, depth, class_name, di_name };
        proof {
            lemma_find_host_node_push(self.nodes@, node);
        }
        self.nodes.push(node);
        proof {
            let s = self.nodes@;
            let old_s = old(self).nodes@;
            assert(s == old_s.push(node));
            assert forall|o: u64| #[trigger] find_host_node(s, o) is Some implies {
                let n = find_host_node(s, o).unwrap();
                &&& n.id == o
                &&& match n.parent {
                    Some(p) => {
                        &&& find_host_node(s, p) is Some
                        &&& find_host_node(s, p).unwrap().depth < n.depth
                    },
                    None => true,
                }
                &&& n.depth <= s.len()
            } by {
                if o == id {
                    assert(find_host_node(s, o) == Some(node));
                    match parent {
                        Some(p) => {
                            assert(find_host_node(old_s, p) is Some);
                            assert(p != id);
                            assert(find_host_node(s, p) == find_host_node(old_s, p));
                        },
                        None => {},
                    }
                } else {
                    assert(find_host_node(s, o) == find_host_node(old_s, o));
                    let n = find_host_node(old_s, o).unwrap();
                    match n.parent {
                        Some(p) => {
                            assert(find_host_node(old_s, p) is Some);
                            assert(p != id);
                            assert(find_host_node(s, p) == find_host_node(old_s, p));
                        },
                        None => {},
                    }
                }
            }
        }
    }

    /// Whether the tree holds a node with this identity.
    pub fn has_node(&self, id: u64) -> (r: bool)
        ensures
            r == self.spec_has_node(id),
    {
        let n = self.nodes.len();
        let mut j: usize = 0;
        proof {
            assert(self.nodes@.skip(0) =~= self.nodes@);
        }
        while j < n
            invariant
                n == self.nodes@.len(),
                j <= n,
                find_host_node(self.nodes@.skip(j as int), id) == find_host_node(self.nodes@, id),
            decreases n - j,
        {
            if self.nodes[j].id == id {
                return true;
            }
            proof {
                assert(self.nodes@.skip(j as int).drop_first() =~= self.nodes@.skip(j as int + 1));
            }
            j += 1;
        }
        false
    }

    fn find_index(&self, id: u64) -> (r: Option<usize>)
        ensures
            match r {
                Some(j) => j < self.nodes@.len()
                    && find_host_node(self.nodes@, id) == Some(self.nodes@[j as int]),
                None => find_host_node(self.nodes@, id) is None,
            },
    {
        let n = self.nodes.len();
        let mut j: usize = 0;
        proof {
            assert(self.nodes@.skip(0) =~= self.nodes@);
        }
        while j < n
            invariant
                n == self.nodes@.len(),
                j <= n,
                find_host_node(self.nodes@.skip(j as int), id) == find_host_node(self.nodes@, id),
            decreases n - j,
        {
            if self.nodes[j].id == id {
                return Some(j);
            }
            proof {
                assert(self.nodes@.skip(j as int).drop_first() =~= self.nodes@.skip(j as int + 1));
            }
            j += 1;
        }
        None
    }

    /// The parent of a known node.
    pub fn parent_of(&self, id: u64) -> (r: Option<u64>)
        requires
            self.spec_has_node(id),
        ensures
            r == self.spec_parent(id),
    {
        let j = self.find_index(id).unwrap();
        self.nodes[j].parent
    }

    fn depth_of(&self, id: u64) -> (r: usize)
        requires
            self.spec_has_node(id),
        ensures
            r == self.spec_depth(id),
    {
        let j = self.find_index(id).unwrap();
        self.nodes[j].depth
    }

    /// The intrinsic class name of a known node.
    pub fn class_name_of(&self, id: u64) -> (r: String)
        requires
            self.spec_has_node(id),
        ensures
            r@ == self.spec_class_name(id),
    {
        let j = self.find_index(id).unwrap();
        self.nodes[j].class_name.clone()
    }

    /// The name a node registers under: its custom naming capability when it
    /// exposes one, its intrinsic class name otherwise.
    pub fn registration_name(&self, id: u64) -> (r: String)
        requires
            self.spec_has_node(id),
        ensures
            r@ == crate::di_context::spec_registration_name(*self, id),
    {
        let j = self.find_index(id).unwrap();
        match &self.nodes[j].di_name {
            Some(n) => n.clone(),
            None => self.nodes[j].class_name.clone(),
        }
    }
}

/// Appending a node with a fresh identity leaves every other identity's
/// lookup unchanged and makes the new one found.
proof fn lemma_find_host_node_push(s: Seq<HostNode>, node: HostNode)
    ensures
        forall|o: u64| o != node.id ==> #[trigger] find_host_node(s.push(node), o)
            == find_host_node(s, o),
        find_host_node(s, node.id) is None ==> find_host_node(s.push(node), node.id) == Some(node),
    decreases s.len(),
{
    assert forall|o: u64| o != node.id implies #[trigger] find_host_node(s.push(node), o)
        == find_host_node(s, o)
    by {
        lemma_find_host_node_push_one(s, node, o);
    }
    if find_host_node(s, node.id) is None {
        lemma_find_host_node_push_found(s, node);
    }
}

proof fn lemma_find_host_node_push_one(s: Seq<HostNode>, node: HostNode, o: u64)
    requires
        o != node.id,
    ensures
        find_host_node(s.push(node), o) == find_host_node(s, o),
    decreases s.len(),
{
    let s2 = s.push(node);
    if s.len() == 0 {
        assert(s2[0] == node);
        assert(s2.drop_first() =~= Seq::<HostNode>::empty());
    } else {
        assert(s2[0] == s[0]);
        assert(s2.drop_first() =~= s.drop_first().push(node));
        lemma_find_host_node_push_one(s.drop_first(), node, o);
    }
}

proof fn lemma_find_host_node_push_found(s: Seq<HostNode>, node: HostNode)
    requires
        find_host_node(s, node.id) is None,
    ensures
        find_host_node(s.push(node), node.id) == Some(node),
    decreases s.len(),
{
    let s2 = s.push(node);
    if s.len() == 0 {
        assert(s2[0] == node);
    } else {
        assert(s2[0] == s[0]);
        assert(s2.drop_first() =~= s.drop_first().push(node));
        lemma_find_host_node_push_found(s.drop_first(), node);
    }
}

} // verus!
