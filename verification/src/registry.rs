//! The registry: an arena of contexts, the tree-membership index that maps a
//! host node to the context anchored under it, and the resolution engine.
//!
//! Contexts refer to one another by arena index; a context's back-reference
//! to its parent is such an index, never an owning handle. The registry's
//! well-formedness ties the references together: forwarding lists name only
//! attached contexts of strictly greater depth, and parent references point
//! at strictly smaller depth, so downward searches and upward delegation both
//! terminate.

use vstd::prelude::*;
use vstd::set_lib::lemma_int_range;
use vstd::set_lib::lemma_len_subset;
use vstd::set_lib::set_int_range;

use crate::di_context::DiContext;
use crate::di_context::RegistrationKey;
use crate::di_context::ReRegistration;
use crate::di_context::family_nodes;
use crate::di_context::find_registered;
use crate::di_context::kids_for_family;
use crate::di_context::kids_for_key;
use crate::di_context::kids_slot_for_family;
use crate::di_context::kids_slot_for_key;
use crate::di_context::family_slot;
use crate::di_context::lookup_registered;
use crate::di_context::remove_kid;
use crate::di_context::lemma_remove_kid_members;
use crate::di_context::decl_count;
use crate::di_context::family_count;
use crate::di_context::repeat_kid;
use crate::di_context::clone_reregs;
use crate::di_context::clone_strings;
use crate::host_tree::HostTree;

verus! {

/// The context anchored at host node `n`, reading the index front to back.
pub open spec fn index_lookup(s: Seq<(u64, usize)>, n: u64) -> Option<usize>
    decreases s.len(),
{
    if s.len() == 0 {
        None
    } else if s[0].0 == n {
        Some(s[0].1)
    } else {
        index_lookup(s.drop_first(), n)
    }
}

/// The context-tree registry.
pub struct DiRegistry {
    /// Arena of every context ever created; a context's identity is its
    /// index here, stable across detach and re-attach.
    pub contexts: Vec<DiContext>,
    /// Tree-membership index: anchor host node -> attached context. Exactly
    /// one entry per attached context.
    pub node_index: Vec<(u64, usize)>,
}

impl DiRegistry {
    /// Whether `x` may appear in a forwarding list of the context at `i`:
    /// a live context strictly deeper than its searcher.
    pub open spec fn kid_ok(self, i: int, x: usize) -> bool {
        &&& x < self.contexts@.len()
        &&& self.contexts@[x as int].attached
        &&& self.contexts@[x as int].depth > self.contexts@[i].depth
    }

    /// The structural half of well-formedness for one context: everything
    /// its forwarding lists name is a deeper live context, and its parent
    /// reference points at a strictly shallower context.
    pub open spec fn ctx_graph_ok(self, i: int) -> bool {
        let c = self.contexts@[i];
        &&& forall|tn: Seq<char>, idv: Seq<char>, k: int|
            0 <= k < kids_for_key(c.children_to_search_for_registered_nodes@, tn, idv).len()
                ==> self.kid_ok(i, #[trigger] kids_for_key(c.children_to_search_for_registered_nodes@, tn, idv)[k])
        &&& forall|f: Seq<char>, k: int|
            0 <= k < kids_for_family(c.children_to_search_for_multiregistered_nodes@, f).len()
                ==> self.kid_ok(i, #[trigger] kids_for_family(c.children_to_search_for_multiregistered_nodes@, f)[k])
        &&& match c.parent_context {
            Some(p) => p < self.contexts@.len()
                && self.contexts@[p as int].depth < c.depth,
            None => true,
        }
        &&& !c.attached ==> c.children_to_search_for_registered_nodes@.len() == 0
            && c.children_to_search_for_multiregistered_nodes@.len() == 0
    }

    /// Forwarding lists and parent references are consistent everywhere.
    pub open spec fn wf_graph(self) -> bool {
        forall|i: int| 0 <= i < self.contexts@.len() ==> #[trigger] self.ctx_graph_ok(i)
    }

    /// The tree-membership index holds exactly one entry per attached
    /// context: anchors are unique, contexts are unique, every entry names a
    /// live context, and every live context has an entry.
    pub open spec fn wf_index(self) -> bool {
        &&& forall|j: int, k: int| 0 <= j < k < self.node_index@.len()
            ==> (#[trigger] self.node_index@[j]).0 != (#[trigger] self.node_index@[k]).0
                && self.node_index@[j].1 != self.node_index@[k].1
        &&& forall|j: int| 0 <= j < self.node_index@.len() ==> {
            let e = #[trigger] self.node_index@[j];
            e.1 < self.contexts@.len() && self.contexts@[e.1 as int].attached
        }
        &&& forall|i: int| 0 <= i < self.contexts@.len() && (#[trigger] self.contexts@[i]).attached
            ==> exists|j: int| 0 <= j < self.node_index@.len() && (#[trigger] self.node_index@[j]).1 == i
    }

    /// Full registry well-formedness.
    pub open spec fn wf(self) -> bool {
        self.wf_graph() && self.wf_index()
    }

    /// An empty registry.
    pub fn new() -> (r: DiRegistry)
        ensures
            r.wf(),
            r.contexts@.len() == 0,
            r.node_index@.len() == 0,
    {
        DiRegistry { contexts: Vec::new(), node_index: Vec::new() }
    }

    /// Create a context in the arena, detached, carrying its configuration.
    /// Returns the context's identity.
    pub fn create_context(
        &mut self,
        verbose_logging_name: String,
        re_register_in_parent: Vec<ReRegistration>,
        re_multiregister_in_parent: Vec<String>,
    ) -> (c: usize)
        requires
            old(self).wf(),
        ensures
            final(self).wf(),
            c == old(self).contexts@.len(),
            final(self).contexts@.len() == old(self).contexts@.len() + 1,
            forall|i: int| 0 <= i < old(self).contexts@.len()
                ==> final(self).contexts@[i] == old(self).contexts@[i],
            final(self).node_index == old(self).node_index,
            !final(self).contexts@[c as int].attached,
            final(self).contexts@[c as int].depth == 0,
            final(self).contexts@[c as int].parent_context is None,
            final(self).contexts@[c as int].registered_nodes@ =~= Seq::<(RegistrationKey, u64)>::empty(),
            final(self).contexts@[c as int].multiregistered_nodes@ =~= Seq::<(String, Vec<u64>)>::empty(),
            final(self).contexts@[c as int].children_to_search_for_registered_nodes@
                =~= Seq::<(RegistrationKey, Vec<usize>)>::empty(),
            final(self).contexts@[c as int].children_to_search_for_multiregistered_nodes@
                =~= Seq::<(String, Vec<usize>)>::empty(),
            final(self).contexts@[c as int].re_register_in_parent == re_register_in_parent,
            final(self).contexts@[c as int].re_multiregister_in_parent == re_multiregister_in_parent,
            final(self).contexts@[c as int].verbose_logging_name == verbose_logging_name,
    {
        let c = self.contexts.len();
        let ctx = DiContext::init(
            verbose_logging_name,
            re_register_in_parent,
            re_multiregister_in_parent,
        );
        self.contexts.push(ctx);
        proof {
            let post = *self;
            let pre = *old(self);
            assert forall|i: int| 0 <= i < post.contexts@.len() implies #[trigger] post.ctx_graph_ok(i) by {
                if i < pre.contexts@.len() {
                    assert(pre.ctx_graph_ok(i));
                    assert(post.contexts@[i] == pre.contexts@[i]);
                    lemma_ctx_graph_ok_extend(pre, post, i);
                } else {
                    let c2 = post.contexts@[i];
                    assert(c2.children_to_search_for_registered_nodes@.len() == 0);
                    assert(c2.children_to_search_for_multiregistered_nodes@.len() == 0);
                }
            }
        }
        c
    }

    /// The context anchored exactly at `node`, with no upward walking.
    pub fn get_context(&self, node: u64) -> (r: Option<usize>)
        ensures
            r == index_lookup(self.node_index@, node),
    {
        let n = self.node_index.len();
        let mut j: usize = 0;
        proof {
            assert(self.node_index@.skip(0) =~= self.node_index@);
        }
        while j < n
            invariant
                n == self.node_index@.len(),
                j <= n,
                index_lookup(self.node_index@.skip(j as int), node)
                    == index_lookup(self.node_index@, node),
            decreases n - j,
        {
            if self.node_index[j].0 == node {
                return Some(self.node_index[j].1);
            }
            proof {
                assert(self.node_index@.skip(j as int).drop_first()
                    =~= self.node_index@.skip(j as int + 1));
            }
            j += 1;
        }
        None
    }

    /// The nearest context at or above `node`, walking up the host tree.
    pub open spec fn spec_nearest(self, tree: HostTree, node: u64) -> Option<usize>
        decreases tree.spec_depth(node),
            when tree.wf() && tree.spec_has_node(node)
    {
        match index_lookup(self.node_index@, node) {
            Some(c) => Some(c),
            None => match tree.spec_parent(node) {
                Some(p) => self.spec_nearest(tree, p),
                None => None,
            },
        }
    }

    /// The nearest context strictly above `node`: the walk starts at the
    /// node's parent, so a context anchored at `node` itself is skipped.
    pub open spec fn spec_nearest_exclude(self, tree: HostTree, node: u64) -> Option<usize> {
        match tree.spec_parent(node) {
            Some(p) => self.spec_nearest(tree, p),
            None => None,
        }
    }

    /// Walk from `node` towards the root of the host tree; the first node
    /// carrying a context in the tree-membership index wins. `None` when the
    /// walk reaches the root without a hit.
    pub fn get_nearest(&self, tree: &HostTree, node: u64) -> (r: Option<usize>)
        requires
            tree.wf(),
            tree.spec_has_node(node),
        ensures
            r == self.spec_nearest(*tree, node),
    {
        let mut cur: u64 = node;
        loop
            invariant
                tree.wf(),
                tree.spec_has_node(cur),
                self.spec_nearest(*tree, cur) == self.spec_nearest(*tree, node),
            decreases tree.spec_depth(cur),
        {
            if let Some(c) = self.get_context(cur) {
                return Some(c);
            }
            match tree.parent_of(cur) {
                Some(p) => {
                    cur = p;
                },
                None => {
                    return None;
                },
            }
        }
    }

    /// The nearest context strictly above `node` in the host tree.
    pub fn get_nearest_exclude_self(&self, tree: &HostTree, node: u64) -> (r: Option<usize>)
        requires
            tree.wf(),
            tree.spec_has_node(node),
        ensures
            r == self.spec_nearest_exclude(*tree, node),
    {
        match tree.parent_of(node) {
            Some(p) => self.get_nearest(tree, p),
            None => None,
        }
    }

    /// Exact-anchor lookup under the name the host-facing surface uses.
    pub fn get_node_context(&self, node: u64) -> (r: Option<usize>)
        ensures
            r == index_lookup(self.node_index@, node),
    {
        self.get_context(node)
    }

    /// Nearest-context lookup under the name the host-facing surface uses.
    pub fn get_nearest_to_node(&self, tree: &HostTree, node: u64) -> (r: Option<usize>)
        requires
            tree.wf(),
            tree.spec_has_node(node),
        ensures
            r == self.spec_nearest(*tree, node),
    {
        self.get_nearest(tree, node)
    }

    /// Nearest-above lookup under the name the host-facing surface uses.
    pub fn get_nearest_to_node_exclude_self(&self, tree: &HostTree, node: u64) -> (r: Option<usize>)
        requires
            tree.wf(),
            tree.spec_has_node(node),
        ensures
            r == self.spec_nearest_exclude(*tree, node),
    {
        self.get_nearest_exclude_self(tree, node)
    }

    /// The parent context reference currently held by a context.
    pub fn parent_context_of(&self, c: usize) -> (r: Option<usize>)
        requires
            c < self.contexts@.len(),
        ensures
            r == self.contexts@[c as int].parent_context,
    {
        self.contexts[c].parent_context
    }

    /// Whether a context is currently attached.
    pub fn is_attached(&self, c: usize) -> (r: bool)
        requires
            c < self.contexts@.len(),
        ensures
            r == self.contexts@[c as int].attached,
    {
        self.contexts[c].attached
    }
}


/// How many contexts sit at depth `d` or deeper. Downward searches recurse
/// only into strictly deeper contexts, so this count shrinks at every step
/// and bounds the recursion whatever the actual depths are.
pub open spec fn at_least(reg: DiRegistry, d: int) -> nat {
    Set::new(|j: int| 0 <= j < reg.contexts@.len() && reg.contexts@[j].depth >= d).len()
}

/// Stepping from a context to a strictly deeper one strictly shrinks the
/// count of contexts at or below the new depth.
proof fn lemma_at_least_decreases(reg: DiRegistry, c: int, x: int)
    requires
        0 <= c < reg.contexts@.len(),
        0 <= x < reg.contexts@.len(),
        reg.contexts@[x].depth > reg.contexts@[c].depth,
    ensures
        at_least(reg, reg.contexts@[x].depth as int) < at_least(reg, reg.contexts@[c].depth as int),
{
    let len = reg.contexts@.len() as int;
    let dc = reg.contexts@[c].depth as int;
    let dx = reg.contexts@[x].depth as int;
    let s_c = Set::new(|j: int| 0 <= j < len && reg.contexts@[j].depth >= dc);
    let s_x = Set::new(|j: int| 0 <= j < len && reg.contexts@[j].depth >= dx);
    let range = set_int_range(0, len);
    lemma_int_range(0, len);
    assert(s_c.subset_of(range));
    lemma_len_subset(s_c, range);
    assert(s_c.contains(c));
    let s_c2 = s_c.remove(c);
    assert(s_c2.len() == s_c.len() - 1);
    assert(s_x.subset_of(s_c2));
    lemma_len_subset(s_x, s_c2);
}

/// The first-match search of a context for a key, without consulting the
/// parent: the local map first, then each forwarded child in declaration
/// order, skipping the ignored child, descending recursively (still without
/// parent delegation).
pub open spec fn spec_lookup_no_parent(
    reg: DiRegistry,
    c: int,
    tn: Seq<char>,
    id: Seq<char>,
    ignore: Option<usize>,
) -> Option<u64>
    decreases at_least(reg, reg.contexts@[c].depth as int), 1int, 0int,
        when 0 <= c < reg.contexts@.len() && reg.wf_graph()
{
    let ctx = reg.contexts@[c];
    match find_registered(ctx.registered_nodes@, tn, id) {
        Some(n) => Some(n),
        None => spec_search_kids(
            reg,
            c,
            kids_for_key(ctx.children_to_search_for_registered_nodes@, tn, id),
            tn,
            id,
            ignore,
        ),
    }
}

/// First-match over a list of forwarded children of the context at `c`.
pub open spec fn spec_search_kids(
    reg: DiRegistry,
    c: int,
    kids: Seq<usize>,
    tn: Seq<char>,
    id: Seq<char>,
    ignore: Option<usize>,
) -> Option<u64>
    decreases at_least(reg, reg.contexts@[c].depth as int), 0int, kids.len(),
        when 0 <= c < reg.contexts@.len() && reg.wf_graph()
            && (forall|k: int| 0 <= k < kids.len() ==> reg.kid_ok(c, #[trigger] kids[k]))
        via spec_search_kids_dec
{
    if kids.len() == 0 {
        None
    } else if Some(kids[0]) == ignore {
        spec_search_kids(reg, c, kids.drop_first(), tn, id, ignore)
    } else {
        match spec_lookup_no_parent(reg, kids[0] as int, tn, id, ignore) {
            Some(n) => Some(n),
            None => spec_search_kids(reg, c, kids.drop_first(), tn, id, ignore),
        }
    }
}

#[via_fn]
proof fn spec_search_kids_dec(
    reg: DiRegistry,
    c: int,
    kids: Seq<usize>,
    tn: Seq<char>,
    id: Seq<char>,
    ignore: Option<usize>,
) {
    if kids.len() > 0 {
        assert(reg.kid_ok(c, kids[0]));
        lemma_at_least_decreases(reg, c, kids[0] as int);
    }
}

/// Full lookup from the context at `c`: its own subtree search first, then
/// delegation to its parent, handing the parent this context's identity as
/// the child to ignore so the parent's child search does not bounce back.
pub open spec fn spec_lookup(
    reg: DiRegistry,
    c: int,
    tn: Seq<char>,
    id: Seq<char>,
    ignore: Option<usize>,
) -> Option<u64>
    decreases reg.contexts@[c].depth,
        when 0 <= c < reg.contexts@.len() && reg.wf_graph()
        via spec_lookup_dec
{
    match spec_lookup_no_parent(reg, c, tn, id, ignore) {
        Some(n) => Some(n),
        None => match reg.contexts@[c].parent_context {
            Some(p) => spec_lookup(reg, p as int, tn, id, Some(c as usize)),
            None => None,
        },
    }
}

#[via_fn]
proof fn spec_lookup_dec(reg: DiRegistry, c: int, tn: Seq<char>, id: Seq<char>, ignore: Option<usize>) {
    assert(reg.ctx_graph_ok(c));
}

impl DiRegistry {
    /// Search the context at `c` and its forwarded children for the key,
    /// without delegating to the parent; `child_to_ignore` is skipped at
    /// every level of the descent.
    fn try_get_registered_node_with_id_no_parent_search(
        &self,
        c: usize,
        ty_name: &String,
        id: &String,
        child_to_ignore: Option<usize>,
    ) -> (r: Option<u64>)
        requires
            self.wf_graph(),
            c < self.contexts@.len(),
        ensures
            r == spec_lookup_no_parent(*self, c as int, ty_name@, id@, child_to_ignore),
        decreases at_least(*self, self.contexts@[c as int].depth as int),
    {
        let ghost tn = ty_name@;
        let ghost idv = id@;
        if let Some(n) = lookup_registered(&self.contexts[c].registered_nodes, ty_name, id) {
            return Some(n);
        }
        let slot = kids_slot_for_key(
            &self.contexts[c].children_to_search_for_registered_nodes,
            ty_name,
            id,
        );
        let ghost kids_full = kids_for_key(
            self.contexts@[c as int].children_to_search_for_registered_nodes@,
            tn,
            idv,
        );
        proof {
            assert(self.ctx_graph_ok(c as int));
        }
        match slot {
            None => {
                proof {
                    assert(kids_full =~= Seq::<usize>::empty());
                    assert(spec_search_kids(*self, c as int, kids_full, tn, idv, child_to_ignore)
                        is None);
                }
                None
            },
            Some(slot_j) => {
                let n_kids = self.contexts[c].children_to_search_for_registered_nodes[slot_j].1.len();
                let mut k: usize = 0;
                proof {
                    assert(kids_full.skip(0) =~= kids_full);
                }
                while k < n_kids
                    invariant
                        self.wf_graph(),
                        c < self.contexts@.len(),
                        tn == ty_name@,
                        idv == id@,
                        slot_j < self.contexts@[c as int].children_to_search_for_registered_nodes@.len(),
                        kids_full == kids_for_key(
                            self.contexts@[c as int].children_to_search_for_registered_nodes@,
                            tn,
                            idv,
                        ),
                        kids_full == self.contexts@[c as int]
                            .children_to_search_for_registered_nodes@[slot_j as int].1@,
                        find_registered(self.contexts@[c as int].registered_nodes@, tn, idv) is None,
                        n_kids == kids_full.len(),
                        k <= n_kids,
                        spec_search_kids(*self, c as int, kids_full.skip(k as int), tn, idv, child_to_ignore)
                            == spec_search_kids(*self, c as int, kids_full, tn, idv, child_to_ignore),
                    decreases n_kids - k,
                {
                    proof {
                        assert(self.ctx_graph_ok(c as int));
                        assert forall|x: int| 0 <= x < kids_full.len()
                            implies self.kid_ok(c as int, #[trigger] kids_full[x]) by {
                            assert(kids_full[x] == kids_for_key(
                                self.contexts@[c as int].children_to_search_for_registered_nodes@,
                                tn,
                                idv,
                            )[x]);
                        }
                        assert forall|x: int| 0 <= x < kids_full.skip(k as int).len()
                            implies self.kid_ok(c as int, #[trigger] kids_full.skip(k as int)[x]) by {
                            assert(kids_full.skip(k as int)[x] == kids_full[k as int + x]);
                        }
                        assert forall|x: int| 0 <= x < kids_full.skip(k as int + 1).len()
                            implies self.kid_ok(c as int, #[trigger] kids_full.skip(k as int + 1)[x]) by {
                            assert(kids_full.skip(k as int + 1)[x] == kids_full[k as int + 1 + x]);
                        }
                        assert(kids_full.skip(k as int)[0] == kids_full[k as int]);
                        assert(kids_full.skip(k as int).drop_first() =~= kids_full.skip(k as int + 1));
                    }
                    let x = self.contexts[c].children_to_search_for_registered_nodes[slot_j].1[k];
                    let skip_this = match child_to_ignore {
                        Some(ig) => x == ig,
                        None => false,
                    };
                    if !skip_this {
                        proof {
                            assert(self.kid_ok(c as int, x));
                            lemma_at_least_decreases(*self, c as int, x as int);
                        }
                        let sub = self.try_get_registered_node_with_id_no_parent_search(
                            x,
                            ty_name,
                            id,
                            child_to_ignore,
                        );
                        proof {
                            assert(spec_search_kids(*self, c as int, kids_full.skip(k as int), tn, idv, child_to_ignore)
                                == match spec_lookup_no_parent(*self, x as int, tn, idv, child_to_ignore) {
                                    Some(n) => Some(n),
                                    None => spec_search_kids(*self, c as int, kids_full.skip(k as int + 1), tn, idv, child_to_ignore),
                                });
                        }
                        if sub.is_some() {
                            proof {
                                assert(spec_lookup_no_parent(*self, c as int, tn, idv, child_to_ignore)
                                    == spec_search_kids(*self, c as int, kids_full, tn, idv, child_to_ignore));
                            }
                            return sub;
                        }
                    } else {
                        proof {
                            assert(spec_search_kids(*self, c as int, kids_full.skip(k as int), tn, idv, child_to_ignore)
                                == spec_search_kids(*self, c as int, kids_full.skip(k as int + 1), tn, idv, child_to_ignore));
                        }
                    }
                    k += 1;
                }
                proof {
                    assert(kids_full.skip(n_kids as int) =~= Seq::<usize>::empty());
                    assert(spec_search_kids(*self, c as int, kids_full.skip(n_kids as int), tn, idv, child_to_ignore) is None);
                }
                None
            },
        }
    }

    /// Search the context at `c`, its forwarded children, and then its
    /// ancestor chain, each ancestor told to skip the child that delegated
    /// to it.
    fn try_get_registered_node_with_id_impl(
        &self,
        c: usize,
        ty_name: &String,
        id: &String,
        child_to_ignore: Option<usize>,
    ) -> (r: Option<u64>)
        requires
            self.wf_graph(),
            c < self.contexts@.len(),
        ensures
            r == spec_lookup(*self, c as int, ty_name@, id@, child_to_ignore),
        decreases self.contexts@[c as int].depth,
    {
        let search_self_and_children = self.try_get_registered_node_with_id_no_parent_search(
            c,
            ty_name,
            id,
            child_to_ignore,
        );
        if search_self_and_children.is_some() {
            return search_self_and_children;
        }
        proof {
            assert(self.ctx_graph_ok(c as int));
        }
        match self.contexts[c].parent_context {
            Some(p) => self.try_get_registered_node_with_id_impl(p, ty_name, id, Some(c)),
            None => None,
        }
    }

    /// Resolve `(ty_name, id)` from the context at `c`: this context's own
    /// map, then its forwarded children, then its ancestor chain. `None`
    /// when no reachable context holds the key.
    pub fn try_get_registered_node_with_id(
        &self,
        c: usize,
        ty_name: &String,
        id: &String,
    ) -> (r: Option<u64>)
        requires
            self.wf(),
            c < self.contexts@.len(),
        ensures
            r == spec_lookup(*self, c as int, ty_name@, id@, None::<usize>),
    {
        self.try_get_registered_node_with_id_impl(c, ty_name, id, None)
    }

    /// Resolve a type name with the default (empty) instance id.
    pub fn try_get_registered_node(&self, c: usize, ty_name: &String) -> (r: Option<u64>)
        requires
            self.wf(),
            c < self.contexts@.len(),
        ensures
            r == spec_lookup(*self, c as int, ty_name@, Seq::<char>::empty(), None::<usize>),
    {
        let id = String::new();
        self.try_get_registered_node_with_id(c, ty_name, &id)
    }

    /// Resolve `(ty_name, id)`, where the caller vouches the key is bound.
    /// Unlike the `try` variant, a miss here is a fatal configuration
    /// error, so an input that would miss is excluded.
    pub fn get_registered_node_with_id(&self, c: usize, ty_name: &String, id: &String) -> (r: u64)
        requires
            self.wf(),
            c < self.contexts@.len(),
            spec_lookup(*self, c as int, ty_name@, id@, None::<usize>) is Some,
        ensures
            Some(r) == spec_lookup(*self, c as int, ty_name@, id@, None::<usize>),
    {
        self.try_get_registered_node_with_id(c, ty_name, id).unwrap()
    }

    /// Resolve a type name with the default id, where the caller vouches the
    /// key is bound.
    pub fn get_registered_node(&self, c: usize, ty_name: &String) -> (r: u64)
        requires
            self.wf(),
            c < self.contexts@.len(),
            spec_lookup(*self, c as int, ty_name@, Seq::<char>::empty(), None::<usize>) is Some,
        ensures
            Some(r) == spec_lookup(*self, c as int, ty_name@, Seq::<char>::empty(), None::<usize>),
    {
        self.try_get_registered_node(c, ty_name).unwrap()
    }
}


/// Everything a context's subtree yields for a family, without consulting
/// the parent: the local list first, then each forwarded child in order,
/// skipping the ignored child at this level only (the descent itself is
/// unrestricted), results appended in traversal order.
pub open spec fn spec_collect_no_parent(
    reg: DiRegistry,
    c: int,
    f: Seq<char>,
    ignore: Option<usize>,
) -> Seq<u64>
    decreases at_least(reg, reg.contexts@[c].depth as int), 1int, 0int,
        when 0 <= c < reg.contexts@.len() && reg.wf_graph()
{
    let ctx = reg.contexts@[c];
    family_nodes(ctx.multiregistered_nodes@, f) + spec_collect_kids(
        reg,
        c,
        kids_for_family(ctx.children_to_search_for_multiregistered_nodes@, f),
        f,
        ignore,
    )
}

/// Concatenation of the collections of a list of forwarded children of the
/// context at `c`.
pub open spec fn spec_collect_kids(
    reg: DiRegistry,
    c: int,
    kids: Seq<usize>,
    f: Seq<char>,
    ignore: Option<usize>,
) -> Seq<u64>
    decreases at_least(reg, reg.contexts@[c].depth as int), 0int, kids.len(),
        when 0 <= c < reg.contexts@.len() && reg.wf_graph()
            && (forall|k: int| 0 <= k < kids.len() ==> reg.kid_ok(c, #[trigger] kids[k]))
        via spec_collect_kids_dec
{
    if kids.len() == 0 {
        Seq::empty()
    } else if Some(kids[0]) == ignore {
        spec_collect_kids(reg, c, kids.drop_first(), f, ignore)
    } else {
        spec_collect_no_parent(reg, kids[0] as int, f, None) + spec_collect_kids(
            reg,
            c,
            kids.drop_first(),
            f,
            ignore,
        )
    }
}

#[via_fn]
proof fn spec_collect_kids_dec(
    reg: DiRegistry,
    c: int,
    kids: Seq<usize>,
    f: Seq<char>,
    ignore: Option<usize>,
) {
    if kids.len() > 0 {
        assert(reg.kid_ok(c, kids[0]));
        lemma_at_least_decreases(reg, c, kids[0] as int);
    }
}

/// The full gather for a family from the context at `c`: its own subtree
/// first, then the parent's gather appended, the parent told to skip this
/// context in its child search.
pub open spec fn spec_collect(
    reg: DiRegistry,
    c: int,
    f: Seq<char>,
    ignore: Option<usize>,
) -> Seq<u64>
    decreases reg.contexts@[c].depth,
        when 0 <= c < reg.contexts@.len() && reg.wf_graph()
        via spec_collect_dec
{
    spec_collect_no_parent(reg, c, f, ignore) + match reg.contexts@[c].parent_context {
        Some(p) => spec_collect(reg, p as int, f, Some(c as usize)),
        None => Seq::empty(),
    }
}

#[via_fn]
proof fn spec_collect_dec(reg: DiRegistry, c: int, f: Seq<char>, ignore: Option<usize>) {
    assert(reg.ctx_graph_ok(c));
}

impl DiRegistry {
    /// Append to `results` everything the subtree of the context at `c`
    /// yields for the family, without consulting the parent.
    fn get_all_without_searching_parent(
        &self,
        c: usize,
        family: &String,
        results: &mut Vec<u64>,
        excluded_child: Option<usize>,
    )
        requires
            self.wf_graph(),
            c < self.contexts@.len(),
        ensures
            final(results)@ == old(results)@ + spec_collect_no_parent(
                *self,
                c as int,
                family@,
                excluded_child,
            ),
        decreases at_least(*self, self.contexts@[c as int].depth as int),
    {
        let ghost fv = family@;
        let ghost base = results@;
        let ghost local_seq = family_nodes(self.contexts@[c as int].multiregistered_nodes@, fv);
        if let Some(j) = family_slot(&self.contexts[c].multiregistered_nodes, family) {
            let n_local = self.contexts[c].multiregistered_nodes[j].1.len();
            let mut t: usize = 0;
            while t < n_local
                invariant
                    c < self.contexts@.len(),
                    j < self.contexts@[c as int].multiregistered_nodes@.len(),
                    local_seq == self.contexts@[c as int].multiregistered_nodes@[j as int].1@,
                    n_local == local_seq.len(),
                    t <= n_local,
                    results@ == base + local_seq.take(t as int),
                decreases n_local - t,
            {
                let v = self.contexts[c].multiregistered_nodes[j].1[t];
                results.push(v);
                proof {
                    assert(local_seq.take(t as int + 1) =~= local_seq.take(t as int).push(v));
                    assert(base + local_seq.take(t as int).push(v)
                        =~= (base + local_seq.take(t as int)).push(v));
                }
                t += 1;
            }
            proof {
                assert(local_seq.take(n_local as int) =~= local_seq);
            }
        }
        proof {
            assert(results@ == base + local_seq);
        }
        let slot = kids_slot_for_family(
            &self.contexts[c].children_to_search_for_multiregistered_nodes,
            family,
        );
        let ghost kids_full = kids_for_family(
            self.contexts@[c as int].children_to_search_for_multiregistered_nodes@,
            fv,
        );
        proof {
            assert(self.ctx_graph_ok(c as int));
        }
        match slot {
            None => {
                proof {
                    assert(kids_full =~= Seq::<usize>::empty());
                    assert(spec_collect_kids(*self, c as int, kids_full, fv, excluded_child)
                        =~= Seq::<u64>::empty());
                    assert(results@ =~= base + spec_collect_no_parent(*self, c as int, fv, excluded_child));
                }
            },
            Some(slot_j) => {
                let n_kids = self.contexts[c].children_to_search_for_multiregistered_nodes[slot_j].1.len();
                let mut k: usize = 0;
                proof {
                    assert(kids_full.skip(0) =~= kids_full);
                }
                while k < n_kids
                    invariant
                        self.wf_graph(),
                        c < self.contexts@.len(),
                        fv == family@,
                        slot_j < self.contexts@[c as int].children_to_search_for_multiregistered_nodes@.len(),
                        kids_full == kids_for_family(
                            self.contexts@[c as int].children_to_search_for_multiregistered_nodes@,
                            fv,
                        ),
                        kids_full == self.contexts@[c as int]
                            .children_to_search_for_multiregistered_nodes@[slot_j as int].1@,
                        n_kids == kids_full.len(),
                        k <= n_kids,
                        results@ + spec_collect_kids(*self, c as int, kids_full.skip(k as int), fv, excluded_child)
                            == base + local_seq + spec_collect_kids(*self, c as int, kids_full, fv, excluded_child),
                    decreases n_kids - k,
                {
                    proof {
                        assert(self.ctx_graph_ok(c as int));
                        assert forall|x: int| 0 <= x < kids_full.len()
                            implies self.kid_ok(c as int, #[trigger] kids_full[x]) by {
                            assert(kids_full[x] == kids_for_family(
                                self.contexts@[c as int].children_to_search_for_multiregistered_nodes@,
                                fv,
                            )[x]);
                        }
                        assert forall|x: int| 0 <= x < kids_full.skip(k as int).len()
                            implies self.kid_ok(c as int, #[trigger] kids_full.skip(k as int)[x]) by {
                            assert(kids_full.skip(k as int)[x] == kids_full[k as int + x]);
                        }
                        assert forall|x: int| 0 <= x < kids_full.skip(k as int + 1).len()
                            implies self.kid_ok(c as int, #[trigger] kids_full.skip(k as int + 1)[x]) by {
                            assert(kids_full.skip(k as int + 1)[x] == kids_full[k as int + 1 + x]);
                        }
                        assert(kids_full.skip(k as int)[0] == kids_full[k as int]);
                        assert(kids_full.skip(k as int).drop_first() =~= kids_full.skip(k as int + 1));
                    }
                    let x = self.contexts[c].children_to_search_for_multiregistered_nodes[slot_j].1[k];
                    let skip_this = match excluded_child {
                        Some(ig) => x == ig,
                        None => false,
                    };
                    if !skip_this {
                        proof {
                            assert(self.kid_ok(c as int, x));
                            lemma_at_least_decreases(*self, c as int, x as int);
                        }
                        let ghost results_pre = results@;
                        self.get_all_without_searching_parent(x, family, results, None);
                        proof {
                            let sub = spec_collect_no_parent(*self, x as int, fv, None::<usize>);
                            let rest = spec_collect_kids(*self, c as int, kids_full.skip(k as int + 1), fv, excluded_child);
                            assert(spec_collect_kids(*self, c as int, kids_full.skip(k as int), fv, excluded_child)
                                == sub + rest);
                            assert((results_pre + sub) + rest =~= results_pre + (sub + rest));
                        }
                    } else {
                        proof {
                            assert(spec_collect_kids(*self, c as int, kids_full.skip(k as int), fv, excluded_child)
                                == spec_collect_kids(*self, c as int, kids_full.skip(k as int + 1), fv, excluded_child));
                        }
                    }
                    k += 1;
                }
                proof {
                    assert(kids_full.skip(n_kids as int) =~= Seq::<usize>::empty());
                    assert(spec_collect_kids(*self, c as int, kids_full.skip(n_kids as int), fv, excluded_child)
                        =~= Seq::<u64>::empty());
                    assert(results@ + Seq::<u64>::empty() =~= results@);
                    assert(results@ =~= base + spec_collect_no_parent(*self, c as int, fv, excluded_child));
                }
            },
        }
    }

    /// Append to `results` the full gather for the family from the context
    /// at `c`: its subtree, then each ancestor's subtree in turn.
    fn get_all_impl(&self, c: usize, family: &String, results: &mut Vec<u64>, excluded_child: Option<usize>)
        requires
            self.wf_graph(),
            c < self.contexts@.len(),
        ensures
            final(results)@ == old(results)@ + spec_collect(*self, c as int, family@, excluded_child),
        decreases self.contexts@[c as int].depth,
    {
        let ghost fv = family@;
        let ghost base = results@;
        self.get_all_without_searching_parent(c, family, results, excluded_child);
        proof {
            assert(self.ctx_graph_ok(c as int));
        }
        let ghost own = spec_collect_no_parent(*self, c as int, fv, excluded_child);
        match self.contexts[c].parent_context {
            Some(p) => {
                self.get_all_impl(p, family, results, Some(c));
                proof {
                    let up = spec_collect(*self, p as int, fv, Some(c));
                    assert((base + own) + up =~= base + (own + up));
                }
            },
            None => {
                proof {
                    assert(own + Seq::<u64>::empty() =~= own);
                }
            },
        }
    }

    /// Everything reachable for a family from the context at `c`: this
    /// context's list, its forwarded children's collections, then each
    /// ancestor's, appended in that order.
    pub fn get_all(&self, c: usize, family: &String) -> (r: Vec<u64>)
        requires
            self.wf(),
            c < self.contexts@.len(),
        ensures
            r@ == spec_collect(*self, c as int, family@, None::<usize>),
    {
        let mut results: Vec<u64> = Vec::new();
        self.get_all_impl(c, family, &mut results, None);
        proof {
            assert(Seq::<u64>::empty() + spec_collect(*self, c as int, family@, None::<usize>)
                =~= spec_collect(*self, c as int, family@, None::<usize>));
        }
        results
    }
}


/// Changes that touch only a context's registration maps (never the
/// forwarding lists, parent references, depths, attachment flags, or the
/// tree-membership index) preserve registry well-formedness.
proof fn lemma_wf_preserved_nonstructural(pre: DiRegistry, post: DiRegistry)
    requires
        pre.wf(),
        post.contexts@.len() == pre.contexts@.len(),
        post.node_index@ == pre.node_index@,
        forall|i: int| 0 <= i < pre.contexts@.len() ==> {
            let a = #[trigger] post.contexts@[i];
            let b = pre.contexts@[i];
            &&& a.children_to_search_for_registered_nodes == b.children_to_search_for_registered_nodes
            &&& a.children_to_search_for_multiregistered_nodes
                == b.children_to_search_for_multiregistered_nodes
            &&& a.parent_context == b.parent_context
            &&& a.depth == b.depth
            &&& a.attached == b.attached
        },
    ensures
        post.wf(),
{
    assert forall|i: int| 0 <= i < post.contexts@.len() implies #[trigger] post.ctx_graph_ok(i) by {
        assert(pre.ctx_graph_ok(i));
        let c = post.contexts@[i];
        assert forall|tn: Seq<char>, idv: Seq<char>, k: int|
            0 <= k < kids_for_key(c.children_to_search_for_registered_nodes@, tn, idv).len()
                implies post.kid_ok(i, #[trigger] kids_for_key(c.children_to_search_for_registered_nodes@, tn, idv)[k])
        by {
            let x = kids_for_key(c.children_to_search_for_registered_nodes@, tn, idv)[k];
            assert(kids_for_key(pre.contexts@[i].children_to_search_for_registered_nodes@, tn, idv)
                == kids_for_key(c.children_to_search_for_registered_nodes@, tn, idv));
            assert(pre.kid_ok(i, x));
        }
        assert forall|f: Seq<char>, k: int|
            0 <= k < kids_for_family(c.children_to_search_for_multiregistered_nodes@, f).len()
                implies post.kid_ok(i, #[trigger] kids_for_family(c.children_to_search_for_multiregistered_nodes@, f)[k])
        by {
            let x = kids_for_family(c.children_to_search_for_multiregistered_nodes@, f)[k];
            assert(kids_for_family(pre.contexts@[i].children_to_search_for_multiregistered_nodes@, f)
                == kids_for_family(c.children_to_search_for_multiregistered_nodes@, f));
            assert(pre.kid_ok(i, x));
        }
    }
}

impl DiRegistry {
    /// Insert `(ty_name, id) -> node` into the local map of the context at
    /// `c`, overwriting any prior entry for that exact key.
    pub fn register_with_type(&mut self, c: usize, node: u64, ty_name: String, id: String)
        requires
            old(self).wf(),
            c < old(self).contexts@.len(),
        ensures
            final(self).wf(),
            final(self).contexts@.len() == old(self).contexts@.len(),
            final(self).node_index == old(self).node_index,
            forall|tn: Seq<char>, i: Seq<char>|
                #[trigger] find_registered(final(self).contexts@[c as int].registered_nodes@, tn, i)
                    == if tn == ty_name@ && i == id@ {
                        Some(node)
                    } else {
                        find_registered(old(self).contexts@[c as int].registered_nodes@, tn, i)
                    },
            forall|i: int| 0 <= i < old(self).contexts@.len() && i != c
                ==> final(self).contexts@[i] == old(self).contexts@[i],
            ctx_same_but_registered(final(self).contexts@[c as int], old(self).contexts@[c as int]),
    {
        self.contexts[c].register_with_type(node, ty_name, id);
        proof {
            lemma_wf_preserved_nonstructural(*old(self), *self);
        }
    }

    /// Register a node under the name it reports itself: its custom naming
    /// capability when present, its intrinsic class name otherwise.
    pub fn register(&mut self, tree: &HostTree, c: usize, node: u64, id: String)
        requires
            old(self).wf(),
            c < old(self).contexts@.len(),
            tree.wf(),
            tree.spec_has_node(node),
        ensures
            final(self).wf(),
            final(self).contexts@.len() == old(self).contexts@.len(),
            final(self).node_index == old(self).node_index,
            forall|tn: Seq<char>, i: Seq<char>|
                #[trigger] find_registered(final(self).contexts@[c as int].registered_nodes@, tn, i)
                    == if tn == crate::di_context::spec_registration_name(*tree, node) && i == id@ {
                        Some(node)
                    } else {
                        find_registered(old(self).contexts@[c as int].registered_nodes@, tn, i)
                    },
            forall|i: int| 0 <= i < old(self).contexts@.len() && i != c
                ==> final(self).contexts@[i] == old(self).contexts@[i],
            ctx_same_but_registered(final(self).contexts@[c as int], old(self).contexts@[c as int]),
    {
        self.contexts[c].register(tree, node, id);
        proof {
            lemma_wf_preserved_nonstructural(*old(self), *self);
        }
    }

    /// Append `node` to the family's ordered list in the context at `c`.
    pub fn multiregister(&mut self, c: usize, node: u64, key: String)
        requires
            old(self).wf(),
            c < old(self).contexts@.len(),
        ensures
            final(self).wf(),
            final(self).contexts@.len() == old(self).contexts@.len(),
            final(self).node_index == old(self).node_index,
            forall|f: Seq<char>|
                #[trigger] family_nodes(final(self).contexts@[c as int].multiregistered_nodes@, f)
                    == if f == key@ {
                        family_nodes(old(self).contexts@[c as int].multiregistered_nodes@, f).push(node)
                    } else {
                        family_nodes(old(self).contexts@[c as int].multiregistered_nodes@, f)
                    },
            forall|i: int| 0 <= i < old(self).contexts@.len() && i != c
                ==> final(self).contexts@[i] == old(self).contexts@[i],
            ctx_same_but_multiregistered(final(self).contexts@[c as int], old(self).contexts@[c as int]),
    {
        self.contexts[c].multiregister(node, key);
        proof {
            lemma_wf_preserved_nonstructural(*old(self), *self);
        }
    }

    /// Multi-register a node under its intrinsic class name.
    pub fn multiregister_auto_type(&mut self, tree: &HostTree, c: usize, node: u64)
        requires
            old(self).wf(),
            c < old(self).contexts@.len(),
            tree.wf(),
            tree.spec_has_node(node),
        ensures
            final(self).wf(),
            final(self).contexts@.len() == old(self).contexts@.len(),
            final(self).node_index == old(self).node_index,
            forall|f: Seq<char>|
                #[trigger] family_nodes(final(self).contexts@[c as int].multiregistered_nodes@, f)
                    == if f == tree.spec_class_name(node) {
                        family_nodes(old(self).contexts@[c as int].multiregistered_nodes@, f).push(node)
                    } else {
                        family_nodes(old(self).contexts@[c as int].multiregistered_nodes@, f)
                    },
            forall|i: int| 0 <= i < old(self).contexts@.len() && i != c
                ==> final(self).contexts@[i] == old(self).contexts@[i],
            ctx_same_but_multiregistered(final(self).contexts@[c as int], old(self).contexts@[c as int]),
    {
        self.contexts[c].multiregister_auto_type(tree, node);
        proof {
            lemma_wf_preserved_nonstructural(*old(self), *self);
        }
    }
}

/// Two context states that differ at most in their single-value
/// registration map.
pub open spec fn ctx_same_but_registered(a: DiContext, b: DiContext) -> bool {
    &&& a.attached == b.attached
    &&& a.depth == b.depth
    &&& a.parent_context == b.parent_context
    &&& a.multiregistered_nodes == b.multiregistered_nodes
    &&& a.children_to_search_for_registered_nodes == b.children_to_search_for_registered_nodes
    &&& a.children_to_search_for_multiregistered_nodes == b.children_to_search_for_multiregistered_nodes
    &&& a.verbose_logging_name == b.verbose_logging_name
    &&& a.re_register_in_parent == b.re_register_in_parent
    &&& a.re_multiregister_in_parent == b.re_multiregister_in_parent
}

/// Two context states that differ at most in their multi-registration map.
pub open spec fn ctx_same_but_multiregistered(a: DiContext, b: DiContext) -> bool {
    &&& a.attached == b.attached
    &&& a.depth == b.depth
    &&& a.parent_context == b.parent_context
    &&& a.registered_nodes == b.registered_nodes
    &&& a.children_to_search_for_registered_nodes == b.children_to_search_for_registered_nodes
    &&& a.children_to_search_for_multiregistered_nodes == b.children_to_search_for_multiregistered_nodes
    &&& a.verbose_logging_name == b.verbose_logging_name
    &&& a.re_register_in_parent == b.re_register_in_parent
    &&& a.re_multiregister_in_parent == b.re_multiregister_in_parent
}


/// A hit of `index_lookup` at the first slot carrying the key.
proof fn lemma_index_lookup_at(s: Seq<(u64, usize)>, j: int)
    requires
        0 <= j < s.len(),
        forall|k: int| 0 <= k < j ==> (#[trigger] s[k]).0 != s[j].0,
    ensures
        index_lookup(s, s[j].0) == Some(s[j].1),
    decreases s.len(),
{
    if j > 0 {
        assert(s.drop_first()[j - 1] == s[j]);
        assert forall|k: int| 0 <= k < j - 1 implies (#[trigger] s.drop_first()[k]).0 != s.drop_first()[j - 1].0 by {
            assert(s.drop_first()[k] == s[k + 1]);
        }
        lemma_index_lookup_at(s.drop_first(), j - 1);
    }
}

/// What `index_lookup` reports is borne out by the slots: a miss means no
/// slot carries the key, a hit names a slot that does.
proof fn lemma_index_lookup_props(s: Seq<(u64, usize)>, n: u64)
    ensures
        index_lookup(s, n) is None <==> forall|j: int| 0 <= j < s.len() ==> (#[trigger] s[j]).0 != n,
        index_lookup(s, n) is Some ==> exists|j: int|
            0 <= j < s.len() && #[trigger] s[j] == (n, index_lookup(s, n).unwrap()),
    decreases s.len(),
{
    if s.len() > 0 {
        if s[0].0 == n {
            assert(s[0] == (n, index_lookup(s, n).unwrap()));
        } else {
            lemma_index_lookup_props(s.drop_first(), n);
            if index_lookup(s, n) is Some {
                let j0 = choose|j: int|
                    0 <= j < s.drop_first().len()
                        && #[trigger] s.drop_first()[j] == (n, index_lookup(s.drop_first(), n).unwrap());
                assert(s[j0 + 1] == s.drop_first()[j0]);
            } else {
                assert forall|j: int| 0 <= j < s.len() implies (#[trigger] s[j]).0 != n by {
                    if j > 0 {
                        assert(s.drop_first()[j - 1] == s[j]);
                    }
                }
            }
        }
    }
}

/// Removing a slot from an index with pairwise distinct keys removes exactly
/// that slot's key from the map.
proof fn lemma_index_lookup_remove(s: Seq<(u64, usize)>, j: int)
    requires
        0 <= j < s.len(),
        forall|a: int, b: int| 0 <= a < b < s.len() ==> (#[trigger] s[a]).0 != (#[trigger] s[b]).0,
    ensures
        forall|n: u64| #[trigger] index_lookup(s.remove(j), n)
            == if n == s[j].0 { None::<usize> } else { index_lookup(s, n) },
    decreases s.len(),
{
    assert forall|n: u64| #[trigger] index_lookup(s.remove(j), n)
        == if n == s[j].0 { None::<usize> } else { index_lookup(s, n) } by {
        s.remove_ensures(j);
        if j == 0 {
            assert(s.remove(0) =~= s.drop_first());
            if n == s[0].0 {
                lemma_index_lookup_props(s.drop_first(), n);
                assert forall|k: int| 0 <= k < s.drop_first().len()
                    implies (#[trigger] s.drop_first()[k]).0 != n by {
                    assert(s.drop_first()[k] == s[k + 1]);
                }
                assert(index_lookup(s.drop_first(), n) is None);
            } else {
                assert(index_lookup(s, n) == index_lookup(s.drop_first(), n));
            }
        } else {
            assert(s.remove(j)[0] == s[0]);
            assert(s.remove(j).drop_first() =~= s.drop_first().remove(j - 1));
            assert(s.drop_first()[j - 1] == s[j]);
            assert forall|a: int, b: int| 0 <= a < b < s.drop_first().len()
                implies (#[trigger] s.drop_first()[a]).0 != (#[trigger] s.drop_first()[b]).0 by {
                assert(s.drop_first()[a] == s[a + 1]);
                assert(s.drop_first()[b] == s[b + 1]);
            }
            lemma_index_lookup_remove(s.drop_first(), j - 1);
            if n == s[j].0 {
                assert(s[0].0 != s[j].0);
                assert(index_lookup(s.remove(j), n) == index_lookup(s.drop_first().remove(j - 1), n));
            } else if n == s[0].0 {
            } else {
                assert(index_lookup(s.remove(j), n) == index_lookup(s.drop_first().remove(j - 1), n));
                assert(index_lookup(s, n) == index_lookup(s.drop_first(), n));
            }
        }
    }
}

impl DiRegistry {
    /// Take a context out of the live tree: drop its entry from the
    /// tree-membership index (found by the context's identity, not by its
    /// anchor), remove its identity from every other context's forwarding
    /// lists, and drop its own forwarding lists. Its registrations, its
    /// configuration, and its recorded parent reference stay as they are; a
    /// later attach resolves the parent afresh.
    pub fn detach(&mut self, c: usize)
        requires
            old(self).wf(),
            c < old(self).contexts@.len(),
            old(self).contexts@[c as int].attached,
        ensures
            final(self).wf(),
            final(self).contexts@.len() == old(self).contexts@.len(),
            !final(self).contexts@[c as int].attached,
            final(self).contexts@[c as int].depth == old(self).contexts@[c as int].depth,
            final(self).contexts@[c as int].parent_context == old(self).contexts@[c as int].parent_context,
            final(self).contexts@[c as int].registered_nodes == old(self).contexts@[c as int].registered_nodes,
            final(self).contexts@[c as int].multiregistered_nodes
                == old(self).contexts@[c as int].multiregistered_nodes,
            final(self).contexts@[c as int].children_to_search_for_registered_nodes@.len() == 0,
            final(self).contexts@[c as int].children_to_search_for_multiregistered_nodes@.len() == 0,
            final(self).contexts@[c as int].verbose_logging_name
                == old(self).contexts@[c as int].verbose_logging_name,
            final(self).contexts@[c as int].re_register_in_parent
                == old(self).contexts@[c as int].re_register_in_parent,
            final(self).contexts@[c as int].re_multiregister_in_parent
                == old(self).contexts@[c as int].re_multiregister_in_parent,
            forall|i: int| 0 <= i < old(self).contexts@.len() && i != c ==> {
                let a = #[trigger] final(self).contexts@[i];
                let b = old(self).contexts@[i];
                &&& a.attached == b.attached
                &&& a.depth == b.depth
                &&& a.parent_context == b.parent_context
                &&& a.registered_nodes == b.registered_nodes
                &&& a.multiregistered_nodes == b.multiregistered_nodes
                &&& a.verbose_logging_name == b.verbose_logging_name
                &&& a.re_register_in_parent == b.re_register_in_parent
                &&& a.re_multiregister_in_parent == b.re_multiregister_in_parent
            },
            forall|i: int, tn: Seq<char>, idv: Seq<char>| 0 <= i < old(self).contexts@.len() && i != c
                ==> #[trigger] kids_for_key(
                        final(self).contexts@[i].children_to_search_for_registered_nodes@, tn, idv)
                    == remove_kid(kids_for_key(
                        old(self).contexts@[i].children_to_search_for_registered_nodes@, tn, idv), c),
            forall|i: int, f: Seq<char>| 0 <= i < old(self).contexts@.len() && i != c
                ==> #[trigger] kids_for_family(
                        final(self).contexts@[i].children_to_search_for_multiregistered_nodes@, f)
                    == remove_kid(kids_for_family(
                        old(self).contexts@[i].children_to_search_for_multiregistered_nodes@, f), c),
            forall|n: u64| #[trigger] index_lookup(final(self).node_index@, n)
                == if index_lookup(old(self).node_index@, n) == Some(c) {
                    None::<usize>
                } else {
                    index_lookup(old(self).node_index@, n)
                },
    {
        let n_ctx = self.contexts.len();
        let mut i: usize = 0;
        while i < n_ctx
            invariant
                n_ctx == self.contexts@.len(),
                n_ctx == old(self).contexts@.len(),
                c < n_ctx,
                i <= n_ctx,
                self.node_index == old(self).node_index,
                forall|x: int| i <= x < n_ctx ==> #[trigger] self.contexts@[x] == old(self).contexts@[x],
                forall|x: int| 0 <= x < i && x != c ==> {
                    let a = #[trigger] self.contexts@[x];
                    let b = old(self).contexts@[x];
                    &&& a.attached == b.attached
                    &&& a.depth == b.depth
                    &&& a.parent_context == b.parent_context
                    &&& a.registered_nodes == b.registered_nodes
                    &&& a.multiregistered_nodes == b.multiregistered_nodes
                    &&& a.verbose_logging_name == b.verbose_logging_name
                    &&& a.re_register_in_parent == b.re_register_in_parent
                    &&& a.re_multiregister_in_parent == b.re_multiregister_in_parent
                },
                forall|x: int, tn: Seq<char>, idv: Seq<char>| 0 <= x < i && x != c
                    ==> #[trigger] kids_for_key(
                            self.contexts@[x].children_to_search_for_registered_nodes@, tn, idv)
                        == remove_kid(kids_for_key(
                            old(self).contexts@[x].children_to_search_for_registered_nodes@, tn, idv), c),
                forall|x: int, f: Seq<char>| 0 <= x < i && x != c
                    ==> #[trigger] kids_for_family(
                            self.contexts@[x].children_to_search_for_multiregistered_nodes@, f)
                        == remove_kid(kids_for_family(
                            old(self).contexts@[x].children_to_search_for_multiregistered_nodes@, f), c),
                forall|x: int| 0 <= x < i && x != c ==> {
                    let a = #[trigger] self.contexts@[x];
                    let b = old(self).contexts@[x];
                    a.children_to_search_for_registered_nodes@.len()
                        == b.children_to_search_for_registered_nodes@.len()
                    && a.children_to_search_for_multiregistered_nodes@.len()
                        == b.children_to_search_for_multiregistered_nodes@.len()
                },
                i > c ==> {
                    let a = self.contexts@[c as int];
                    let b = old(self).contexts@[c as int];
                    &&& a.attached == b.attached
                    &&& a.depth == b.depth
                    &&& a.parent_context == b.parent_context
                    &&& a.registered_nodes == b.registered_nodes
                    &&& a.multiregistered_nodes == b.multiregistered_nodes
                    &&& a.verbose_logging_name == b.verbose_logging_name
                    &&& a.re_register_in_parent == b.re_register_in_parent
                    &&& a.re_multiregister_in_parent == b.re_multiregister_in_parent
                    &&& a.children_to_search_for_registered_nodes@.len() == 0
                    &&& a.children_to_search_for_multiregistered_nodes@.len() == 0
                },
            decreases n_ctx - i,
        {
            if i == c {
                self.contexts[i].clear_children_lists();
            } else {
                self.contexts[i].purge_child(c);
            }
            i += 1;
        }
        let ni = self.node_index.len();
        let mut j: usize = 0;
        let mut found: Option<usize> = None;
        while j < ni
            invariant
                ni == self.node_index@.len(),
                self.node_index == old(self).node_index,
                j <= ni,
                match found {
                    Some(fj) => fj < ni && self.node_index@[fj as int].1 == c,
                    None => forall|k: int| 0 <= k < j ==> (#[trigger] self.node_index@[k]).1 != c,
                },
            decreases ni - j,
        {
            if found.is_none() && self.node_index[j].1 == c {
                found = Some(j);
            }
            j += 1;
        }
        let ghost mid = *self;
        match found {
            Some(fj) => {
                proof {
                    assert(self.node_index@ == old(self).node_index@);
                    lemma_index_lookup_remove(self.node_index@, fj as int);
                    lemma_index_lookup_at(self.node_index@, fj as int);
                    self.node_index@.remove_ensures(fj as int);
                }
                self.node_index.remove(fj);
                self.contexts[c].attached = false;
                proof {
                    lemma_detach_wf(*old(self), *self, c, fj as int);
                    let s = old(self).node_index@;
                    assert forall|n: u64| #[trigger] index_lookup(self.node_index@, n)
                        == if index_lookup(s, n) == Some(c) {
                            None::<usize>
                        } else {
                            index_lookup(s, n)
                        }
                    by {
                        lemma_index_lookup_props(s, n);
                        let fji = fj as int;
                        if index_lookup(s, n) == Some(c) {
                            let j2 = choose|j2: int| 0 <= j2 < s.len() && #[trigger] s[j2] == (n, c);
                            assert(j2 == fji) by {
                                if j2 != fji {
                                    if j2 < fji {
                                        assert(s[j2].1 != s[fji].1);
                                    } else {
                                        assert(s[fji].1 != s[j2].1);
                                    }
                                }
                            }
                            assert(n == s[fji].0);
                        } else {
                            if n == s[fji].0 {
                                assert(index_lookup(s, n) == Some(c));
                            }
                        }
                    }
                }
            },
            None => {
                proof {
                    // well-formedness guarantees an index entry for every
                    // attached context, so the scan cannot miss
                    assert(old(self).contexts@[c as int].attached);
                    let j2 = choose|j2: int| 0 <= j2 < old(self).node_index@.len()
                        && (#[trigger] old(self).node_index@[j2]).1 == c;
                    assert(self.node_index@[j2].1 == c);
                    assert(false);
                }
            },
        }
    }
}

/// After the purge pass, removing the detached context's index entry and
/// clearing its attached flag restores full well-formedness.
proof fn lemma_detach_wf(pre: DiRegistry, post: DiRegistry, c: usize, fj: int)
    requires
        pre.wf(),
        c < pre.contexts@.len(),
        pre.contexts@[c as int].attached,
        post.contexts@.len() == pre.contexts@.len(),
        0 <= fj < pre.node_index@.len(),
        pre.node_index@[fj].1 == c,
        post.node_index@ == pre.node_index@.remove(fj),
        !post.contexts@[c as int].attached,
        post.contexts@[c as int].depth == pre.contexts@[c as int].depth,
        post.contexts@[c as int].parent_context == pre.contexts@[c as int].parent_context,
        post.contexts@[c as int].children_to_search_for_registered_nodes@.len() == 0,
        post.contexts@[c as int].children_to_search_for_multiregistered_nodes@.len() == 0,
        forall|i: int| 0 <= i < pre.contexts@.len() && i != c ==> {
            let a = #[trigger] post.contexts@[i];
            let b = pre.contexts@[i];
            &&& a.attached == b.attached
            &&& a.depth == b.depth
            &&& a.parent_context == b.parent_context
        },
        forall|i: int, tn: Seq<char>, idv: Seq<char>| 0 <= i < pre.contexts@.len() && i != c
            ==> #[trigger] kids_for_key(
                    post.contexts@[i].children_to_search_for_registered_nodes@, tn, idv)
                == remove_kid(kids_for_key(
                    pre.contexts@[i].children_to_search_for_registered_nodes@, tn, idv), c),
        forall|i: int, f: Seq<char>| 0 <= i < pre.contexts@.len() && i != c
            ==> #[trigger] kids_for_family(
                    post.contexts@[i].children_to_search_for_multiregistered_nodes@, f)
                == remove_kid(kids_for_family(
                    pre.contexts@[i].children_to_search_for_multiregistered_nodes@, f), c),
        forall|i: int| 0 <= i < pre.contexts@.len() && i != c ==> {
            let a = #[trigger] post.contexts@[i];
            let b = pre.contexts@[i];
            a.children_to_search_for_registered_nodes@.len()
                == b.children_to_search_for_registered_nodes@.len()
            && a.children_to_search_for_multiregistered_nodes@.len()
                == b.children_to_search_for_multiregistered_nodes@.len()
        },
    ensures
        post.wf(),
{
    pre.node_index@.remove_ensures(fj);
    assert forall|i: int| 0 <= i < post.contexts@.len() implies #[trigger] post.ctx_graph_ok(i) by {
        assert(pre.ctx_graph_ok(i));
        let a = post.contexts@[i];
        let b = pre.contexts@[i];
        if i == c {
            assert forall|tn: Seq<char>, idv: Seq<char>, k: int|
                0 <= k < kids_for_key(a.children_to_search_for_registered_nodes@, tn, idv).len()
                    implies post.kid_ok(i, #[trigger] kids_for_key(a.children_to_search_for_registered_nodes@, tn, idv)[k])
            by {
                lemma_kids_empty_vec(a.children_to_search_for_registered_nodes@, tn, idv);
            }
            assert forall|f: Seq<char>, k: int|
                0 <= k < kids_for_family(a.children_to_search_for_multiregistered_nodes@, f).len()
                    implies post.kid_ok(i, #[trigger] kids_for_family(a.children_to_search_for_multiregistered_nodes@, f)[k])
            by {
                lemma_kids_family_empty_vec(a.children_to_search_for_multiregistered_nodes@, f);
            }
            match a.parent_context {
                Some(p) => {
                    assert(b.parent_context == Some(p));
                    assert(post.contexts@[p as int].depth == pre.contexts@[p as int].depth);
                },
                None => {},
            }
        } else {
            assert forall|tn: Seq<char>, idv: Seq<char>, k: int|
                0 <= k < kids_for_key(a.children_to_search_for_registered_nodes@, tn, idv).len()
                    implies post.kid_ok(i, #[trigger] kids_for_key(a.children_to_search_for_registered_nodes@, tn, idv)[k])
            by {
                let old_kids = kids_for_key(b.children_to_search_for_registered_nodes@, tn, idv);
                let new_kids = kids_for_key(a.children_to_search_for_registered_nodes@, tn, idv);
                assert(new_kids == remove_kid(old_kids, c));
                lemma_remove_kid_members(old_kids, c);
                let e = new_kids[k];
                assert(e != c && old_kids.contains(e));
                let w = choose|w: int| 0 <= w < old_kids.len() && old_kids[w] == e;
                assert(pre.kid_ok(i, old_kids[w]));
                assert(post.contexts@[e as int].attached == pre.contexts@[e as int].attached);
                assert(post.contexts@[e as int].depth == pre.contexts@[e as int].depth);
            }
            assert forall|f: Seq<char>, k: int|
                0 <= k < kids_for_family(a.children_to_search_for_multiregistered_nodes@, f).len()
                    implies post.kid_ok(i, #[trigger] kids_for_family(a.children_to_search_for_multiregistered_nodes@, f)[k])
            by {
                let old_kids = kids_for_family(b.children_to_search_for_multiregistered_nodes@, f);
                let new_kids = kids_for_family(a.children_to_search_for_multiregistered_nodes@, f);
                assert(new_kids == remove_kid(old_kids, c));
                lemma_remove_kid_members(old_kids, c);
                let e = new_kids[k];
                assert(e != c && old_kids.contains(e));
                let w = choose|w: int| 0 <= w < old_kids.len() && old_kids[w] == e;
                assert(pre.kid_ok(i, old_kids[w]));
                assert(post.contexts@[e as int].attached == pre.contexts@[e as int].attached);
                assert(post.contexts@[e as int].depth == pre.contexts@[e as int].depth);
            }
            match a.parent_context {
                Some(p) => {
                    assert(b.parent_context == Some(p));
                    assert(post.contexts@[p as int].depth == pre.contexts@[p as int].depth);
                },
                None => {},
            }
            if !a.attached {
                assert(!b.attached);
                assert(b.children_to_search_for_registered_nodes@.len() == 0);
                assert(b.children_to_search_for_multiregistered_nodes@.len() == 0);
            }
        }
    }
    // the tree-membership index
    let s = pre.node_index@;
    let s2 = post.node_index@;
    assert forall|a: int, b2: int| 0 <= a < b2 < s2.len()
        implies (#[trigger] s2[a]).0 != (#[trigger] s2[b2]).0 && s2[a].1 != s2[b2].1 by {
        let a0 = if a < fj { a } else { a + 1 };
        let b0 = if b2 < fj { b2 } else { b2 + 1 };
        assert(s2[a] == s[a0]);
        assert(s2[b2] == s[b0]);
    }
    assert forall|j: int| 0 <= j < s2.len() implies {
        let e = #[trigger] s2[j];
        e.1 < post.contexts@.len() && post.contexts@[e.1 as int].attached
    } by {
        let j0 = if j < fj { j } else { j + 1 };
        assert(s2[j] == s[j0]);
        assert(s[j0].1 < pre.contexts@.len() && pre.contexts@[s[j0].1 as int].attached);
        assert(s[j0].1 != c || j0 == fj);
        if j0 != fj {
            assert(s[j0].1 != c) by {
                if s[j0].1 == c {
                    if j0 < fj {
                        assert(s[j0].1 != s[fj].1);
                    } else {
                        assert(s[fj].1 != s[j0].1);
                    }
                }
            }
        }
    }
    assert forall|i: int| 0 <= i < post.contexts@.len() && (#[trigger] post.contexts@[i]).attached
        implies exists|j: int| 0 <= j < s2.len() && (#[trigger] s2[j]).1 == i by {
        assert(i != c);
        assert(pre.contexts@[i].attached);
        let j0 = choose|j0: int| 0 <= j0 < s.len() && (#[trigger] s[j0]).1 == i;
        assert(j0 != fj);
        if j0 < fj {
            assert(s2[j0] == s[j0]);
        } else {
            assert(s2[j0 - 1] == s[j0]);
        }
    }
}

/// A forwarding map held in an empty vector is empty at every key.
proof fn lemma_kids_empty_vec(s: Seq<(RegistrationKey, Vec<usize>)>, tn: Seq<char>, idv: Seq<char>)
    requires
        s.len() == 0,
    ensures
        kids_for_key(s, tn, idv) == Seq::<usize>::empty(),
{
}

/// A forwarding map held in an empty vector is empty at every family.
proof fn lemma_kids_family_empty_vec(s: Seq<(String, Vec<usize>)>, f: Seq<char>)
    requires
        s.len() == 0,
    ensures
        kids_for_family(s, f) == Seq::<usize>::empty(),
{
}


/// Whatever the nearest-context walk returns is a live context in the
/// arena.
proof fn lemma_nearest_valid(reg: DiRegistry, tree: HostTree, node: u64)
    requires
        reg.wf_index(),
        tree.wf(),
        tree.spec_has_node(node),
    ensures
        match reg.spec_nearest(tree, node) {
            Some(p) => p < reg.contexts@.len() && reg.contexts@[p as int].attached,
            None => true,
        },
    decreases tree.spec_depth(node),
{
    lemma_index_lookup_props(reg.node_index@, node);
    match index_lookup(reg.node_index@, node) {
        Some(cx) => {
            let j = choose|j: int| 0 <= j < reg.node_index@.len()
                && #[trigger] reg.node_index@[j] == (node, cx);
        },
        None => {
            match tree.spec_parent(node) {
                Some(p) => {
                    lemma_nearest_valid(reg, tree, p);
                },
                None => {},
            }
        },
    }
}

impl DiRegistry {
    /// Put a context into the live tree under the host node `anchor`:
    /// record the anchor in the tree-membership index, resolve the parent
    /// context by walking up from the anchor's parent through the current
    /// index (never meeting the context being attached), and push the
    /// context's declared re-registrations into the parent found. Any stale
    /// reference another context still holds to this one from an earlier
    /// attachment is dropped first.
    ///
    /// The depth bound on every context is a machine limit: one more level
    /// must still be representable.
    pub fn attach(&mut self, tree: &HostTree, c: usize, anchor: u64)
        requires
            old(self).wf(),
            tree.wf(),
            c < old(self).contexts@.len(),
            !old(self).contexts@[c as int].attached,
            tree.spec_has_node(anchor),
            index_lookup(old(self).node_index@, anchor) is None,
            forall|i: int| 0 <= i < old(self).contexts@.len()
                ==> (#[trigger] old(self).contexts@[i]).depth < usize::MAX,
        ensures
            final(self).wf(),
            final(self).contexts@.len() == old(self).contexts@.len(),
            final(self).contexts@[c as int].attached,
            final(self).contexts@[c as int].parent_context
                == old(self).spec_nearest_exclude(*tree, anchor),
            final(self).contexts@[c as int].registered_nodes
                == old(self).contexts@[c as int].registered_nodes,
            final(self).contexts@[c as int].multiregistered_nodes
                == old(self).contexts@[c as int].multiregistered_nodes,
            final(self).contexts@[c as int].verbose_logging_name
                == old(self).contexts@[c as int].verbose_logging_name,
            final(self).contexts@[c as int].re_register_in_parent
                == old(self).contexts@[c as int].re_register_in_parent,
            final(self).contexts@[c as int].re_multiregister_in_parent
                == old(self).contexts@[c as int].re_multiregister_in_parent,
            forall|n: u64| #[trigger] index_lookup(final(self).node_index@, n)
                == if n == anchor { Some(c) } else { index_lookup(old(self).node_index@, n) },
            match old(self).spec_nearest_exclude(*tree, anchor) {
                Some(p) => {
                    &&& forall|tn: Seq<char>, i: Seq<char>|
                        #[trigger] kids_for_key(
                            final(self).contexts@[p as int].children_to_search_for_registered_nodes@, tn, i)
                            == kids_for_key(
                                old(self).contexts@[p as int].children_to_search_for_registered_nodes@, tn, i)
                                + repeat_kid(decl_count(old(self).contexts@[c as int].re_register_in_parent@, tn, i) as nat, c)
                    &&& forall|f: Seq<char>|
                        #[trigger] kids_for_family(
                            final(self).contexts@[p as int].children_to_search_for_multiregistered_nodes@, f)
                            == kids_for_family(
                                old(self).contexts@[p as int].children_to_search_for_multiregistered_nodes@, f)
                                + repeat_kid(family_count(old(self).contexts@[c as int].re_multiregister_in_parent@, f) as nat, c)
                    &&& final(self).contexts@[p as int].registered_nodes
                        == old(self).contexts@[p as int].registered_nodes
                    &&& final(self).contexts@[p as int].multiregistered_nodes
                        == old(self).contexts@[p as int].multiregistered_nodes
                    &&& final(self).contexts@[p as int].attached
                    &&& final(self).contexts@[p as int].depth == old(self).contexts@[p as int].depth
                },
                None => true,
            },
            forall|i: int| 0 <= i < old(self).contexts@.len() && i != c
                && (match old(self).spec_nearest_exclude(*tree, anchor) {
                    Some(p) => p as int != i,
                    None => true,
                }) ==> {
                let a = #[trigger] final(self).contexts@[i];
                let b = old(self).contexts@[i];
                &&& a.attached == b.attached
                &&& a.depth == b.depth
                &&& a.parent_context == (if b.parent_context == Some(c) {
                    None
                } else {
                    b.parent_context
                })
                &&& a.registered_nodes == b.registered_nodes
                &&& a.multiregistered_nodes == b.multiregistered_nodes
                &&& a.children_to_search_for_registered_nodes
                    == b.children_to_search_for_registered_nodes
                &&& a.children_to_search_for_multiregistered_nodes
                    == b.children_to_search_for_multiregistered_nodes
            },
    {
        let ghost pre = *old(self);
        let pc = match tree.parent_of(anchor) {
            Some(pa) => self.get_nearest(tree, pa),
            None => None,
        };
        proof {
            assert(pc == pre.spec_nearest_exclude(*tree, anchor));
            match tree.spec_parent(anchor) {
                Some(pa) => {
                    lemma_nearest_valid(pre, *tree, pa);
                },
                None => {},
            }
        }
        let n_ctx = self.contexts.len();
        let mut i: usize = 0;
        while i < n_ctx
            invariant
                n_ctx == self.contexts@.len(),
                n_ctx == pre.contexts@.len(),
                i <= n_ctx,
                self.node_index == pre.node_index,
                forall|x: int| i <= x < n_ctx ==> #[trigger] self.contexts@[x] == pre.contexts@[x],
                forall|x: int| 0 <= x < i ==> {
                    let a = #[trigger] self.contexts@[x];
                    let b = pre.contexts@[x];
                    &&& a.attached == b.attached
                    &&& a.depth == b.depth
                    &&& a.parent_context == (if b.parent_context == Some(c) {
                        None
                    } else {
                        b.parent_context
                    })
                    &&& a.registered_nodes == b.registered_nodes
                    &&& a.multiregistered_nodes == b.multiregistered_nodes
                    &&& a.children_to_search_for_registered_nodes
                        == b.children_to_search_for_registered_nodes
                    &&& a.children_to_search_for_multiregistered_nodes
                        == b.children_to_search_for_multiregistered_nodes
                    &&& a.verbose_logging_name == b.verbose_logging_name
                    &&& a.re_register_in_parent == b.re_register_in_parent
                    &&& a.re_multiregister_in_parent == b.re_multiregister_in_parent
                },
            decreases n_ctx - i,
        {
            let stale = match self.contexts[i].parent_context {
                Some(q) => q == c,
                None => false,
            };
            if stale {
                self.contexts[i].parent_context = None;
            }
            i += 1;
        }
        let depth: usize = match pc {
            Some(p) => {
                let pd = self.contexts[p].depth;
                pd + 1
            },
            None => 0,
        };
        self.contexts[c].attached = true;
        self.contexts[c].depth = depth;
        self.contexts[c].parent_context = pc;
        proof {
            assert(index_lookup(self.node_index@, anchor) is None);
        }
        self.node_index.insert(0, (anchor, c));
        proof {
            self.node_index@.insert_ensures(0, (anchor, c));
            assert(self.node_index@.drop_first() =~= pre.node_index@);
        }
        match pc {
            Some(p) => {
                let decls = clone_reregs(&self.contexts[c].re_register_in_parent);
                let fams = clone_strings(&self.contexts[c].re_multiregister_in_parent);
                self.contexts[p].add_child_reregistration(c, &decls, &fams);
            },
            None => {},
        }
        proof {
            lemma_attach_wf(pre, *self, c, pc, anchor);
        }
    }
}

/// After resolving the parent, severing stale references, placing the
/// context and pushing its declarations, the registry is well-formed again.
proof fn lemma_attach_wf(
    pre: DiRegistry,
    post: DiRegistry,
    c: usize,
    pc: Option<usize>,
    anchor: u64,
)
    requires
        pre.wf(),
        c < pre.contexts@.len(),
        !pre.contexts@[c as int].attached,
        index_lookup(pre.node_index@, anchor) is None,
        post.contexts@.len() == pre.contexts@.len(),
        match pc {
            Some(p) => p < pre.contexts@.len() && pre.contexts@[p as int].attached
                && post.contexts@[c as int].depth == pre.contexts@[p as int].depth + 1,
            None => true,
        },
        post.contexts@[c as int].attached,
        post.contexts@[c as int].parent_context == pc,
        post.contexts@[c as int].children_to_search_for_registered_nodes
            == pre.contexts@[c as int].children_to_search_for_registered_nodes,
        post.contexts@[c as int].children_to_search_for_multiregistered_nodes
            == pre.contexts@[c as int].children_to_search_for_multiregistered_nodes,
        forall|i: int| 0 <= i < pre.contexts@.len() && i != c ==> {
            let a = #[trigger] post.contexts@[i];
            let b = pre.contexts@[i];
            &&& a.attached == b.attached
            &&& a.depth == b.depth
            &&& a.parent_context == (if b.parent_context == Some(c) {
                None
            } else {
                b.parent_context
            })
        },
        forall|i: int| 0 <= i < pre.contexts@.len() && i != c
            && (match pc { Some(p) => p as int != i, None => true }) ==> {
            let a = #[trigger] post.contexts@[i];
            let b = pre.contexts@[i];
            a.children_to_search_for_registered_nodes == b.children_to_search_for_registered_nodes
                && a.children_to_search_for_multiregistered_nodes
                    == b.children_to_search_for_multiregistered_nodes
        },
        match pc {
            Some(p) => {
                &&& forall|tn: Seq<char>, i: Seq<char>|
                    #[trigger] kids_for_key(
                        post.contexts@[p as int].children_to_search_for_registered_nodes@, tn, i)
                        == kids_for_key(
                            pre.contexts@[p as int].children_to_search_for_registered_nodes@, tn, i)
                            + repeat_kid(decl_count(pre.contexts@[c as int].re_register_in_parent@, tn, i) as nat, c)
                &&& forall|f: Seq<char>|
                    #[trigger] kids_for_family(
                        post.contexts@[p as int].children_to_search_for_multiregistered_nodes@, f)
                        == kids_for_family(
                            pre.contexts@[p as int].children_to_search_for_multiregistered_nodes@, f)
                            + repeat_kid(family_count(pre.contexts@[c as int].re_multiregister_in_parent@, f) as nat, c)
            },
            None => true,
        },
        post.node_index@.len() == pre.node_index@.len() + 1,
        post.node_index@[0] == (anchor, c),
        forall|j: int| 1 <= j < post.node_index@.len()
            ==> #[trigger] post.node_index@[j] == pre.node_index@[j - 1],
    ensures
        post.wf(),
{
    let len = pre.contexts@.len() as int;
    assert forall|i: int| 0 <= i < post.contexts@.len() implies #[trigger] post.ctx_graph_ok(i) by {
        assert(pre.ctx_graph_ok(i));
        let a = post.contexts@[i];
        let b = pre.contexts@[i];
        if i == c {
            // forwarding lists of a detached context were empty and are
            // untouched
            assert(b.children_to_search_for_registered_nodes@.len() == 0);
            assert(b.children_to_search_for_multiregistered_nodes@.len() == 0);
            assert forall|tn: Seq<char>, idv: Seq<char>, k: int|
                0 <= k < kids_for_key(a.children_to_search_for_registered_nodes@, tn, idv).len()
                    implies post.kid_ok(i, #[trigger] kids_for_key(a.children_to_search_for_registered_nodes@, tn, idv)[k])
            by {
                lemma_kids_empty_vec(a.children_to_search_for_registered_nodes@, tn, idv);
            }
            assert forall|f: Seq<char>, k: int|
                0 <= k < kids_for_family(a.children_to_search_for_multiregistered_nodes@, f).len()
                    implies post.kid_ok(i, #[trigger] kids_for_family(a.children_to_search_for_multiregistered_nodes@, f)[k])
            by {
                lemma_kids_family_empty_vec(a.children_to_search_for_multiregistered_nodes@, f);
            }
            match pc {
                Some(p) => {
                    assert(p != c);
                    assert(post.contexts@[p as int].depth == pre.contexts@[p as int].depth);
                },
                None => {},
            }
        } else if pc is Some && pc.unwrap() as int == i {
            let cc = pre.contexts@[c as int];
            assert forall|tn: Seq<char>, idv: Seq<char>, k: int|
                0 <= k < kids_for_key(a.children_to_search_for_registered_nodes@, tn, idv).len()
                    implies post.kid_ok(i, #[trigger] kids_for_key(a.children_to_search_for_registered_nodes@, tn, idv)[k])
            by {
                let old_kids = kids_for_key(b.children_to_search_for_registered_nodes@, tn, idv);
                let new_kids = kids_for_key(a.children_to_search_for_registered_nodes@, tn, idv);
                crate::di_context::lemma_decl_count_bounds(cc.re_register_in_parent@, tn, idv);
                assert(new_kids == old_kids
                    + repeat_kid(decl_count(cc.re_register_in_parent@, tn, idv) as nat, c));
                if k < old_kids.len() {
                    assert(new_kids[k] == old_kids[k]);
                    assert(pre.kid_ok(i, old_kids[k]));
                    let e = old_kids[k];
                    assert(e != c);
                    assert(post.contexts@[e as int].attached == pre.contexts@[e as int].attached);
                    assert(post.contexts@[e as int].depth == pre.contexts@[e as int].depth);
                } else {
                    assert(new_kids[k] == repeat_kid(decl_count(cc.re_register_in_parent@, tn, idv) as nat, c)[k - old_kids.len()]);
                    assert(new_kids[k] == c);
                    assert(post.contexts@[c as int].depth == pre.contexts@[i].depth + 1);
                    assert(post.contexts@[i].depth == pre.contexts@[i].depth);
                }
            }
            assert forall|f: Seq<char>, k: int|
                0 <= k < kids_for_family(a.children_to_search_for_multiregistered_nodes@, f).len()
                    implies post.kid_ok(i, #[trigger] kids_for_family(a.children_to_search_for_multiregistered_nodes@, f)[k])
            by {
                let old_kids = kids_for_family(b.children_to_search_for_multiregistered_nodes@, f);
                let new_kids = kids_for_family(a.children_to_search_for_multiregistered_nodes@, f);
                crate::di_context::lemma_family_count_bounds(cc.re_multiregister_in_parent@, f);
                assert(new_kids == old_kids
                    + repeat_kid(family_count(cc.re_multiregister_in_parent@, f) as nat, c));
                if k < old_kids.len() {
                    assert(new_kids[k] == old_kids[k]);
                    assert(pre.kid_ok(i, old_kids[k]));
                    let e = old_kids[k];
                    assert(e != c);
                    assert(post.contexts@[e as int].attached == pre.contexts@[e as int].attached);
                    assert(post.contexts@[e as int].depth == pre.contexts@[e as int].depth);
                } else {
                    assert(new_kids[k] == repeat_kid(family_count(cc.re_multiregister_in_parent@, f) as nat, c)[k - old_kids.len()]);
                    assert(new_kids[k] == c);
                    assert(post.contexts@[c as int].depth == pre.contexts@[i].depth + 1);
                    assert(post.contexts@[i].depth == pre.contexts@[i].depth);
                }
            }
            match a.parent_context {
                Some(q) => {
                    assert(q != c);
                    assert(b.parent_context == Some(q));
                    assert(post.contexts@[q as int].depth == pre.contexts@[q as int].depth);
                },
                None => {},
            }
        } else {
            assert forall|tn: Seq<char>, idv: Seq<char>, k: int|
                0 <= k < kids_for_key(a.children_to_search_for_registered_nodes@, tn, idv).len()
                    implies post.kid_ok(i, #[trigger] kids_for_key(a.children_to_search_for_registered_nodes@, tn, idv)[k])
            by {
                let old_kids = kids_for_key(b.children_to_search_for_registered_nodes@, tn, idv);
                assert(kids_for_key(a.children_to_search_for_registered_nodes@, tn, idv) == old_kids);
                assert(pre.kid_ok(i, old_kids[k]));
                let e = old_kids[k];
                assert(e != c);
                assert(post.contexts@[e as int].attached == pre.contexts@[e as int].attached);
                assert(post.contexts@[e as int].depth == pre.contexts@[e as int].depth);
            }
            assert forall|f: Seq<char>, k: int|
                0 <= k < kids_for_family(a.children_to_search_for_multiregistered_nodes@, f).len()
                    implies post.kid_ok(i, #[trigger] kids_for_family(a.children_to_search_for_multiregistered_nodes@, f)[k])
            by {
                let old_kids = kids_for_family(b.children_to_search_for_multiregistered_nodes@, f);
                assert(kids_for_family(a.children_to_search_for_multiregistered_nodes@, f) == old_kids);
                assert(pre.kid_ok(i, old_kids[k]));
                let e = old_kids[k];
                assert(e != c);
                assert(post.contexts@[e as int].attached == pre.contexts@[e as int].attached);
                assert(post.contexts@[e as int].depth == pre.contexts@[e as int].depth);
            }
            match a.parent_context {
                Some(q) => {
                    assert(q != c);
                    assert(b.parent_context == Some(q));
                    assert(post.contexts@[q as int].depth == pre.contexts@[q as int].depth);
                },
                None => {},
            }
            if !a.attached {
                assert(!b.attached);
            }
        }
    }
    // the tree-membership index
    let s = pre.node_index@;
    let s2 = post.node_index@;
    lemma_index_lookup_props(s, anchor);
    assert forall|a: int, b2: int| 0 <= a < b2 < s2.len()
        implies (#[trigger] s2[a]).0 != (#[trigger] s2[b2]).0 && s2[a].1 != s2[b2].1 by {
        assert(s2[b2] == s[b2 - 1]);
        if a == 0 {
            assert(s[b2 - 1].0 != anchor);
            assert(pre.contexts@[s[b2 - 1].1 as int].attached);
        } else {
            assert(s2[a] == s[a - 1]);
        }
    }
    assert forall|j: int| 0 <= j < s2.len() implies {
        let e = #[trigger] s2[j];
        e.1 < post.contexts@.len() && post.contexts@[e.1 as int].attached
    } by {
        if j == 0 {
        } else {
            assert(s2[j] == s[j - 1]);
            assert(pre.contexts@[s[j - 1].1 as int].attached);
            assert(s[j - 1].1 != c);
            assert(post.contexts@[s[j - 1].1 as int].attached
                == pre.contexts@[s[j - 1].1 as int].attached);
        }
    }
    assert forall|i: int| 0 <= i < post.contexts@.len() && (#[trigger] post.contexts@[i]).attached
        implies exists|j: int| 0 <= j < s2.len() && (#[trigger] s2[j]).1 == i by {
        if i == c {
            assert(s2[0].1 == c);
        } else {
            assert(pre.contexts@[i].attached);
            let j0 = choose|j0: int| 0 <= j0 < s.len() && (#[trigger] s[j0]).1 == i;
            assert(s2[j0 + 1] == s[j0]);
        }
    }
}


/// The registration entry points aim at the nearest context (or the nearest
/// strictly above); whichever they get is a live context in the arena.
pub proof fn lemma_registration_target_valid(
    reg: DiRegistry,
    tree: HostTree,
    node: u64,
    register_into_own_context: bool,
)
    requires
        reg.wf(),
        tree.wf(),
        tree.spec_has_node(node),
    ensures
        match (if register_into_own_context {
            reg.spec_nearest(tree, node)
        } else {
            reg.spec_nearest_exclude(tree, node)
        }) {
            Some(p) => p < reg.contexts@.len() && reg.contexts@[p as int].attached,
            None => true,
        },
{
    if register_into_own_context {
        lemma_nearest_valid(reg, tree, node);
    } else {
        match tree.spec_parent(node) {
            Some(pa) => {
                lemma_nearest_valid(reg, tree, pa);
            },
            None => {},
        }
    }
}

/// A context whose neighbours did not change keeps its structural
/// well-formedness when the arena only grew or changed other contexts'
/// non-structural fields.
proof fn lemma_ctx_graph_ok_extend(pre: DiRegistry, post: DiRegistry, i: int)
    requires
        0 <= i < pre.contexts@.len(),
        pre.ctx_graph_ok(i),
        pre.contexts@.len() <= post.contexts@.len(),
        post.contexts@[i] == pre.contexts@[i],
        forall|x: int| 0 <= x < pre.contexts@.len()
            ==> (#[trigger] post.contexts@[x]).attached == pre.contexts@[x].attached
                && post.contexts@[x].depth == pre.contexts@[x].depth,
    ensures
        post.ctx_graph_ok(i),
{
    let c = post.contexts@[i];
    assert forall|tn: Seq<char>, idv: Seq<char>, k: int|
        0 <= k < kids_for_key(c.children_to_search_for_registered_nodes@, tn, idv).len()
            implies post.kid_ok(i, #[trigger] kids_for_key(c.children_to_search_for_registered_nodes@, tn, idv)[k])
    by {
        let x = kids_for_key(c.children_to_search_for_registered_nodes@, tn, idv)[k];
        assert(pre.kid_ok(i, x));
    }
    assert forall|f: Seq<char>, k: int|
        0 <= k < kids_for_family(c.children_to_search_for_multiregistered_nodes@, f).len()
            implies post.kid_ok(i, #[trigger] kids_for_family(c.children_to_search_for_multiregistered_nodes@, f)[k])
    by {
        let x = kids_for_family(c.children_to_search_for_multiregistered_nodes@, f)[k];
        assert(pre.kid_ok(i, x));
    }
}

} // verus!
