//! The context type: per-context registration maps, multi-registration lists,
//! and the forwarding lists that tell a context which child contexts to search.
//!
//! All maps are association vectors whose keys are compared by string content.
//! The spec functions in this module give each map its mathematical reading:
//! `find_registered` is the map from a `(ty_name, id)` key to the single
//! node registered under it, `family_nodes` is the ordered list a family name
//! maps to, and `kids_for_key` / `kids_for_family` are the forwarding lists.

use vstd::prelude::*;

use crate::host_tree::HostTree;

verus! {

/// Lookup key for single-value registrations: a type-family name plus an
/// instance id. An empty id denotes the default instance of the type.
pub struct RegistrationKey {
    pub ty_name: String,
    pub id: String,
}

/// One declared re-registration: a request that this context's registration
/// under `(ty_name, id)` also be visible from its parent context.
pub struct ReRegistration {
    pub ty_name: String,
    pub id: String,
}

/// A node of the context tree.
///
/// `attached`, `depth` and `parent_context` are maintained by the registry's
/// attach/detach lifecycle; the registration maps are local state. Child
/// contexts are referred to by their index in the registry's arena.
pub struct DiContext {
    /// Whether this context is currently part of the live context tree.
    pub attached: bool,
    /// Distance from the root of this context's ancestor chain at the time it
    /// attached; strictly greater than its parent's depth while links hold.
    pub depth: usize,
    /// Arena index of the nearest ancestor context, resolved at attach time.
    pub parent_context: Option<usize>,

    /// `(ty_name, id) -> node`; at most one node resolvable per key.
    pub registered_nodes: Vec<(RegistrationKey, u64)>,
    /// `family name -> ordered list of nodes` (duplicates allowed).
    pub multiregistered_nodes: Vec<(String, Vec<u64>)>,

    /// `(ty_name, id) -> child contexts to search when the key is missing
    /// locally`.
    pub children_to_search_for_registered_nodes: Vec<(RegistrationKey, Vec<usize>)>,
    /// `family name -> child contexts to search when collecting the family`.
    pub children_to_search_for_multiregistered_nodes: Vec<(String, Vec<usize>)>,

    /// Human-readable name used by the host's logging surface; not read by
    /// the engine itself.
    pub verbose_logging_name: String,

    /// Keys this context wants lifted into its parent's visibility.
    pub re_register_in_parent: Vec<ReRegistration>,
    /// Family names this context wants lifted into its parent's visibility.
    pub re_multiregister_in_parent: Vec<String>,
}

/// The single node registered under `(tn, id)`, reading the association
/// vector front to back: the first matching entry wins.
pub open spec fn find_registered(s: Seq<(RegistrationKey, u64)>, tn: Seq<char>, id: Seq<char>) -> Option<u64>
    decreases s.len(),
{
    if s.len() == 0 {
        None
    } else if s[0].0.ty_name@ == tn && s[0].0.id@ == id {
        Some(s[0].1)
    } else {
        find_registered(s.drop_first(), tn, id)
    }
}

/// The ordered node list a family name maps to; empty when the family has no
/// entry.
pub open spec fn family_nodes(s: Seq<(String, Vec<u64>)>, f: Seq<char>) -> Seq<u64>
    decreases s.len(),
{
    if s.len() == 0 {
        Seq::empty()
    } else if s[0].0@ == f {
        s[0].1@
    } else {
        family_nodes(s.drop_first(), f)
    }
}

/// The child contexts to search for a registration key; empty when none were
/// declared.
pub open spec fn kids_for_key(s: Seq<(RegistrationKey, Vec<usize>)>, tn: Seq<char>, id: Seq<char>) -> Seq<usize>
    decreases s.len(),
{
    if s.len() == 0 {
        Seq::empty()
    } else if s[0].0.ty_name@ == tn && s[0].0.id@ == id {
        s[0].1@
    } else {
        kids_for_key(s.drop_first(), tn, id)
    }
}

/// The child contexts to search for a family name; empty when none were
/// declared.
pub open spec fn kids_for_family(s: Seq<(String, Vec<usize>)>, f: Seq<char>) -> Seq<usize>
    decreases s.len(),
{
    if s.len() == 0 {
        Seq::empty()
    } else if s[0].0@ == f {
        s[0].1@
    } else {
        kids_for_family(s.drop_first(), f)
    }
}

/// How many of the declared re-registrations name the key `(tn, id)`.
pub open spec fn decl_count(decls: Seq<ReRegistration>, tn: Seq<char>, id: Seq<char>) -> int
    decreases decls.len(),
{
    if decls.len() == 0 {
        0
    } else {
        decl_count(decls.drop_last(), tn, id)
            + if decls.last().ty_name@ == tn && decls.last().id@ == id { 1int } else { 0int }
    }
}

/// How many of the declared family names equal `f`.
pub open spec fn family_count(fams: Seq<String>, f: Seq<char>) -> int
    decreases fams.len(),
{
    if fams.len() == 0 {
        0
    } else {
        family_count(fams.drop_last(), f) + if fams.last()@ == f { 1int } else { 0int }
    }
}

/// A declaration count is a count: never negative, never more than the
/// declarations.
pub proof fn lemma_decl_count_bounds(decls: Seq<ReRegistration>, tn: Seq<char>, id: Seq<char>)
    ensures
        0 <= decl_count(decls, tn, id) <= decls.len(),
    decreases decls.len(),
{
    if decls.len() > 0 {
        lemma_decl_count_bounds(decls.drop_last(), tn, id);
    }
}

/// A family count is a count: never negative, never more than the names.
pub proof fn lemma_family_count_bounds(fams: Seq<String>, f: Seq<char>)
    ensures
        0 <= family_count(fams, f) <= fams.len(),
    decreases fams.len(),
{
    if fams.len() > 0 {
        lemma_family_count_bounds(fams.drop_last(), f);
    }
}

/// `child` repeated `n` times: what a run of identical re-registration
/// declarations adds to a forwarding list.
pub open spec fn repeat_kid(n: nat, child: usize) -> Seq<usize> {
    Seq::new(n, |q: int| child)
}

/// `s` with every occurrence of the child index `x` removed, order otherwise
/// kept.
pub open spec fn remove_kid(s: Seq<usize>, x: usize) -> Seq<usize>
    decreases s.len(),
{
    if s.len() == 0 {
        Seq::empty()
    } else if s[0] == x {
        remove_kid(s.drop_first(), x)
    } else {
        seq![s[0]] + remove_kid(s.drop_first(), x)
    }
}

/// The name a node registers under when no explicit type name is given: the
/// node's own naming capability when it exposes one, its intrinsic class name
/// otherwise.
pub open spec fn spec_registration_name(tree: HostTree, node: u64) -> Seq<char> {
    match tree.spec_di_name(node) {
        Some(n) => n,
        None => tree.spec_class_name(node),
    }
}

impl DiContext {
    /// A fresh, detached context carrying the given configuration.
    pub fn init(
        verbose_logging_name: String,
        re_register_in_parent: Vec<ReRegistration>,
        re_multiregister_in_parent: Vec<String>,
    ) -> (c: DiContext)
        ensures
            !c.attached,
            c.depth == 0,
            c.parent_context is None,
            c.registered_nodes@ =~= Seq::<(RegistrationKey, u64)>::empty(),
            c.multiregistered_nodes@ =~= Seq::<(String, Vec<u64>)>::empty(),
            c.children_to_search_for_registered_nodes@ =~= Seq::<(RegistrationKey, Vec<usize>)>::empty(),
            c.children_to_search_for_multiregistered_nodes@ =~= Seq::<(String, Vec<usize>)>::empty(),
            c.verbose_logging_name == verbose_logging_name,
            c.re_register_in_parent == re_register_in_parent,
            c.re_multiregister_in_parent == re_multiregister_in_parent,
    {
        DiContext {
            attached: false,
            depth: 0,
            parent_context: None,
            registered_nodes: Vec::new(),
            multiregistered_nodes: Vec::new(),
            children_to_search_for_registered_nodes: Vec::new(),
            children_to_search_for_multiregistered_nodes: Vec::new(),
            verbose_logging_name,
            re_register_in_parent,
            re_multiregister_in_parent,
        }
    }

    /// Insert `(ty_name, id) -> node` into the local map, overwriting any
    /// prior entry for that exact key (last write wins, no error).
    pub fn register_with_type(&mut self, node: u64, ty_name: String, id: String)
        ensures
            forall|tn: Seq<char>, i: Seq<char>|
                #[trigger] find_registered(final(self).registered_nodes@, tn, i)
                    == if tn == ty_name@ && i == id@ {
                        Some(node)
                    } else {
                        find_registered(old(self).registered_nodes@, tn, i)
                    },
            final(self).attached == old(self).attached,
            final(self).depth == old(self).depth,
            final(self).parent_context == old(self).parent_context,
            final(self).multiregistered_nodes == old(self).multiregistered_nodes,
            final(self).children_to_search_for_registered_nodes
                == old(self).children_to_search_for_registered_nodes,
            final(self).children_to_search_for_multiregistered_nodes
                == old(self).children_to_search_for_multiregistered_nodes,
            final(self).verbose_logging_name == old(self).verbose_logging_name,
            final(self).re_register_in_parent == old(self).re_register_in_parent,
            final(self).re_multiregister_in_parent == old(self).re_multiregister_in_parent,
    {
        match position_registered(&self.registered_nodes, &ty_name, &id) {
            Some(j) => {
                proof {
                    lemma_find_registered_update(
                        self.registered_nodes@,
                        j as int,
                        ty_name@,
                        id@,
                        node,
                    );
                }
                self.registered_nodes[j].1 = node;
            },
            None => {
                let key = RegistrationKey { ty_name, id };
                proof {
                    lemma_find_registered_push(self.registered_nodes@, key, node);
                }
                self.registered_nodes.push((key, node));
            },
        }
    }

    /// Register a node under the name the node itself reports: its custom
    /// naming capability when present, its intrinsic class name otherwise.
    pub fn register(&mut self, tree: &HostTree, node: u64, id: String)
        requires
            tree.wf(),
            tree.spec_has_node(node),
        ensures
            forall|tn: Seq<char>, i: Seq<char>|
                #[trigger] find_registered(final(self).registered_nodes@, tn, i)
                    == if tn == spec_registration_name(*tree, node) && i == id@ {
                        Some(node)
                    } else {
                        find_registered(old(self).registered_nodes@, tn, i)
                    },
            final(self).attached == old(self).attached,
            final(self).depth == old(self).depth,
            final(self).parent_context == old(self).parent_context,
            final(self).multiregistered_nodes == old(self).multiregistered_nodes,
            final(self).children_to_search_for_registered_nodes
                == old(self).children_to_search_for_registered_nodes,
            final(self).children_to_search_for_multiregistered_nodes
                == old(self).children_to_search_for_multiregistered_nodes,
            final(self).verbose_logging_name == old(self).verbose_logging_name,
            final(self).re_register_in_parent == old(self).re_register_in_parent,
            final(self).re_multiregister_in_parent == old(self).re_multiregister_in_parent,
    {
        let ty_name = tree.registration_name(node);
        self.register_with_type(node, ty_name, id);
    }

    /// Append `node` to the ordered list for `key` (no overwrite; duplicates
    /// permitted; a missing family starts from the empty list).
    pub fn multiregister(&mut self, node: u64, key: String)
        ensures
            forall|f: Seq<char>|
                #[trigger] family_nodes(final(self).multiregistered_nodes@, f)
                    == if f == key@ {
                        family_nodes(old(self).multiregistered_nodes@, f).push(node)
                    } else {
                        family_nodes(old(self).multiregistered_nodes@, f)
                    },
            final(self).attached == old(self).attached,
            final(self).depth == old(self).depth,
            final(self).parent_context == old(self).parent_context,
            final(self).registered_nodes == old(self).registered_nodes,
            final(self).children_to_search_for_registered_nodes
                == old(self).children_to_search_for_registered_nodes,
            final(self).children_to_search_for_multiregistered_nodes
                == old(self).children_to_search_for_multiregistered_nodes,
            final(self).verbose_logging_name == old(self).verbose_logging_name,
            final(self).re_register_in_parent == old(self).re_register_in_parent,
            final(self).re_multiregister_in_parent == old(self).re_multiregister_in_parent,
    {
        match position_family(&self.multiregistered_nodes, &key) {
            Some(j) => {
                proof {
                    lemma_family_nodes_update(self.multiregistered_nodes@, j as int, node);
                }
                self.multiregistered_nodes[j].1.push(node);
            },
            None => {
                let mut fresh: Vec<u64> = Vec::new();
                fresh.push(node);
                proof {
                    lemma_family_nodes_push(self.multiregistered_nodes@, key@, node);
                    assert(fresh@ =~= seq![node]);
                }
                self.multiregistered_nodes.push((key, fresh));
            },
        }
    }

    /// Multi-register a node under its intrinsic class name.
    pub fn multiregister_auto_type(&mut self, tree: &HostTree, node: u64)
        requires
            tree.wf(),
            tree.spec_has_node(node),
        ensures
            forall|f: Seq<char>|
                #[trigger] family_nodes(final(self).multiregistered_nodes@, f)
                    == if f == tree.spec_class_name(node) {
                        family_nodes(old(self).multiregistered_nodes@, f).push(node)
                    } else {
                        family_nodes(old(self).multiregistered_nodes@, f)
                    },
            final(self).attached == old(self).attached,
            final(self).depth == old(self).depth,
            final(self).parent_context == old(self).parent_context,
            final(self).registered_nodes == old(self).registered_nodes,
            final(self).children_to_search_for_registered_nodes
                == old(self).children_to_search_for_registered_nodes,
            final(self).children_to_search_for_multiregistered_nodes
                == old(self).children_to_search_for_multiregistered_nodes,
            final(self).verbose_logging_name == old(self).verbose_logging_name,
            final(self).re_register_in_parent == old(self).re_register_in_parent,
            final(self).re_multiregister_in_parent == old(self).re_multiregister_in_parent,
    {
        let key = tree.class_name_of(node);
        self.multiregister(node, key);
    }

    /// Host-facing alias of [`Self::register_with_type`].
    pub fn register_node_of_type_node(&mut self, node: u64, ty_name: String, id: String)
        ensures
            forall|tn: Seq<char>, i: Seq<char>|
                #[trigger] find_registered(final(self).registered_nodes@, tn, i)
                    == if tn == ty_name@ && i == id@ {
                        Some(node)
                    } else {
                        find_registered(old(self).registered_nodes@, tn, i)
                    },
            final(self).attached == old(self).attached,
            final(self).depth == old(self).depth,
            final(self).parent_context == old(self).parent_context,
            final(self).multiregistered_nodes == old(self).multiregistered_nodes,
            final(self).children_to_search_for_registered_nodes
                == old(self).children_to_search_for_registered_nodes,
            final(self).children_to_search_for_multiregistered_nodes
                == old(self).children_to_search_for_multiregistered_nodes,
            final(self).verbose_logging_name == old(self).verbose_logging_name,
            final(self).re_register_in_parent == old(self).re_register_in_parent,
            final(self).re_multiregister_in_parent == old(self).re_multiregister_in_parent,
    {
        self.register_with_type(node, ty_name, id);
    }

    /// Host-facing alias of [`Self::register`].
    pub fn register_node(&mut self, tree: &HostTree, node: u64, id: String)
        requires
            tree.wf(),
            tree.spec_has_node(node),
        ensures
            forall|tn: Seq<char>, i: Seq<char>|
                #[trigger] find_registered(final(self).registered_nodes@, tn, i)
                    == if tn == spec_registration_name(*tree, node) && i == id@ {
                        Some(node)
                    } else {
                        find_registered(old(self).registered_nodes@, tn, i)
                    },
            final(self).attached == old(self).attached,
            final(self).depth == old(self).depth,
            final(self).parent_context == old(self).parent_context,
            final(self).multiregistered_nodes == old(self).multiregistered_nodes,
            final(self).children_to_search_for_registered_nodes
                == old(self).children_to_search_for_registered_nodes,
            final(self).children_to_search_for_multiregistered_nodes
                == old(self).children_to_search_for_multiregistered_nodes,
            final(self).verbose_logging_name == old(self).verbose_logging_name,
            final(self).re_register_in_parent == old(self).re_register_in_parent,
            final(self).re_multiregister_in_parent == old(self).re_multiregister_in_parent,
    {
        self.register(tree, node, id);
    }

    /// Remove a detaching child context's identity from every forwarding
    /// list of this context, so no search is forwarded to it any more.
    pub(crate) fn purge_child(&mut self, child: usize)
        ensures
            forall|tn: Seq<char>, i: Seq<char>|
                #[trigger] kids_for_key(final(self).children_to_search_for_registered_nodes@, tn, i)
                    == remove_kid(kids_for_key(old(self).children_to_search_for_registered_nodes@, tn, i), child),
            forall|f: Seq<char>|
                #[trigger] kids_for_family(final(self).children_to_search_for_multiregistered_nodes@, f)
                    == remove_kid(kids_for_family(old(self).children_to_search_for_multiregistered_nodes@, f), child),
            final(self).children_to_search_for_registered_nodes@.len()
                == old(self).children_to_search_for_registered_nodes@.len(),
            final(self).children_to_search_for_multiregistered_nodes@.len()
                == old(self).children_to_search_for_multiregistered_nodes@.len(),
            final(self).attached == old(self).attached,
            final(self).depth == old(self).depth,
            final(self).parent_context == old(self).parent_context,
            final(self).registered_nodes == old(self).registered_nodes,
            final(self).multiregistered_nodes == old(self).multiregistered_nodes,
            final(self).verbose_logging_name == old(self).verbose_logging_name,
            final(self).re_register_in_parent == old(self).re_register_in_parent,
            final(self).re_multiregister_in_parent == old(self).re_multiregister_in_parent,
    {
        let n = self.children_to_search_for_registered_nodes.len();
        let mut j: usize = 0;
        while j < n
            invariant
                n == self.children_to_search_for_registered_nodes@.len(),
                n == old(self).children_to_search_for_registered_nodes@.len(),
                j <= n,
                forall|k: int| 0 <= k < j ==> {
                    let a = #[trigger] self.children_to_search_for_registered_nodes@[k];
                    let b = old(self).children_to_search_for_registered_nodes@[k];
                    a.0 == b.0 && a.1@ == remove_kid(b.1@, child)
                },
                forall|k: int| j <= k < n
                    ==> #[trigger] self.children_to_search_for_registered_nodes@[k]
                        == old(self).children_to_search_for_registered_nodes@[k],
                self.children_to_search_for_multiregistered_nodes
                    == old(self).children_to_search_for_multiregistered_nodes,
                self.attached == old(self).attached,
                self.depth == old(self).depth,
                self.parent_context == old(self).parent_context,
                self.registered_nodes == old(self).registered_nodes,
                self.multiregistered_nodes == old(self).multiregistered_nodes,
                self.verbose_logging_name == old(self).verbose_logging_name,
                self.re_register_in_parent == old(self).re_register_in_parent,
                self.re_multiregister_in_parent == old(self).re_multiregister_in_parent,
            decreases n - j,
        {
            let filtered = filter_out(&self.children_to_search_for_registered_nodes[j].1, child);
            self.children_to_search_for_registered_nodes[j].1 = filtered;
            j += 1;
        }
        proof {
            lemma_kids_for_key_filter(
                old(self).children_to_search_for_registered_nodes@,
                self.children_to_search_for_registered_nodes@,
                child,
            );
        }
        let m = self.children_to_search_for_multiregistered_nodes.len();
        let mut j2: usize = 0;
        while j2 < m
            invariant
                m == self.children_to_search_for_multiregistered_nodes@.len(),
                m == old(self).children_to_search_for_multiregistered_nodes@.len(),
                j2 <= m,
                forall|k: int| 0 <= k < j2 ==> {
                    let a = #[trigger] self.children_to_search_for_multiregistered_nodes@[k];
                    let b = old(self).children_to_search_for_multiregistered_nodes@[k];
                    a.0 == b.0 && a.1@ == remove_kid(b.1@, child)
                },
                forall|k: int| j2 <= k < m
                    ==> #[trigger] self.children_to_search_for_multiregistered_nodes@[k]
                        == old(self).children_to_search_for_multiregistered_nodes@[k],
                forall|tn: Seq<char>, i: Seq<char>|
                    #[trigger] kids_for_key(self.children_to_search_for_registered_nodes@, tn, i)
                        == remove_kid(kids_for_key(old(self).children_to_search_for_registered_nodes@, tn, i), child),
                self.children_to_search_for_registered_nodes@.len()
                    == old(self).children_to_search_for_registered_nodes@.len(),
                self.attached == old(self).attached,
                self.depth == old(self).depth,
                self.parent_context == old(self).parent_context,
                self.registered_nodes == old(self).registered_nodes,
                self.multiregistered_nodes == old(self).multiregistered_nodes,
                self.verbose_logging_name == old(self).verbose_logging_name,
                self.re_register_in_parent == old(self).re_register_in_parent,
                self.re_multiregister_in_parent == old(self).re_multiregister_in_parent,
            decreases m - j2,
        {
            let filtered = filter_out(&self.children_to_search_for_multiregistered_nodes[j2].1, child);
            self.children_to_search_for_multiregistered_nodes[j2].1 = filtered;
            j2 += 1;
        }
        proof {
            lemma_kids_for_family_filter(
                old(self).children_to_search_for_multiregistered_nodes@,
                self.children_to_search_for_multiregistered_nodes@,
                child,
            );
        }
    }

    /// Drop every forwarding list this context holds; on detach it stops
    /// forwarding searches into its former children.
    pub(crate) fn clear_children_lists(&mut self)
        ensures
            final(self).children_to_search_for_registered_nodes@.len() == 0,
            final(self).children_to_search_for_multiregistered_nodes@.len() == 0,
            final(self).attached == old(self).attached,
            final(self).depth == old(self).depth,
            final(self).parent_context == old(self).parent_context,
            final(self).registered_nodes == old(self).registered_nodes,
            final(self).multiregistered_nodes == old(self).multiregistered_nodes,
            final(self).verbose_logging_name == old(self).verbose_logging_name,
            final(self).re_register_in_parent == old(self).re_register_in_parent,
            final(self).re_multiregister_in_parent == old(self).re_multiregister_in_parent,
    {
        self.children_to_search_for_registered_nodes.clear();
        self.children_to_search_for_multiregistered_nodes.clear();
    }

    /// Record that the freshly attached child context `child_id` should be
    /// searched for each key and family it declared for re-registration.
    pub(crate) fn add_child_reregistration(
        &mut self,
        child_id: usize,
        child_reregistrations: &Vec<ReRegistration>,
        child_remultiregistrations: &Vec<String>,
    )
        ensures
            forall|tn: Seq<char>, i: Seq<char>|
                #[trigger] kids_for_key(final(self).children_to_search_for_registered_nodes@, tn, i)
                    == kids_for_key(old(self).children_to_search_for_registered_nodes@, tn, i)
                        + repeat_kid(decl_count(child_reregistrations@, tn, i) as nat, child_id),
            forall|f: Seq<char>|
                #[trigger] kids_for_family(final(self).children_to_search_for_multiregistered_nodes@, f)
                    == kids_for_family(old(self).children_to_search_for_multiregistered_nodes@, f)
                        + repeat_kid(family_count(child_remultiregistrations@, f) as nat, child_id),
            final(self).attached == old(self).attached,
            final(self).depth == old(self).depth,
            final(self).parent_context == old(self).parent_context,
            final(self).registered_nodes == old(self).registered_nodes,
            final(self).multiregistered_nodes == old(self).multiregistered_nodes,
            final(self).verbose_logging_name == old(self).verbose_logging_name,
            final(self).re_register_in_parent == old(self).re_register_in_parent,
            final(self).re_multiregister_in_parent == old(self).re_multiregister_in_parent,
    {
        let n = child_reregistrations.len();
        let mut j: usize = 0;
        proof {
            assert forall|tn: Seq<char>, i: Seq<char>|
                #[trigger] kids_for_key(self.children_to_search_for_registered_nodes@, tn, i)
                    == kids_for_key(old(self).children_to_search_for_registered_nodes@, tn, i)
                        + repeat_kid(decl_count(child_reregistrations@.take(0), tn, i) as nat, child_id)
            by {
                assert(child_reregistrations@.take(0) =~= Seq::<ReRegistration>::empty());
                assert(decl_count(child_reregistrations@.take(0), tn, i) == 0);
                assert(kids_for_key(self.children_to_search_for_registered_nodes@, tn, i)
                    + repeat_kid(0, child_id)
                    =~= kids_for_key(self.children_to_search_for_registered_nodes@, tn, i));
            }
        }
        while j < n
            invariant
                n == child_reregistrations@.len(),
                j <= n,
                forall|tn: Seq<char>, i: Seq<char>|
                    #[trigger] kids_for_key(self.children_to_search_for_registered_nodes@, tn, i)
                        == kids_for_key(old(self).children_to_search_for_registered_nodes@, tn, i)
                            + repeat_kid(decl_count(child_reregistrations@.take(j as int), tn, i) as nat, child_id),
                self.children_to_search_for_multiregistered_nodes
                    == old(self).children_to_search_for_multiregistered_nodes,
                self.attached == old(self).attached,
                self.depth == old(self).depth,
                self.parent_context == old(self).parent_context,
                self.registered_nodes == old(self).registered_nodes,
                self.multiregistered_nodes == old(self).multiregistered_nodes,
                self.verbose_logging_name == old(self).verbose_logging_name,
                self.re_register_in_parent == old(self).re_register_in_parent,
                self.re_multiregister_in_parent == old(self).re_multiregister_in_parent,
            decreases n - j,
        {
            let ghost pre_lists = self.children_to_search_for_registered_nodes@;
            let tn_s = child_reregistrations[j].ty_name.clone();
            let id_s = child_reregistrations[j].id.clone();
            push_kid_for_key(&mut self.children_to_search_for_registered_nodes, tn_s, id_s, child_id);
            proof {
                let decls = child_reregistrations@;
                assert forall|tn: Seq<char>, i: Seq<char>|
                    #[trigger] kids_for_key(self.children_to_search_for_registered_nodes@, tn, i)
                        == kids_for_key(old(self).children_to_search_for_registered_nodes@, tn, i)
                            + repeat_kid(decl_count(decls.take(j as int + 1), tn, i) as nat, child_id)
                by {
                    assert(decls.take(j as int + 1).drop_last() =~= decls.take(j as int));
                    assert(decls.take(j as int + 1).last() == decls[j as int]);
                    let base = kids_for_key(old(self).children_to_search_for_registered_nodes@, tn, i);
                    let cnt = decl_count(decls.take(j as int), tn, i);
                    lemma_decl_count_bounds(decls.take(j as int), tn, i);
                    if decls[j as int].ty_name@ == tn && decls[j as int].id@ == i {
                        assert(decl_count(decls.take(j as int + 1), tn, i) == cnt + 1);
                        assert(kids_for_key(self.children_to_search_for_registered_nodes@, tn, i)
                            == kids_for_key(pre_lists, tn, i).push(child_id));
                        assert((base + repeat_kid(cnt as nat, child_id)).push(child_id)
                            =~= base + repeat_kid((cnt + 1) as nat, child_id));
                    } else {
                        assert(decl_count(decls.take(j as int + 1), tn, i) == cnt);
                        assert(kids_for_key(self.children_to_search_for_registered_nodes@, tn, i)
                            == kids_for_key(pre_lists, tn, i));
                    }
                }
            }
            j += 1;
        }
        proof {
            assert(child_reregistrations@.take(n as int) =~= child_reregistrations@);
        }
        let m = child_remultiregistrations.len();
        let mut j2: usize = 0;
        proof {
            assert forall|f: Seq<char>|
                #[trigger] kids_for_family(self.children_to_search_for_multiregistered_nodes@, f)
                    == kids_for_family(old(self).children_to_search_for_multiregistered_nodes@, f)
                        + repeat_kid(family_count(child_remultiregistrations@.take(0), f) as nat, child_id)
            by {
                assert(child_remultiregistrations@.take(0) =~= Seq::<String>::empty());
                assert(family_count(child_remultiregistrations@.take(0), f) == 0);
                assert(kids_for_family(self.children_to_search_for_multiregistered_nodes@, f)
                    + repeat_kid(0, child_id)
                    =~= kids_for_family(self.children_to_search_for_multiregistered_nodes@, f));
            }
        }
        while j2 < m
            invariant
                m == child_remultiregistrations@.len(),
                j2 <= m,
                forall|f: Seq<char>|
                    #[trigger] kids_for_family(self.children_to_search_for_multiregistered_nodes@, f)
                        == kids_for_family(old(self).children_to_search_for_multiregistered_nodes@, f)
                            + repeat_kid(family_count(child_remultiregistrations@.take(j2 as int), f) as nat, child_id),
                forall|tn: Seq<char>, i: Seq<char>|
                    #[trigger] kids_for_key(self.children_to_search_for_registered_nodes@, tn, i)
                        == kids_for_key(old(self).children_to_search_for_registered_nodes@, tn, i)
                            + repeat_kid(decl_count(child_reregistrations@, tn, i) as nat, child_id),
                self.attached == old(self).attached,
                self.depth == old(self).depth,
                self.parent_context == old(self).parent_context,
                self.registered_nodes == old(self).registered_nodes,
                self.multiregistered_nodes == old(self).multiregistered_nodes,
                self.verbose_logging_name == old(self).verbose_logging_name,
                self.re_register_in_parent == old(self).re_register_in_parent,
                self.re_multiregister_in_parent == old(self).re_multiregister_in_parent,
            decreases m - j2,
        {
            let ghost pre_lists = self.children_to_search_for_multiregistered_nodes@;
            let f_s = child_remultiregistrations[j2].clone();
            push_kid_for_family(&mut self.children_to_search_for_multiregistered_nodes, f_s, child_id);
            proof {
                let fams = child_remultiregistrations@;
                assert forall|f: Seq<char>|
                    #[trigger] kids_for_family(self.children_to_search_for_multiregistered_nodes@, f)
                        == kids_for_family(old(self).children_to_search_for_multiregistered_nodes@, f)
                            + repeat_kid(family_count(fams.take(j2 as int + 1), f) as nat, child_id)
                by {
                    assert(fams.take(j2 as int + 1).drop_last() =~= fams.take(j2 as int));
                    assert(fams.take(j2 as int + 1).last() == fams[j2 as int]);
                    let base = kids_for_family(old(self).children_to_search_for_multiregistered_nodes@, f);
                    let cnt = family_count(fams.take(j2 as int), f);
                    lemma_family_count_bounds(fams.take(j2 as int), f);
                    if fams[j2 as int]@ == f {
                        assert(family_count(fams.take(j2 as int + 1), f) == cnt + 1);
                        assert(kids_for_family(self.children_to_search_for_multiregistered_nodes@, f)
                            == kids_for_family(pre_lists, f).push(child_id));
                        assert((base + repeat_kid(cnt as nat, child_id)).push(child_id)
                            =~= base + repeat_kid((cnt + 1) as nat, child_id));
                    } else {
                        assert(family_count(fams.take(j2 as int + 1), f) == cnt);
                        assert(kids_for_family(self.children_to_search_for_multiregistered_nodes@, f)
                            == kids_for_family(pre_lists, f));
                    }
                }
            }
            j2 += 1;
        }
        proof {
            assert(child_remultiregistrations@.take(m as int) =~= child_remultiregistrations@);
        }
    }
}


/// Index of the first entry matching `(ty_name, id)`, with the miss facts a
/// caller needs about the prefix.
fn position_registered(v: &Vec<(RegistrationKey, u64)>, ty_name: &String, id: &String) -> (r: Option<usize>)
    ensures
        match r {
            Some(j) => {
                &&& j < v@.len()
                &&& v@[j as int].0.ty_name@ == ty_name@ && v@[j as int].0.id@ == id@
                &&& forall|k: int| 0 <= k < j
                    ==> !((#[trigger] v@[k]).0.ty_name@ == ty_name@ && v@[k].0.id@ == id@)
            },
            None => forall|k: int| 0 <= k < v@.len()
                ==> !((#[trigger] v@[k]).0.ty_name@ == ty_name@ && v@[k].0.id@ == id@),
        },
{
    let n = v.len();
    let mut j: usize = 0;
    while j < n
        invariant
            n == v@.len(),
            j <= n,
            forall|k: int| 0 <= k < j
                ==> !((#[trigger] v@[k]).0.ty_name@ == ty_name@ && v@[k].0.id@ == id@),
        decreases n - j,
    {
        if v[j].0.ty_name == *ty_name && v[j].0.id == *id {
            return Some(j);
        }
        j += 1;
    }
    None
}

/// Index of the first entry for the family `f`, with the miss facts a caller
/// needs about the prefix.
fn position_family(v: &Vec<(String, Vec<u64>)>, f: &String) -> (r: Option<usize>)
    ensures
        match r {
            Some(j) => {
                &&& j < v@.len()
                &&& v@[j as int].0@ == f@
                &&& forall|k: int| 0 <= k < j ==> (#[trigger] v@[k]).0@ != f@
            },
            None => forall|k: int| 0 <= k < v@.len() ==> (#[trigger] v@[k]).0@ != f@,
        },
{
    let n = v.len();
    let mut j: usize = 0;
    while j < n
        invariant
            n == v@.len(),
            j <= n,
            forall|k: int| 0 <= k < j ==> (#[trigger] v@[k]).0@ != f@,
        decreases n - j,
    {
        if v[j].0 == *f {
            return Some(j);
        }
        j += 1;
    }
    None
}


/// The node registered under `(ty_name, id)` in an association vector.
pub(crate) fn lookup_registered(
    v: &Vec<(RegistrationKey, u64)>,
    ty_name: &String,
    id: &String,
) -> (r: Option<u64>)
    ensures
        r == find_registered(v@, ty_name@, id@),
{
    let n = v.len();
    let mut j: usize = 0;
    proof {
        assert(v@.skip(0) =~= v@);
    }
    while j < n
        invariant
            n == v@.len(),
            j <= n,
            find_registered(v@.skip(j as int), ty_name@, id@) == find_registered(v@, ty_name@, id@),
        decreases n - j,
    {
        if v[j].0.ty_name == *ty_name && v[j].0.id == *id {
            return Some(v[j].1);
        }
        proof {
            assert(v@.skip(j as int).drop_first() =~= v@.skip(j as int + 1));
        }
        j += 1;
    }
    None
}

/// The slot whose forwarding list `kids_for_key` reads, when the key has one.
pub(crate) fn kids_slot_for_key(
    v: &Vec<(RegistrationKey, Vec<usize>)>,
    ty_name: &String,
    id: &String,
) -> (r: Option<usize>)
    ensures
        match r {
            Some(j) => j < v@.len() && kids_for_key(v@, ty_name@, id@) == v@[j as int].1@,
            None => kids_for_key(v@, ty_name@, id@) == Seq::<usize>::empty(),
        },
{
    let n = v.len();
    let mut j: usize = 0;
    proof {
        assert(v@.skip(0) =~= v@);
    }
    while j < n
        invariant
            n == v@.len(),
            j <= n,
            kids_for_key(v@.skip(j as int), ty_name@, id@) == kids_for_key(v@, ty_name@, id@),
        decreases n - j,
    {
        if v[j].0.ty_name == *ty_name && v[j].0.id == *id {
            return Some(j);
        }
        proof {
            assert(v@.skip(j as int).drop_first() =~= v@.skip(j as int + 1));
        }
        j += 1;
    }
    None
}

/// The slot whose forwarding list `kids_for_family` reads, when the family
/// has one.
pub(crate) fn kids_slot_for_family(v: &Vec<(String, Vec<usize>)>, f: &String) -> (r: Option<usize>)
    ensures
        match r {
            Some(j) => j < v@.len() && kids_for_family(v@, f@) == v@[j as int].1@,
            None => kids_for_family(v@, f@) == Seq::<usize>::empty(),
        },
{
    let n = v.len();
    let mut j: usize = 0;
    proof {
        assert(v@.skip(0) =~= v@);
    }
    while j < n
        invariant
            n == v@.len(),
            j <= n,
            kids_for_family(v@.skip(j as int), f@) == kids_for_family(v@, f@),
        decreases n - j,
    {
        if v[j].0 == *f {
            return Some(j);
        }
        proof {
            assert(v@.skip(j as int).drop_first() =~= v@.skip(j as int + 1));
        }
        j += 1;
    }
    None
}

/// The slot whose node list `family_nodes` reads, when the family has one.
pub(crate) fn family_slot(v: &Vec<(String, Vec<u64>)>, f: &String) -> (r: Option<usize>)
    ensures
        match r {
            Some(j) => j < v@.len() && family_nodes(v@, f@) == v@[j as int].1@,
            None => family_nodes(v@, f@) == Seq::<u64>::empty(),
        },
{
    let n = v.len();
    let mut j: usize = 0;
    proof {
        assert(v@.skip(0) =~= v@);
    }
    while j < n
        invariant
            n == v@.len(),
            j <= n,
            family_nodes(v@.skip(j as int), f@) == family_nodes(v@, f@),
        decreases n - j,
    {
        if v[j].0 == *f {
            return Some(j);
        }
        proof {
            assert(v@.skip(j as int).drop_first() =~= v@.skip(j as int + 1));
        }
        j += 1;
    }
    None
}


/// `v` with every occurrence of `x` removed, as an executable filter.
pub(crate) fn filter_out(v: &Vec<usize>, x: usize) -> (r: Vec<usize>)
    ensures
        r@ == remove_kid(v@, x),
{
    let n = v.len();
    let mut r: Vec<usize> = Vec::new();
    let mut j: usize = 0;
    proof {
        assert(v@.skip(0) =~= v@);
        assert(r@ + remove_kid(v@, x) =~= remove_kid(v@, x));
    }
    while j < n
        invariant
            n == v@.len(),
            j <= n,
            r@ + remove_kid(v@.skip(j as int), x) == remove_kid(v@, x),
        decreases n - j,
    {
        proof {
            assert(v@.skip(j as int)[0] == v@[j as int]);
            assert(v@.skip(j as int).drop_first() =~= v@.skip(j as int + 1));
        }
        if v[j] != x {
            r.push(v[j]);
            proof {
                assert(seq![v@[j as int]] + remove_kid(v@.skip(j as int + 1), x)
                    == remove_kid(v@.skip(j as int), x));
                assert(r@ + remove_kid(v@.skip(j as int + 1), x)
                    =~= (r@.drop_last() + (seq![v@[j as int]] + remove_kid(v@.skip(j as int + 1), x))));
            }
        }
        j += 1;
    }
    proof {
        assert(v@.skip(n as int) =~= Seq::<usize>::empty());
        assert(r@ + Seq::<usize>::empty() =~= r@);
    }
    r
}

/// Everything that survives `remove_kid` came from the input list and is
/// not the removed child.
pub proof fn lemma_remove_kid_members(s: Seq<usize>, x: usize)
    ensures
        forall|k: int| 0 <= k < remove_kid(s, x).len()
            ==> #[trigger] remove_kid(s, x)[k] != x && s.contains(remove_kid(s, x)[k]),
    decreases s.len(),
{
    if s.len() > 0 {
        lemma_remove_kid_members(s.drop_first(), x);
        assert forall|k: int| 0 <= k < remove_kid(s, x).len()
            implies #[trigger] remove_kid(s, x)[k] != x && s.contains(remove_kid(s, x)[k]) by {
            if s[0] == x {
                assert(remove_kid(s, x)[k] == remove_kid(s.drop_first(), x)[k]);
                let e = remove_kid(s.drop_first(), x)[k];
                assert(s.drop_first().contains(e));
                let w = choose|w: int| 0 <= w < s.drop_first().len() && s.drop_first()[w] == e;
                assert(s[w + 1] == e);
            } else {
                if k == 0 {
                    assert(remove_kid(s, x)[0] == s[0]);
                } else {
                    assert(remove_kid(s, x)[k] == remove_kid(s.drop_first(), x)[k - 1]);
                    let e = remove_kid(s.drop_first(), x)[k - 1];
                    assert(s.drop_first().contains(e));
                    let w = choose|w: int| 0 <= w < s.drop_first().len() && s.drop_first()[w] == e;
                    assert(s[w + 1] == e);
                }
            }
        }
    }
}

/// Filtering a child out of every slot's list filters it out of every key's
/// forwarding list.
proof fn lemma_kids_for_key_filter(
    s: Seq<(RegistrationKey, Vec<usize>)>,
    s2: Seq<(RegistrationKey, Vec<usize>)>,
    x: usize,
)
    requires
        s2.len() == s.len(),
        forall|j: int| 0 <= j < s.len() ==> (#[trigger] s2[j]).0 == s[j].0
            && s2[j].1@ == remove_kid(s[j].1@, x),
    ensures
        forall|tn: Seq<char>, id: Seq<char>|
            #[trigger] kids_for_key(s2, tn, id) == remove_kid(kids_for_key(s, tn, id), x),
    decreases s.len(),
{
    assert forall|tn: Seq<char>, id: Seq<char>|
        #[trigger] kids_for_key(s2, tn, id) == remove_kid(kids_for_key(s, tn, id), x) by {
        if s.len() == 0 {
            assert(kids_for_key(s2, tn, id) == Seq::<usize>::empty());
            assert(remove_kid(Seq::<usize>::empty(), x) == Seq::<usize>::empty());
        } else {
            assert(s2[0].0 == s[0].0 && s2[0].1@ == remove_kid(s[0].1@, x));
            if s[0].0.ty_name@ == tn && s[0].0.id@ == id {
                assert(kids_for_key(s, tn, id) == s[0].1@);
                assert(kids_for_key(s2, tn, id) == s2[0].1@);
            } else {
                assert(s2.drop_first().len() == s.drop_first().len());
                assert forall|j: int| 0 <= j < s.drop_first().len()
                    implies (#[trigger] s2.drop_first()[j]).0 == s.drop_first()[j].0
                        && s2.drop_first()[j].1@ == remove_kid(s.drop_first()[j].1@, x) by {
                    assert(s2.drop_first()[j] == s2[j + 1]);
                    assert(s.drop_first()[j] == s[j + 1]);
                }
                lemma_kids_for_key_filter(s.drop_first(), s2.drop_first(), x);
                assert(kids_for_key(s2, tn, id) == kids_for_key(s2.drop_first(), tn, id));
                assert(kids_for_key(s, tn, id) == kids_for_key(s.drop_first(), tn, id));
                assert(kids_for_key(s2.drop_first(), tn, id)
                    == remove_kid(kids_for_key(s.drop_first(), tn, id), x));
            }
        }
    }
}

/// Filtering a child out of every slot's list filters it out of every
/// family's forwarding list.
proof fn lemma_kids_for_family_filter(
    s: Seq<(String, Vec<usize>)>,
    s2: Seq<(String, Vec<usize>)>,
    x: usize,
)
    requires
        s2.len() == s.len(),
        forall|j: int| 0 <= j < s.len() ==> (#[trigger] s2[j]).0 == s[j].0
            && s2[j].1@ == remove_kid(s[j].1@, x),
    ensures
        forall|f: Seq<char>|
            #[trigger] kids_for_family(s2, f) == remove_kid(kids_for_family(s, f), x),
    decreases s.len(),
{
    assert forall|f: Seq<char>|
        #[trigger] kids_for_family(s2, f) == remove_kid(kids_for_family(s, f), x) by {
        if s.len() == 0 {
            assert(kids_for_family(s2, f) == Seq::<usize>::empty());
            assert(remove_kid(Seq::<usize>::empty(), x) == Seq::<usize>::empty());
        } else {
            assert(s2[0].0 == s[0].0 && s2[0].1@ == remove_kid(s[0].1@, x));
            if s[0].0@ == f {
                assert(kids_for_family(s, f) == s[0].1@);
                assert(kids_for_family(s2, f) == s2[0].1@);
            } else {
                assert(s2.drop_first().len() == s.drop_first().len());
                assert forall|j: int| 0 <= j < s.drop_first().len()
                    implies (#[trigger] s2.drop_first()[j]).0 == s.drop_first()[j].0
                        && s2.drop_first()[j].1@ == remove_kid(s.drop_first()[j].1@, x) by {
                    assert(s2.drop_first()[j] == s2[j + 1]);
                    assert(s.drop_first()[j] == s[j + 1]);
                }
                lemma_kids_for_family_filter(s.drop_first(), s2.drop_first(), x);
                assert(kids_for_family(s2, f) == kids_for_family(s2.drop_first(), f));
                assert(kids_for_family(s, f) == kids_for_family(s.drop_first(), f));
                assert(kids_for_family(s2.drop_first(), f)
                    == remove_kid(kids_for_family(s.drop_first(), f), x));
            }
        }
    }
}


/// Record `child` in the forwarding list for `(ty_name, id)`, creating the
/// slot when the key has none.
fn push_kid_for_key(
    v: &mut Vec<(RegistrationKey, Vec<usize>)>,
    ty_name: String,
    id: String,
    child: usize,
)
    ensures
        forall|tn: Seq<char>, i: Seq<char>|
            #[trigger] kids_for_key(final(v)@, tn, i)
                == if tn == ty_name@ && i == id@ {
                    kids_for_key(old(v)@, tn, i).push(child)
                } else {
                    kids_for_key(old(v)@, tn, i)
                },
{
    match position_kids_key(v, &ty_name, &id) {
        Some(j) => {
            proof {
                lemma_kids_for_key_update(v@, j as int, child);
            }
            v[j].1.push(child);
        },
        None => {
            let key = RegistrationKey { ty_name, id };
            let mut fresh: Vec<usize> = Vec::new();
            fresh.push(child);
            proof {
                lemma_kids_for_key_push(v@, key.ty_name@, key.id@, child);
                assert(fresh@ =~= seq![child]);
            }
            v.push((key, fresh));
        },
    }
}

/// Record `child` in the forwarding list for the family `f`, creating the
/// slot when the family has none.
fn push_kid_for_family(v: &mut Vec<(String, Vec<usize>)>, f: String, child: usize)
    ensures
        forall|fv: Seq<char>|
            #[trigger] kids_for_family(final(v)@, fv)
                == if fv == f@ {
                    kids_for_family(old(v)@, fv).push(child)
                } else {
                    kids_for_family(old(v)@, fv)
                },
{
    match position_kids_family(v, &f) {
        Some(j) => {
            proof {
                lemma_kids_for_family_update(v@, j as int, child);
            }
            v[j].1.push(child);
        },
        None => {
            let mut fresh: Vec<usize> = Vec::new();
            fresh.push(child);
            proof {
                lemma_kids_for_family_push(v@, f@, child);
                assert(fresh@ =~= seq![child]);
            }
            v.push((f, fresh));
        },
    }
}

/// Index of the first forwarding slot matching `(ty_name, id)`, with the
/// miss facts a caller needs about the prefix.
fn position_kids_key(
    v: &Vec<(RegistrationKey, Vec<usize>)>,
    ty_name: &String,
    id: &String,
) -> (r: Option<usize>)
    ensures
        match r {
            Some(j) => {
                &&& j < v@.len()
                &&& v@[j as int].0.ty_name@ == ty_name@ && v@[j as int].0.id@ == id@
                &&& forall|k: int| 0 <= k < j
                    ==> !((#[trigger] v@[k]).0.ty_name@ == ty_name@ && v@[k].0.id@ == id@)
            },
            None => forall|k: int| 0 <= k < v@.len()
                ==> !((#[trigger] v@[k]).0.ty_name@ == ty_name@ && v@[k].0.id@ == id@),
        },
{
    let n = v.len();
    let mut j: usize = 0;
    while j < n
        invariant
            n == v@.len(),
            j <= n,
            forall|k: int| 0 <= k < j
                ==> !((#[trigger] v@[k]).0.ty_name@ == ty_name@ && v@[k].0.id@ == id@),
        decreases n - j,
    {
        if v[j].0.ty_name == *ty_name && v[j].0.id == *id {
            return Some(j);
        }
        j += 1;
    }
    None
}

/// Index of the first forwarding slot for the family `f`, with the miss
/// facts a caller needs about the prefix.
fn position_kids_family(v: &Vec<(String, Vec<usize>)>, f: &String) -> (r: Option<usize>)
    ensures
        match r {
            Some(j) => {
                &&& j < v@.len()
                &&& v@[j as int].0@ == f@
                &&& forall|k: int| 0 <= k < j ==> (#[trigger] v@[k]).0@ != f@
            },
            None => forall|k: int| 0 <= k < v@.len() ==> (#[trigger] v@[k]).0@ != f@,
        },
{
    let n = v.len();
    let mut j: usize = 0;
    while j < n
        invariant
            n == v@.len(),
            j <= n,
            forall|k: int| 0 <= k < j ==> (#[trigger] v@[k]).0@ != f@,
        decreases n - j,
    {
        if v[j].0 == *f {
            return Some(j);
        }
        j += 1;
    }
    None
}

/// Cloned re-registration declarations are the very same values.
pub(crate) fn clone_reregs(v: &Vec<ReRegistration>) -> (r: Vec<ReRegistration>)
    ensures
        r@ == v@,
{
    let n = v.len();
    let mut r: Vec<ReRegistration> = Vec::new();
    let mut j: usize = 0;
    while j < n
        invariant
            n == v@.len(),
            j <= n,
            r@ == v@.take(j as int),
        decreases n - j,
    {
        let e = ReRegistration { ty_name: v[j].ty_name.clone(), id: v[j].id.clone() };
        proof {
            assert(e == v@[j as int]);
            assert(v@.take(j as int + 1) =~= v@.take(j as int).push(v@[j as int]));
        }
        r.push(e);
        j += 1;
    }
    proof {
        assert(v@.take(n as int) =~= v@);
    }
    r
}

/// Cloned family names are the very same values.
pub(crate) fn clone_strings(v: &Vec<String>) -> (r: Vec<String>)
    ensures
        r@ == v@,
{
    let n = v.len();
    let mut r: Vec<String> = Vec::new();
    let mut j: usize = 0;
    while j < n
        invariant
            n == v@.len(),
            j <= n,
            r@ == v@.take(j as int),
        decreases n - j,
    {
        let e = v[j].clone();
        proof {
            assert(v@.take(j as int + 1) =~= v@.take(j as int).push(v@[j as int]));
        }
        r.push(e);
        j += 1;
    }
    proof {
        assert(v@.take(n as int) =~= v@);
    }
    r
}

/// Pushing onto the list of the first slot matching the key changes the
/// forwarding map at exactly that key.
proof fn lemma_kids_for_key_update(s: Seq<(RegistrationKey, Vec<usize>)>, j: int, child: usize)
    requires
        0 <= j < s.len(),
        forall|k: int| 0 <= k < j
            ==> !((#[trigger] s[k]).0.ty_name@ == s[j].0.ty_name@ && s[k].0.id@ == s[j].0.id@),
    ensures
        forall|tn: Seq<char>, i: Seq<char>, v2: Vec<usize>|
            v2@ == s[j].1@.push(child)
                ==> #[trigger] kids_for_key(s.update(j, (s[j].0, v2)), tn, i)
                    == if tn == s[j].0.ty_name@ && i == s[j].0.id@ {
                        kids_for_key(s, tn, i).push(child)
                    } else {
                        kids_for_key(s, tn, i)
                    },
    decreases s.len(),
{
    assert forall|tn: Seq<char>, i: Seq<char>, v2: Vec<usize>|
        v2@ == s[j].1@.push(child)
            implies #[trigger] kids_for_key(s.update(j, (s[j].0, v2)), tn, i)
                == if tn == s[j].0.ty_name@ && i == s[j].0.id@ {
                    kids_for_key(s, tn, i).push(child)
                } else {
                    kids_for_key(s, tn, i)
                }
    by {
        lemma_kids_for_key_update_one(s, j, child, tn, i, v2);
    }
}

proof fn lemma_kids_for_key_update_one(
    s: Seq<(RegistrationKey, Vec<usize>)>,
    j: int,
    child: usize,
    tn: Seq<char>,
    i: Seq<char>,
    v2: Vec<usize>,
)
    requires
        0 <= j < s.len(),
        forall|k: int| 0 <= k < j
            ==> !((#[trigger] s[k]).0.ty_name@ == s[j].0.ty_name@ && s[k].0.id@ == s[j].0.id@),
        v2@ == s[j].1@.push(child),
    ensures
        kids_for_key(s.update(j, (s[j].0, v2)), tn, i)
            == if tn == s[j].0.ty_name@ && i == s[j].0.id@ {
                kids_for_key(s, tn, i).push(child)
            } else {
                kids_for_key(s, tn, i)
            },
    decreases s.len(),
{
    let s2 = s.update(j, (s[j].0, v2));
    if j == 0 {
        assert(s2[0].0 == s[0].0);
        assert(s2[0].1@ == s[0].1@.push(child));
        if !(tn == s[0].0.ty_name@ && i == s[0].0.id@) {
            assert(s2.drop_first() =~= s.drop_first());
        }
    } else {
        assert(s2[0] == s[0]);
        assert(s2.drop_first() =~= s.drop_first().update(j - 1, (s[j].0, v2)));
        assert(s.drop_first()[j - 1] == s[j]);
        lemma_kids_for_key_update_one(s.drop_first(), j - 1, child, tn, i, v2);
    }
}

/// Appending a fresh single-child slot for a key that has no earlier slot
/// changes the forwarding map at exactly that key.
proof fn lemma_kids_for_key_push(
    s: Seq<(RegistrationKey, Vec<usize>)>,
    tn0: Seq<char>,
    id0: Seq<char>,
    child: usize,
)
    requires
        forall|k: int| 0 <= k < s.len()
            ==> !((#[trigger] s[k]).0.ty_name@ == tn0 && s[k].0.id@ == id0),
    ensures
        forall|tn: Seq<char>, i: Seq<char>, key: RegistrationKey, v: Vec<usize>|
            key.ty_name@ == tn0 && key.id@ == id0 && v@ =~= seq![child]
                ==> #[trigger] kids_for_key(s.push((key, v)), tn, i)
                    == if tn == tn0 && i == id0 {
                        kids_for_key(s, tn, i).push(child)
                    } else {
                        kids_for_key(s, tn, i)
                    },
    decreases s.len(),
{
    assert forall|tn: Seq<char>, i: Seq<char>, key: RegistrationKey, v: Vec<usize>|
        key.ty_name@ == tn0 && key.id@ == id0 && v@ =~= seq![child]
            implies #[trigger] kids_for_key(s.push((key, v)), tn, i)
                == if tn == tn0 && i == id0 {
                    kids_for_key(s, tn, i).push(child)
                } else {
                    kids_for_key(s, tn, i)
                }
    by {
        lemma_kids_for_key_push_one(s, tn0, id0, child, tn, i, key, v);
    }
}

proof fn lemma_kids_for_key_push_one(
    s: Seq<(RegistrationKey, Vec<usize>)>,
    tn0: Seq<char>,
    id0: Seq<char>,
    child: usize,
    tn: Seq<char>,
    i: Seq<char>,
    key: RegistrationKey,
    v: Vec<usize>,
)
    requires
        forall|k: int| 0 <= k < s.len()
            ==> !((#[trigger] s[k]).0.ty_name@ == tn0 && s[k].0.id@ == id0),
        key.ty_name@ == tn0,
        key.id@ == id0,
        v@ =~= seq![child],
    ensures
        kids_for_key(s.push((key, v)), tn, i)
            == if tn == tn0 && i == id0 {
                kids_for_key(s, tn, i).push(child)
            } else {
                kids_for_key(s, tn, i)
            },
    decreases s.len(),
{
    let s2 = s.push((key, v));
    if s.len() == 0 {
        assert(s2[0] == (key, v));
        assert(s2.drop_first() =~= Seq::<(RegistrationKey, Vec<usize>)>::empty());
        if tn == tn0 && i == id0 {
            assert(v@ =~= Seq::<usize>::empty().push(child));
            assert(kids_for_key(s, tn, i) == Seq::<usize>::empty());
        } else {
            assert(kids_for_key(s2, tn, i) == kids_for_key(s2.drop_first(), tn, i));
        }
    } else {
        assert(s2[0] == s[0]);
        assert(s2.drop_first() =~= s.drop_first().push((key, v)));
        lemma_kids_for_key_push_one(s.drop_first(), tn0, id0, child, tn, i, key, v);
        assert(!(s[0].0.ty_name@ == tn0 && s[0].0.id@ == id0));
        if s[0].0.ty_name@ == tn && s[0].0.id@ == i {
            assert(kids_for_key(s2, tn, i) == s[0].1@);
            assert(kids_for_key(s, tn, i) == s[0].1@);
        } else {
            assert(kids_for_key(s2, tn, i) == kids_for_key(s.drop_first().push((key, v)), tn, i));
            assert(kids_for_key(s, tn, i) == kids_for_key(s.drop_first(), tn, i));
        }
    }
}

/// Pushing onto the list of the first slot matching the family changes the
/// forwarding map at exactly that family.
proof fn lemma_kids_for_family_update(s: Seq<(String, Vec<usize>)>, j: int, child: usize)
    requires
        0 <= j < s.len(),
        forall|k: int| 0 <= k < j ==> (#[trigger] s[k]).0@ != s[j].0@,
    ensures
        forall|f: Seq<char>, v2: Vec<usize>|
            v2@ == s[j].1@.push(child)
                ==> #[trigger] kids_for_family(s.update(j, (s[j].0, v2)), f)
                    == if f == s[j].0@ {
                        kids_for_family(s, f).push(child)
                    } else {
                        kids_for_family(s, f)
                    },
    decreases s.len(),
{
    assert forall|f: Seq<char>, v2: Vec<usize>|
        v2@ == s[j].1@.push(child)
            implies #[trigger] kids_for_family(s.update(j, (s[j].0, v2)), f)
                == if f == s[j].0@ {
                    kids_for_family(s, f).push(child)
                } else {
                    kids_for_family(s, f)
                }
    by {
        lemma_kids_for_family_update_one(s, j, child, f, v2);
    }
}

proof fn lemma_kids_for_family_update_one(
    s: Seq<(String, Vec<usize>)>,
    j: int,
    child: usize,
    f: Seq<char>,
    v2: Vec<usize>,
)
    requires
        0 <= j < s.len(),
        forall|k: int| 0 <= k < j ==> (#[trigger] s[k]).0@ != s[j].0@,
        v2@ == s[j].1@.push(child),
    ensures
        kids_for_family(s.update(j, (s[j].0, v2)), f)
            == if f == s[j].0@ {
                kids_for_family(s, f).push(child)
            } else {
                kids_for_family(s, f)
            },
    decreases s.len(),
{
    let s2 = s.update(j, (s[j].0, v2));
    if j == 0 {
        assert(s2[0].0 == s[0].0);
        assert(s2[0].1@ == s[0].1@.push(child));
        if f != s[0].0@ {
            assert(s2.drop_first() =~= s.drop_first());
        }
    } else {
        assert(s2[0] == s[0]);
        assert(s2.drop_first() =~= s.drop_first().update(j - 1, (s[j].0, v2)));
        assert(s.drop_first()[j - 1] == s[j]);
        lemma_kids_for_family_update_one(s.drop_first(), j - 1, child, f, v2);
    }
}

/// Appending a fresh single-child slot for a family that has no earlier
/// slot changes the forwarding map at exactly that family.
proof fn lemma_kids_for_family_push(s: Seq<(String, Vec<usize>)>, f0: Seq<char>, child: usize)
    requires
        forall|k: int| 0 <= k < s.len() ==> (#[trigger] s[k]).0@ != f0,
    ensures
        forall|f: Seq<char>, key: String, v: Vec<usize>|
            key@ == f0 && v@ =~= seq![child]
                ==> #[trigger] kids_for_family(s.push((key, v)), f)
                    == if f == f0 {
                        kids_for_family(s, f).push(child)
                    } else {
                        kids_for_family(s, f)
                    },
    decreases s.len(),
{
    assert forall|f: Seq<char>, key: String, v: Vec<usize>|
        key@ == f0 && v@ =~= seq![child]
            implies #[trigger] kids_for_family(s.push((key, v)), f)
                == if f == f0 {
                    kids_for_family(s, f).push(child)
                } else {
                    kids_for_family(s, f)
                }
    by {
        lemma_kids_for_family_push_one(s, f0, child, f, key, v);
    }
}

proof fn lemma_kids_for_family_push_one(
    s: Seq<(String, Vec<usize>)>,
    f0: Seq<char>,
    child: usize,
    f: Seq<char>,
    key: String,
    v: Vec<usize>,
)
    requires
        forall|k: int| 0 <= k < s.len() ==> (#[trigger] s[k]).0@ != f0,
        key@ == f0,
        v@ =~= seq![child],
    ensures
        kids_for_family(s.push((key, v)), f)
            == if f == f0 {
                kids_for_family(s, f).push(child)
            } else {
                kids_for_family(s, f)
            },
    decreases s.len(),
{
    let s2 = s.push((key, v));
    if s.len() == 0 {
        assert(s2[0] == (key, v));
        assert(s2.drop_first() =~= Seq::<(String, Vec<usize>)>::empty());
        if f == f0 {
            assert(v@ =~= Seq::<usize>::empty().push(child));
            assert(kids_for_family(s, f) == Seq::<usize>::empty());
        } else {
            assert(kids_for_family(s2, f) == kids_for_family(s2.drop_first(), f));
        }
    } else {
        assert(s2[0] == s[0]);
        assert(s2.drop_first() =~= s.drop_first().push((key, v)));
        lemma_kids_for_family_push_one(s.drop_first(), f0, child, f, key, v);
        assert(s[0].0@ != f0);
        if s[0].0@ == f {
            assert(kids_for_family(s2, f) == s[0].1@);
            assert(kids_for_family(s, f) == s[0].1@);
        } else {
            assert(kids_for_family(s2, f) == kids_for_family(s.drop_first().push((key, v)), f));
            assert(kids_for_family(s, f) == kids_for_family(s.drop_first(), f));
        }
    }
}

/// Overwriting the first entry matching `(tn, id)` changes the map at exactly
/// that key.
proof fn lemma_find_registered_update(
    s: Seq<(RegistrationKey, u64)>,
    j: int,
    tn: Seq<char>,
    id: Seq<char>,
    node: u64,
)
    requires
        0 <= j < s.len(),
        s[j].0.ty_name@ == tn && s[j].0.id@ == id,
        forall|k: int| 0 <= k < j ==> !((#[trigger] s[k]).0.ty_name@ == tn && s[k].0.id@ == id),
    ensures
        forall|tn2: Seq<char>, id2: Seq<char>|
            #[trigger] find_registered(s.update(j, (s[j].0, node)), tn2, id2)
                == if tn2 == tn && id2 == id { Some(node) } else { find_registered(s, tn2, id2) },
    decreases s.len(),
{
    let s2 = s.update(j, (s[j].0, node));
    assert forall|tn2: Seq<char>, id2: Seq<char>|
        #[trigger] find_registered(s2, tn2, id2)
            == if tn2 == tn && id2 == id { Some(node) } else { find_registered(s, tn2, id2) }
    by {
        lemma_find_registered_update_one(s, j, tn, id, node, tn2, id2);
    }
}

proof fn lemma_find_registered_update_one(
    s: Seq<(RegistrationKey, u64)>,
    j: int,
    tn: Seq<char>,
    id: Seq<char>,
    node: u64,
    tn2: Seq<char>,
    id2: Seq<char>,
)
    requires
        0 <= j < s.len(),
        s[j].0.ty_name@ == tn && s[j].0.id@ == id,
        forall|k: int| 0 <= k < j ==> !((#[trigger] s[k]).0.ty_name@ == tn && s[k].0.id@ == id),
    ensures
        find_registered(s.update(j, (s[j].0, node)), tn2, id2)
            == if tn2 == tn && id2 == id { Some(node) } else { find_registered(s, tn2, id2) },
    decreases s.len(),
{
    let s2 = s.update(j, (s[j].0, node));
    if j == 0 {
        assert(s2[0] == (s[0].0, node));
        if !(tn2 == tn && id2 == id) {
            assert(s2.drop_first() =~= s.drop_first());
        }
    } else {
        assert(s2[0] == s[0]);
        assert(s2.drop_first() =~= s.drop_first().update(j - 1, (s[j].0, node)));
        assert(s.drop_first()[j - 1] == s[j]);
        lemma_find_registered_update_one(s.drop_first(), j - 1, tn, id, node, tn2, id2);
    }
}

/// Appending an entry for a key that has no earlier entry changes the map at
/// exactly that key.
proof fn lemma_find_registered_push(s: Seq<(RegistrationKey, u64)>, key: RegistrationKey, node: u64)
    requires
        forall|k: int| 0 <= k < s.len()
            ==> !((#[trigger] s[k]).0.ty_name@ == key.ty_name@ && s[k].0.id@ == key.id@),
    ensures
        forall|tn2: Seq<char>, id2: Seq<char>|
            #[trigger] find_registered(s.push((key, node)), tn2, id2)
                == if tn2 == key.ty_name@ && id2 == key.id@ {
                    Some(node)
                } else {
                    find_registered(s, tn2, id2)
                },
    decreases s.len(),
{
    assert forall|tn2: Seq<char>, id2: Seq<char>|
        #[trigger] find_registered(s.push((key, node)), tn2, id2)
            == if tn2 == key.ty_name@ && id2 == key.id@ {
                Some(node)
            } else {
                find_registered(s, tn2, id2)
            }
    by {
        lemma_find_registered_push_one(s, key, node, tn2, id2);
    }
}

proof fn lemma_find_registered_push_one(
    s: Seq<(RegistrationKey, u64)>,
    key: RegistrationKey,
    node: u64,
    tn2: Seq<char>,
    id2: Seq<char>,
)
    requires
        forall|k: int| 0 <= k < s.len()
            ==> !((#[trigger] s[k]).0.ty_name@ == key.ty_name@ && s[k].0.id@ == key.id@),
    ensures
        find_registered(s.push((key, node)), tn2, id2)
            == if tn2 == key.ty_name@ && id2 == key.id@ {
                Some(node)
            } else {
                find_registered(s, tn2, id2)
            },
    decreases s.len(),
{
    let s2 = s.push((key, node));
    if s.len() == 0 {
        assert(s2[0] == (key, node));
        assert(s2.drop_first() =~= Seq::<(RegistrationKey, u64)>::empty());
        if tn2 == key.ty_name@ && id2 == key.id@ {
            assert(find_registered(s2, tn2, id2) == Some(node));
        } else {
            assert(find_registered(s2, tn2, id2) == find_registered(s2.drop_first(), tn2, id2));
            assert(find_registered(s, tn2, id2) is None);
        }
    } else {
        assert(s2[0] == s[0]);
        assert(s2.drop_first() =~= s.drop_first().push((key, node)));
        lemma_find_registered_push_one(s.drop_first(), key, node, tn2, id2);
        assert(!(s[0].0.ty_name@ == key.ty_name@ && s[0].0.id@ == key.id@));
        if s[0].0.ty_name@ == tn2 && s[0].0.id@ == id2 {
            assert(find_registered(s2, tn2, id2) == Some(s[0].1));
            assert(find_registered(s, tn2, id2) == Some(s[0].1));
        } else {
            assert(find_registered(s2, tn2, id2) == find_registered(s.drop_first().push((key, node)), tn2, id2));
            assert(find_registered(s, tn2, id2) == find_registered(s.drop_first(), tn2, id2));
        }
    }
}

/// Pushing onto the list of the first entry matching the family changes the
/// family map at exactly that family.
proof fn lemma_family_nodes_update(s: Seq<(String, Vec<u64>)>, j: int, node: u64)
    requires
        0 <= j < s.len(),
        forall|k: int| 0 <= k < j ==> (#[trigger] s[k]).0@ != s[j].0@,
    ensures
        forall|f: Seq<char>, v2: Vec<u64>|
            v2@ == s[j].1@.push(node)
                ==> #[trigger] family_nodes(s.update(j, (s[j].0, v2)), f)
                    == if f == s[j].0@ { family_nodes(s, f).push(node) } else { family_nodes(s, f) },
    decreases s.len(),
{
    assert forall|f: Seq<char>, v2: Vec<u64>|
        v2@ == s[j].1@.push(node)
            implies #[trigger] family_nodes(s.update(j, (s[j].0, v2)), f)
                == if f == s[j].0@ { family_nodes(s, f).push(node) } else { family_nodes(s, f) }
    by {
        lemma_family_nodes_update_one(s, j, node, f, v2);
    }
}

proof fn lemma_family_nodes_update_one(
    s: Seq<(String, Vec<u64>)>,
    j: int,
    node: u64,
    f: Seq<char>,
    v2: Vec<u64>,
)
    requires
        0 <= j < s.len(),
        forall|k: int| 0 <= k < j ==> (#[trigger] s[k]).0@ != s[j].0@,
        v2@ == s[j].1@.push(node),
    ensures
        family_nodes(s.update(j, (s[j].0, v2)), f)
            == if f == s[j].0@ { family_nodes(s, f).push(node) } else { family_nodes(s, f) },
    decreases s.len(),
{
    let s2 = s.update(j, (s[j].0, v2));
    if j == 0 {
        assert(s2[0].0 == s[0].0);
        assert(s2[0].1@ == s[0].1@.push(node));
        if f != s[0].0@ {
            assert(s2.drop_first() =~= s.drop_first());
        }
    } else {
        assert(s2[0] == s[0]);
        assert(s2.drop_first() =~= s.drop_first().update(j - 1, (s[j].0, v2)));
        assert(s.drop_first()[j - 1] == s[j]);
        lemma_family_nodes_update_one(s.drop_first(), j - 1, node, f, v2);
    }
}

/// Appending a fresh single-node entry for a family that has no earlier entry
/// changes the family map at exactly that family.
proof fn lemma_family_nodes_push(s: Seq<(String, Vec<u64>)>, f0: Seq<char>, node: u64)
    requires
        forall|k: int| 0 <= k < s.len() ==> (#[trigger] s[k]).0@ != f0,
    ensures
        forall|f: Seq<char>, key: String, v: Vec<u64>|
            key@ == f0 && v@ =~= seq![node]
                ==> #[trigger] family_nodes(s.push((key, v)), f)
                    == if f == f0 { family_nodes(s, f).push(node) } else { family_nodes(s, f) },
    decreases s.len(),
{
    assert forall|f: Seq<char>, key: String, v: Vec<u64>|
        key@ == f0 && v@ =~= seq![node]
            implies #[trigger] family_nodes(s.push((key, v)), f)
                == if f == f0 { family_nodes(s, f).push(node) } else { family_nodes(s, f) }
    by {
        lemma_family_nodes_push_one(s, f0, node, f, key, v);
    }
}

proof fn lemma_family_nodes_push_one(
    s: Seq<(String, Vec<u64>)>,
    f0: Seq<char>,
    node: u64,
    f: Seq<char>,
    key: String,
    v: Vec<u64>,
)
    requires
        forall|k: int| 0 <= k < s.len() ==> (#[trigger] s[k]).0@ != f0,
        key@ == f0,
        v@ =~= seq![node],
    ensures
        family_nodes(s.push((key, v)), f)
            == if f == f0 { family_nodes(s, f).push(node) } else { family_nodes(s, f) },
    decreases s.len(),
{
    let s2 = s.push((key, v));
    if s.len() == 0 {
        assert(s2[0] == (key, v));
        assert(s2.drop_first() =~= Seq::<(String, Vec<u64>)>::empty());
        if f == f0 {
            assert(s2[0].0@ == f);
            assert(family_nodes(s2, f) == v@);
            assert(family_nodes(s, f) == Seq::<u64>::empty());
            assert(v@ =~= Seq::<u64>::empty().push(node));
            assert(family_nodes(s2, f) == family_nodes(s, f).push(node));
        } else {
            assert(s2[0].0@ != f);
            assert(family_nodes(s2, f) == family_nodes(s2.drop_first(), f));
            assert(family_nodes(s2, f) == Seq::<u64>::empty());
            assert(family_nodes(s, f) == Seq::<u64>::empty());
        }
    } else {
        assert(s2[0] == s[0]);
        assert(s2.drop_first() =~= s.drop_first().push((key, v)));
        lemma_family_nodes_push_one(s.drop_first(), f0, node, f, key, v);
        assert(s[0].0@ != f0);
        if s[0].0@ == f {
            assert(f != f0);
            assert(family_nodes(s2, f) == s[0].1@);
            assert(family_nodes(s, f) == s[0].1@);
        } else {
            assert(family_nodes(s2, f) == family_nodes(s.drop_first().push((key, v)), f));
            assert(family_nodes(s, f) == family_nodes(s.drop_first(), f));
        }
    }
}

} // verus!
