//! The single-value registration entry point: a marker placed under a
//! producer node which, when it enters the live tree, registers its parent
//! into the nearest enclosing context (or the nearest strictly above it)
//! and is then discarded by the host.

use vstd::prelude::*;

use crate::di_context::find_registered;
use crate::di_context::spec_registration_name;
use crate::host_tree::HostTree;
use crate::registry::DiRegistry;
use crate::registry::ctx_same_but_registered;

verus! {

/// Configuration of one registration marker: the type name to register
/// under (empty means "ask the node"), the instance id, whether the host
/// should free the marker afterwards, and whether a context anchored at the
/// node itself counts as "nearest".
pub struct DiRegistration {
    pub ty_name: String,
    pub id: String,
    pub remove_registration_object: bool,
    pub register_into_own_context: bool,
}

/// The context a registration aims at: the nearest context at the node, or
/// the nearest strictly above it.
pub open spec fn spec_registration_target(
    reg: DiRegistry,
    tree: HostTree,
    node: u64,
    register_into_own_context: bool,
) -> Option<usize> {
    if register_into_own_context {
        reg.spec_nearest(tree, node)
    } else {
        reg.spec_nearest_exclude(tree, node)
    }
}

impl DiRegistration {
    /// A marker with the host's default configuration.
    pub fn init() -> (r: DiRegistration)
        ensures
            r.ty_name@ == Seq::<char>::empty(),
            r.id@ == Seq::<char>::empty(),
            !r.remove_registration_object,
            !r.register_into_own_context,
    {
        DiRegistration {
            ty_name: String::new(),
            id: String::new(),
            remove_registration_object: false,
            register_into_own_context: false,
        }
    }

    /// Register `node_to_register` into its target context, under the given
    /// type name, or under the name the node reports when the given name is
    /// empty. When no context exists anywhere in the node's parentage the
    /// attempt is skipped and the registry is left untouched: a missing
    /// context is a recoverable configuration gap, not an error.
    pub fn register(
        reg: &mut DiRegistry,
        tree: &HostTree,
        node_to_register: u64,
        ty_name: &String,
        id: &String,
        register_into_own_context: bool,
    )
        requires
            old(reg).wf(),
            tree.wf(),
            tree.spec_has_node(node_to_register),
        ensures
            final(reg).wf(),
            ({
                let target = spec_registration_target(
                    *old(reg),
                    *tree,
                    node_to_register,
                    register_into_own_context,
                );
                match target {
                    None => *final(reg) == *old(reg),
                    Some(ct) => {
                        let name = if ty_name@.len() == 0 {
                            spec_registration_name(*tree, node_to_register)
                        } else {
                            ty_name@
                        };
                        &&& final(reg).contexts@.len() == old(reg).contexts@.len()
                        &&& final(reg).node_index == old(reg).node_index
                        &&& forall|tn: Seq<char>, i2: Seq<char>|
                            #[trigger] find_registered(
                                final(reg).contexts@[ct as int].registered_nodes@, tn, i2)
                                == if tn == name && i2 == id@ {
                                    Some(node_to_register)
                                } else {
                                    find_registered(
                                        old(reg).contexts@[ct as int].registered_nodes@, tn, i2)
                                }
                        &&& forall|x: int| 0 <= x < old(reg).contexts@.len() && x != ct
                            ==> final(reg).contexts@[x] == old(reg).contexts@[x]
                        &&& ctx_same_but_registered(
                            final(reg).contexts@[ct as int],
                            old(reg).contexts@[ct as int],
                        )
                    },
                }
            }),
    {
        let context = if register_into_own_context {
            reg.get_nearest(tree, node_to_register)
        } else {
            reg.get_nearest_exclude_self(tree, node_to_register)
        };
        match context {
            Some(ct) => {
                proof {
                    crate::registry::lemma_registration_target_valid(
                        *reg,
                        *tree,
                        node_to_register,
                        register_into_own_context,
                    );
                }
                if ty_name.as_str().is_empty() {
                    reg.register(tree, ct, node_to_register, id.clone());
                } else {
                    reg.register_with_type(ct, node_to_register, ty_name.clone(), id.clone());
                }
            },
            None => {
                // a producer with no context in its parentage: the
                // registration attempt is skipped
            },
        }
    }

    /// Register `node_to_register` under the name it reports itself,
    /// skipping silently when no context exists in its parentage.
    pub fn register_auto_type(
        reg: &mut DiRegistry,
        tree: &HostTree,
        node_to_register: u64,
        id: &String,
        register_into_own_context: bool,
    )
        requires
            old(reg).wf(),
            tree.wf(),
            tree.spec_has_node(node_to_register),
        ensures
            final(reg).wf(),
            ({
                let target = spec_registration_target(
                    *old(reg),
                    *tree,
                    node_to_register,
                    register_into_own_context,
                );
                match target {
                    None => *final(reg) == *old(reg),
                    Some(ct) => {
                        let name = spec_registration_name(*tree, node_to_register);
                        &&& final(reg).contexts@.len() == old(reg).contexts@.len()
                        &&& final(reg).node_index == old(reg).node_index
                        &&& forall|tn: Seq<char>, i2: Seq<char>|
                            #[trigger] find_registered(
                                final(reg).contexts@[ct as int].registered_nodes@, tn, i2)
                                == if tn == name && i2 == id@ {
                                    Some(node_to_register)
                                } else {
                                    find_registered(
                                        old(reg).contexts@[ct as int].registered_nodes@, tn, i2)
                                }
                        &&& forall|x: int| 0 <= x < old(reg).contexts@.len() && x != ct
                            ==> final(reg).contexts@[x] == old(reg).contexts@[x]
                        &&& ctx_same_but_registered(
                            final(reg).contexts@[ct as int],
                            old(reg).contexts@[ct as int],
                        )
                    },
                }
            }),
    {
        let context = if register_into_own_context {
            reg.get_nearest(tree, node_to_register)
        } else {
            reg.get_nearest_exclude_self(tree, node_to_register)
        };
        match context {
            Some(ct) => {
                proof {
                    crate::registry::lemma_registration_target_valid(
                        *reg,
                        *tree,
                        node_to_register,
                        register_into_own_context,
                    );
                }
                reg.register(tree, ct, node_to_register, id.clone());
            },
            None => {
                // a producer with no context in its parentage: the
                // registration attempt is skipped
            },
        }
    }

    /// What the marker does when it enters the live tree: register its
    /// parent node, then let the host free the marker. The marker node
    /// always has a parent (it is placed under the node it registers).
    pub fn enter_tree(&self, reg: &mut DiRegistry, tree: &HostTree, self_node: u64)
        requires
            old(reg).wf(),
            tree.wf(),
            tree.spec_has_node(self_node),
            tree.spec_parent(self_node) is Some,
            tree.spec_has_node(tree.spec_parent(self_node).unwrap()),
        ensures
            final(reg).wf(),
            ({
                let node = tree.spec_parent(self_node).unwrap();
                let target = spec_registration_target(
                    *old(reg),
                    *tree,
                    node,
                    self.register_into_own_context,
                );
                match target {
                    None => *final(reg) == *old(reg),
                    Some(ct) => {
                        let name = if self.ty_name@.len() == 0 {
                            spec_registration_name(*tree, node)
                        } else {
                            self.ty_name@
                        };
                        forall|tn: Seq<char>, i2: Seq<char>|
                            #[trigger] find_registered(
                                final(reg).contexts@[ct as int].registered_nodes@, tn, i2)
                                == if tn == name && i2 == self.id@ {
                                    Some(node)
                                } else {
                                    find_registered(
                                        old(reg).contexts@[ct as int].registered_nodes@, tn, i2)
                                }
                    },
                }
            }),
    {
        let parent = tree.parent_of(self_node).unwrap();
        DiRegistration::register(
            reg,
            tree,
            parent,
            &self.ty_name,
            &self.id,
            self.register_into_own_context,
        );
    }
}

} // verus!
