//! The multi-registration entry point: a marker placed under a producer
//! node which, when it enters the live tree, appends its parent to a
//! capability family's list in the nearest enclosing context.

use vstd::prelude::*;

use crate::di_context::family_nodes;
use crate::di_registration::spec_registration_target;
use crate::host_tree::HostTree;
use crate::registry::DiRegistry;
use crate::registry::ctx_same_but_multiregistered;

verus! {

/// Configuration of one multi-registration marker: the family name to
/// register under (empty means "use the node's class name"), whether the
/// host should free the marker afterwards, and whether a context anchored
/// at the node itself counts as "nearest".
pub struct DiMultiRegistration {
    pub ty_name: String,
    pub remove_registration_object: bool,
    pub register_into_own_context: bool,
}

impl DiMultiRegistration {
    /// A marker with the host's default configuration.
    pub fn init() -> (r: DiMultiRegistration)
        ensures
            r.ty_name@ == Seq::<char>::empty(),
            !r.remove_registration_object,
            !r.register_into_own_context,
    {
        DiMultiRegistration {
            ty_name: String::new(),
            remove_registration_object: false,
            register_into_own_context: false,
        }
    }

    /// Append `node_to_register` to the family's list in its target
    /// context, falling back to the node's class name when the given family
    /// name is empty. When no context exists anywhere in the node's
    /// parentage the attempt is skipped and the registry is left untouched.
    pub fn multi_register(
        reg: &mut DiRegistry,
        tree: &HostTree,
        node_to_register: u64,
        ty_name: &String,
        register_into_own_context: bool,
    )
        requires
            old(reg).wf(),
            tree.wf(),
            tree.spec_has_node(node_to_register),
        ensures
            final(reg).wf(),
            ({
                let target = spec_registration_target(
                    *old(reg),
                    *tree,
                    node_to_register,
                    register_into_own_context,
                );
                match target {
                    None => *final(reg) == *old(reg),
                    Some(ct) => {
                        let family = if ty_name@.len() == 0 {
                            tree.spec_class_name(node_to_register)
                        } else {
                            ty_name@
                        };
                        &&& final(reg).contexts@.len() == old(reg).contexts@.len()
                        &&& final(reg).node_index == old(reg).node_index
                        &&& forall|f: Seq<char>|
                            #[trigger] family_nodes(
                                final(reg).contexts@[ct as int].multiregistered_nodes@, f)
                                == if f == family {
                                    family_nodes(
                                        old(reg).contexts@[ct as int].multiregistered_nodes@, f)
                                        .push(node_to_register)
                                } else {
                                    family_nodes(
                                        old(reg).contexts@[ct as int].multiregistered_nodes@, f)
                                }
                        &&& forall|x: int| 0 <= x < old(reg).contexts@.len() && x != ct
                            ==> final(reg).contexts@[x] == old(reg).contexts@[x]
                        &&& ctx_same_but_multiregistered(
                            final(reg).contexts@[ct as int],
                            old(reg).contexts@[ct as int],
                        )
                    },
                }
            }),
    {
        let context = if register_into_own_context {
            reg.get_nearest(tree, node_to_register)
        } else {
            reg.get_nearest_exclude_self(tree, node_to_register)
        };
        match context {
            Some(ct) => {
                proof {
                    crate::registry::lemma_registration_target_valid(
                        *reg,
                        *tree,
                        node_to_register,
                        register_into_own_context,
                    );
                }
                if ty_name.as_str().is_empty() {
                    reg.multiregister_auto_type(tree, ct, node_to_register);
                } else {
                    reg.multiregister(ct, node_to_register, ty_name.clone());
                }
            },
            None => {
                // a producer with no context in its parentage: the
                // registration attempt is skipped
            },
        }
    }

    /// What the marker does when it enters the live tree: multi-register
    /// its parent node, then let the host free the marker.
    pub fn enter_tree(&self, reg: &mut DiRegistry, tree: &HostTree, self_node: u64)
        requires
            old(reg).wf(),
            tree.wf(),
            tree.spec_has_node(self_node),
            tree.spec_parent(self_node) is Some,
            tree.spec_has_node(tree.spec_parent(self_node).unwrap()),
        ensures
            final(reg).wf(),
            ({
                let node = tree.spec_parent(self_node).unwrap();
                let target = spec_registration_target(
                    *old(reg),
                    *tree,
                    node,
                    self.register_into_own_context,
                );
                match target {
                    None => *final(reg) == *old(reg),
                    Some(ct) => {
                        let family = if self.ty_name@.len() == 0 {
                            tree.spec_class_name(node)
                        } else {
                            self.ty_name@
                        };
                        forall|f: Seq<char>|
                            #[trigger] family_nodes(
                                final(reg).contexts@[ct as int].multiregistered_nodes@, f)
                                == if f == family {
                                    family_nodes(
                                        old(reg).contexts@[ct as int].multiregistered_nodes@, f)
                                        .push(node)
                                } else {
                                    family_nodes(
                                        old(reg).contexts@[ct as int].multiregistered_nodes@, f)
                                }
                    },
                }
            }),
    {
        let parent = tree.parent_of(self_node).unwrap();
        DiMultiRegistration::multi_register(
            reg,
            tree,
            parent,
            &self.ty_name,
            self.register_into_own_context,
        );
    }
}

} // verus!
