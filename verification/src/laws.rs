//! Laws of the resolution engine, stated and proved once over the spec
//! functions that the executable functions' contracts use.

use vstd::prelude::*;

use crate::di_context::family_nodes;
use crate::di_context::find_registered;
use crate::di_context::kids_for_family;
use crate::di_context::kids_for_key;
use crate::host_tree::HostTree;
use crate::registry::DiRegistry;
use crate::registry::index_lookup;
use crate::registry::spec_collect;
use crate::registry::spec_collect_kids;
use crate::registry::spec_collect_no_parent;
use crate::registry::spec_lookup;
use crate::registry::spec_lookup_no_parent;
use crate::registry::spec_search_kids;

verus! {

/// Local before ancestor: when a context holds a key in its own map, a
/// lookup from that context returns the local node, never an ancestor's,
/// whatever child the search was told to ignore.
pub proof fn lemma_local_registration_wins(
    reg: DiRegistry,
    c: usize,
    tn: Seq<char>,
    id: Seq<char>,
    ignore: Option<usize>,
    n: u64,
)
    requires
        reg.wf_graph(),
        c < reg.contexts@.len(),
        find_registered(reg.contexts@[c as int].registered_nodes@, tn, id) == Some(n),
    ensures
        spec_lookup(reg, c as int, tn, id, ignore) == Some(n),
{
    assert(spec_lookup_no_parent(reg, c as int, tn, id, ignore) == Some(n));
}

/// Re-registration visibility: when a context lacks a key locally but its
/// forwarding list for that key names exactly one child, and that child's
/// own subtree search yields a node, a lookup from the parent yields that
/// child's node.
pub proof fn lemma_reregistered_child_found(
    reg: DiRegistry,
    p: usize,
    d: usize,
    tn: Seq<char>,
    id: Seq<char>,
    ignore: Option<usize>,
    n: u64,
)
    requires
        reg.wf_graph(),
        p < reg.contexts@.len(),
        find_registered(reg.contexts@[p as int].registered_nodes@, tn, id) is None,
        kids_for_key(
            reg.contexts@[p as int].children_to_search_for_registered_nodes@, tn, id)
            == seq![d],
        ignore != Some(d),
        spec_lookup_no_parent(reg, d as int, tn, id, ignore) == Some(n),
    ensures
        spec_lookup(reg, p as int, tn, id, ignore) == Some(n),
{
    assert(reg.ctx_graph_ok(p as int));
    let kids = kids_for_key(
        reg.contexts@[p as int].children_to_search_for_registered_nodes@, tn, id);
    assert(kids[0] == d);
    assert(spec_search_kids(reg, p as int, kids, tn, id, ignore) == Some(n)) by {
        assert(Some(kids[0]) != ignore);
    }
    assert(spec_lookup_no_parent(reg, p as int, tn, id, ignore) == Some(n));
}

/// No infinite bounce: a child that lacks a key and forwards nothing asks
/// its parent; the parent, told to ignore that child, does not descend back
/// into it, and with no further ancestor the whole lookup reports a miss
/// instead of looping.
pub proof fn lemma_no_infinite_bounce(
    reg: DiRegistry,
    d: usize,
    p: usize,
    tn: Seq<char>,
    id: Seq<char>,
)
    requires
        reg.wf_graph(),
        d < reg.contexts@.len(),
        p < reg.contexts@.len(),
        reg.contexts@[d as int].parent_context == Some(p),
        find_registered(reg.contexts@[d as int].registered_nodes@, tn, id) is None,
        kids_for_key(
            reg.contexts@[d as int].children_to_search_for_registered_nodes@, tn, id)
            == Seq::<usize>::empty(),
        find_registered(reg.contexts@[p as int].registered_nodes@, tn, id) is None,
        kids_for_key(
            reg.contexts@[p as int].children_to_search_for_registered_nodes@, tn, id)
            == seq![d],
        reg.contexts@[p as int].parent_context is None,
    ensures
        spec_lookup(reg, d as int, tn, id, None::<usize>) is None,
{
    assert(reg.ctx_graph_ok(d as int));
    assert(reg.ctx_graph_ok(p as int));
    let kids_d = kids_for_key(
        reg.contexts@[d as int].children_to_search_for_registered_nodes@, tn, id);
    assert(spec_search_kids(reg, d as int, kids_d, tn, id, None::<usize>) is None);
    assert(spec_lookup_no_parent(reg, d as int, tn, id, None::<usize>) is None);
    let kids_p = kids_for_key(
        reg.contexts@[p as int].children_to_search_for_registered_nodes@, tn, id);
    assert(kids_p[0] == d);
    assert(spec_search_kids(reg, p as int, kids_p, tn, id, Some(d)) is None) by {
        assert(Some(kids_p[0]) == Some(d));
        assert(kids_p.drop_first() =~= Seq::<usize>::empty());
        assert(spec_search_kids(reg, p as int, kids_p.drop_first(), tn, id, Some(d)) is None);
    }
    assert(spec_lookup_no_parent(reg, p as int, tn, id, Some(d)) is None);
    assert(spec_lookup(reg, p as int, tn, id, Some(d)) is None);
}

/// First-match over a forwarded-children list: when every earlier child is
/// ignored or misses and the child at `k` hits, the search returns that
/// child's result.
proof fn lemma_search_kids_hit(
    reg: DiRegistry,
    c: int,
    kids: Seq<usize>,
    k: int,
    tn: Seq<char>,
    id: Seq<char>,
    ignore: Option<usize>,
    n: u64,
)
    requires
        reg.wf_graph(),
        0 <= c < reg.contexts@.len(),
        forall|x: int| 0 <= x < kids.len() ==> reg.kid_ok(c, #[trigger] kids[x]),
        0 <= k < kids.len(),
        forall|x: int| 0 <= x < k ==> (Some(#[trigger] kids[x]) == ignore
            || spec_lookup_no_parent(reg, kids[x] as int, tn, id, ignore) is None),
        Some(kids[k]) != ignore,
        spec_lookup_no_parent(reg, kids[k] as int, tn, id, ignore) == Some(n),
    ensures
        spec_search_kids(reg, c, kids, tn, id, ignore) == Some(n),
    decreases k,
{
    if k == 0 {
        assert(spec_search_kids(reg, c, kids, tn, id, ignore) == Some(n));
    } else {
        let rest = kids.drop_first();
        assert forall|x: int| 0 <= x < rest.len() implies reg.kid_ok(c, #[trigger] rest[x]) by {
            assert(rest[x] == kids[x + 1]);
        }
        assert(rest[k - 1] == kids[k]);
        assert forall|x: int| 0 <= x < k - 1 implies (Some(#[trigger] rest[x]) == ignore
            || spec_lookup_no_parent(reg, rest[x] as int, tn, id, ignore) is None) by {
            assert(rest[x] == kids[x + 1]);
        }
        lemma_search_kids_hit(reg, c, rest, k - 1, tn, id, ignore, n);
        if Some(kids[0]) == ignore {
        } else {
            assert(spec_lookup_no_parent(reg, kids[0] as int, tn, id, ignore) is None);
        }
    }
}

/// Search order among forwarded children: a lookup that misses locally
/// returns the result of the first child in declaration order that is not
/// ignored and whose subtree search hits.
pub proof fn lemma_first_forwarded_hit_wins(
    reg: DiRegistry,
    p: usize,
    k: int,
    tn: Seq<char>,
    id: Seq<char>,
    ignore: Option<usize>,
    n: u64,
)
    requires
        reg.wf_graph(),
        p < reg.contexts@.len(),
        find_registered(reg.contexts@[p as int].registered_nodes@, tn, id) is None,
        0 <= k < kids_for_key(
            reg.contexts@[p as int].children_to_search_for_registered_nodes@, tn, id).len(),
        forall|x: int|
            #![trigger kids_for_key(reg.contexts@[p as int].children_to_search_for_registered_nodes@, tn, id)[x]]
            0 <= x < k ==> {
                let kids = kids_for_key(
                    reg.contexts@[p as int].children_to_search_for_registered_nodes@, tn, id);
                Some(kids[x]) == ignore
                    || spec_lookup_no_parent(reg, kids[x] as int, tn, id, ignore) is None
            },
        Some(kids_for_key(
            reg.contexts@[p as int].children_to_search_for_registered_nodes@, tn, id)[k])
            != ignore,
        spec_lookup_no_parent(
            reg,
            kids_for_key(
                reg.contexts@[p as int].children_to_search_for_registered_nodes@, tn, id)[k] as int,
            tn,
            id,
            ignore,
        ) == Some(n),
    ensures
        spec_lookup(reg, p as int, tn, id, ignore) == Some(n),
{
    assert(reg.ctx_graph_ok(p as int));
    let kids = kids_for_key(
        reg.contexts@[p as int].children_to_search_for_registered_nodes@, tn, id);
    assert forall|x: int| 0 <= x < kids.len() implies reg.kid_ok(p as int, #[trigger] kids[x]) by {
        assert(kids[x] == kids_for_key(
            reg.contexts@[p as int].children_to_search_for_registered_nodes@, tn, id)[x]);
    }
    lemma_search_kids_hit(reg, p as int, kids, k, tn, id, ignore, n);
    assert(spec_lookup_no_parent(reg, p as int, tn, id, ignore) == Some(n));
}

/// The family lists of a context and of each of its ancestors in turn, in
/// delegation order.
pub open spec fn spec_chain_locals(reg: DiRegistry, c: int, f: Seq<char>) -> Seq<u64>
    decreases reg.contexts@[c].depth,
        when 0 <= c < reg.contexts@.len() && reg.wf_graph()
        via spec_chain_locals_dec
{
    family_nodes(reg.contexts@[c].multiregistered_nodes@, f) + match reg.contexts@[c].parent_context {
        Some(p) => spec_chain_locals(reg, p as int, f),
        None => Seq::empty(),
    }
}

#[via_fn]
proof fn spec_chain_locals_dec(reg: DiRegistry, c: int, f: Seq<char>) {
    assert(reg.ctx_graph_ok(c));
}

/// Ordering and union of a gather: when no context forwards the family to
/// any child, collecting from a context yields exactly its own list
/// followed by each ancestor's list in turn — own entries first, ancestors'
/// after, each visited once, so the traversal introduces no duplicates.
pub proof fn lemma_collect_along_chain(
    reg: DiRegistry,
    c: usize,
    f: Seq<char>,
    ignore: Option<usize>,
)
    requires
        reg.wf_graph(),
        c < reg.contexts@.len(),
        forall|i: int| 0 <= i < reg.contexts@.len()
            ==> #[trigger] kids_for_family(
                reg.contexts@[i].children_to_search_for_multiregistered_nodes@, f)
                == Seq::<usize>::empty(),
    ensures
        spec_collect(reg, c as int, f, ignore) == spec_chain_locals(reg, c as int, f),
    decreases reg.contexts@[c as int].depth,
{
    assert(reg.ctx_graph_ok(c as int));
    let local = family_nodes(reg.contexts@[c as int].multiregistered_nodes@, f);
    assert(kids_for_family(
        reg.contexts@[c as int].children_to_search_for_multiregistered_nodes@, f)
        == Seq::<usize>::empty());
    assert(spec_collect_kids(reg, c as int, Seq::<usize>::empty(), f, ignore)
        == Seq::<u64>::empty());
    assert(spec_collect_no_parent(reg, c as int, f, ignore) == local + Seq::<u64>::empty());
    assert(local + Seq::<u64>::empty() =~= local);
    match reg.contexts@[c as int].parent_context {
        Some(p) => {
            lemma_collect_along_chain(reg, p, f, Some(c));
        },
        None => {},
    }
}

/// Nearest context versus nearest-above: for a host node that itself
/// anchors a context, the plain walk returns that context, while the
/// excluding walk returns whatever the walk from the node's parent finds —
/// the node's own context never.
pub proof fn lemma_nearest_context_exclude_self(
    reg: DiRegistry,
    tree: HostTree,
    node: u64,
    c: usize,
)
    requires
        tree.wf(),
        tree.spec_has_node(node),
        index_lookup(reg.node_index@, node) == Some(c),
    ensures
        reg.spec_nearest(tree, node) == Some(c),
        reg.spec_nearest_exclude(tree, node) == match tree.spec_parent(node) {
            Some(pa) => reg.spec_nearest(tree, pa),
            None => None::<usize>,
        },
{
}

} // verus!
