//! What the tree view of a directory hierarchy is, stated by recursion over
//! the hierarchy, and the proof that the walk hands out exactly that.

use crate::entry::{model_is_dir, RawEntryModel};
use crate::tree::{node_for, NodeModel};
use crate::walk::{
    arranged, at_last, current, flags_on, frames_fit, go_on, lemma_unwound, path_on, step_of,
    unwound, well_formed, ActionModel, FrameModel, Phase, WalkModel,
};
use vstd::prelude::*;

verus! {

/// A directory hierarchy: for the path of names that leads from the root to
/// a directory, the entries that reading that directory gives. A directory
/// that cannot be read gives none.
pub type Hierarchy = spec_fn(Seq<Seq<u8>>) -> Seq<RawEntryModel>;

/// The tree view of the directory at `path`: the nodes of its entries and
/// of all that lies below them, in the order of the lines. Nothing is shown
/// of a directory whose entries would lie at the maximum depth or deeper.
pub open spec fn subtree(
    fs: Hierarchy,
    path: Seq<Seq<u8>>,
    flags: Seq<bool>,
    show_hidden: bool,
    max_depth: nat,
) -> Seq<NodeModel>
    decreases max_depth - path.len(), 1int, 0int,
{
    if path.len() >= max_depth {
        Seq::empty()
    } else {
        siblings(fs, path, flags, arranged(fs(path), show_hidden), 0, show_hidden, max_depth)
    }
}

/// The tree view of the entries `kids` of the directory at `path`, from
/// the entry at index `from` on: each entry is followed by the tree view of
/// what lies below it, and then by its later siblings.
pub open spec fn siblings(
    fs: Hierarchy,
    path: Seq<Seq<u8>>,
    flags: Seq<bool>,
    kids: Seq<RawEntryModel>,
    from: nat,
    show_hidden: bool,
    max_depth: nat,
) -> Seq<NodeModel>
    decreases max_depth - path.len(), 0int, kids.len() - from,
{
    if path.len() >= max_depth || from >= kids.len() {
        Seq::empty()
    } else {
        let e = kids[from as int];
        let last = from + 1 == kids.len();
        let below = if model_is_dir(e) {
            subtree(fs, path.push(e.name), flags.push(last), show_hidden, max_depth)
        } else {
            Seq::empty()
        };
        seq![node_for(e, flags, last)] + below + siblings(
            fs,
            path,
            flags,
            kids,
            from + 1,
            show_hidden,
            max_depth,
        )
    }
}

/// The tree view of a whole hierarchy: that of its root.
pub open spec fn tree_view(fs: Hierarchy, show_hidden: bool, max_depth: nat) -> Seq<NodeModel> {
    subtree(fs, Seq::empty(), Seq::empty(), show_hidden, max_depth)
}

/// The nodes still to come from the frames of a walk: the entries that the
/// innermost frame has left, then those of the frame around it, and so on.
pub open spec fn pending(
    fs: Hierarchy,
    stack: Seq<FrameModel>,
    show_hidden: bool,
    max_depth: nat,
) -> Seq<NodeModel>
    decreases stack.len(),
{
    if stack.len() == 0 {
        Seq::empty()
    } else {
        let around = stack.drop_last();
        siblings(
            fs,
            path_on(around),
            flags_on(around),
            stack.last().entries,
            stack.last().next,
            show_hidden,
            max_depth,
        ) + pending(fs, around, show_hidden, max_depth)
    }
}

/// What lies below the entry that the walk handed out last.
pub open spec fn below_current(fs: Hierarchy, m: WalkModel) -> Seq<NodeModel> {
    subtree(fs, path_on(m.stack), flags_on(m.stack), m.show_hidden, m.max_depth)
}

/// The nodes that a walk over `fs` has still to hand out.
pub open spec fn remaining(fs: Hierarchy, m: WalkModel) -> Seq<NodeModel> {
    match m.phase {
        Phase::Fresh => tree_view(fs, m.show_hidden, m.max_depth),
        Phase::Waiting => below_current(fs, m) + pending(fs, m.stack, m.show_hidden, m.max_depth),
        Phase::Visited => (if model_is_dir(current(m.stack.last())) {
            below_current(fs, m)
        } else {
            Seq::empty()
        }) + pending(fs, m.stack, m.show_hidden, m.max_depth),
        Phase::Finished => Seq::empty(),
    }
}

/// What a caller that reads `fs` hands to the next step of a walk: the
/// listing that the walk waits for, or nothing.
pub open spec fn fed(fs: Hierarchy, m: WalkModel) -> Option<Seq<RawEntryModel>> {
    if m.phase == Phase::Waiting {
        Some(fs(path_on(m.stack)))
    } else {
        None
    }
}

/// The nodes that an action hands out: one for a visit, none otherwise.
pub open spec fn handed_out(action: ActionModel) -> Seq<NodeModel> {
    match action {
        ActionModel::Visit(n) => seq![n],
        _ => Seq::empty(),
    }
}

/// The walk after a number of steps over `fs`, and the nodes handed out on
/// the way.
pub open spec fn walked(fs: Hierarchy, m: WalkModel, steps: nat) -> (WalkModel, Seq<NodeModel>)
    decreases steps,
{
    if steps == 0 {
        (m, Seq::empty())
    } else {
        let before = walked(fs, m, (steps - 1) as nat);
        let next = step_of(before.0, fed(fs, before.0));
        (next.0, before.1 + handed_out(next.1))
    }
}

proof fn lemma_pending_unwound(fs: Hierarchy, stack: Seq<FrameModel>, show_hidden: bool, max_depth: nat)
    ensures
        pending(fs, unwound(stack), show_hidden, max_depth) == pending(
            fs,
            stack,
            show_hidden,
            max_depth,
        ),
    decreases stack.len(),
{
    if stack.len() > 0 && at_last(stack.last()) {
        lemma_pending_unwound(fs, stack.drop_last(), show_hidden, max_depth);
        let around = stack.drop_last();
        assert(siblings(
            fs,
            path_on(around),
            flags_on(around),
            stack.last().entries,
            stack.last().next,
            show_hidden,
            max_depth,
        ) =~= Seq::empty());
        assert(pending(fs, stack, show_hidden, max_depth) =~= pending(
            fs,
            around,
            show_hidden,
            max_depth,
        ));
    }
}

proof fn lemma_go_on_remaining(fs: Hierarchy, m: WalkModel)
    requires
        m.stack.len() <= m.max_depth,
        frames_fit(m.stack),
    ensures
        pending(fs, m.stack, m.show_hidden, m.max_depth) == handed_out(go_on(m).1) + remaining(
            fs,
            go_on(m).0,
        ),
{
    let sh = m.show_hidden;
    let md = m.max_depth;
    lemma_pending_unwound(fs, m.stack, sh, md);
    let stack = unwound(m.stack);
    lemma_unwound(m.stack);
    if stack.len() == 0 {
        assert(pending(fs, stack, sh, md) =~= handed_out(go_on(m).1) + remaining(fs, go_on(m).0));
    } else {
        let top = stack.last();
        let around = stack.drop_last();
        let moved_top = FrameModel { next: top.next + 1, ..top };
        let moved = around.push(moved_top);
        let e = top.entries[top.next as int];
        let last = top.next + 1 == top.entries.len();
        assert(moved.drop_last() =~= around);
        assert(moved.last() == moved_top);
        assert(current(moved_top) == e);
        assert(at_last(moved_top) == last);
        assert(path_on(moved) =~= path_on(around).push(e.name));
        assert(flags_on(moved) =~= flags_on(around).push(last));
        assert(path_on(around).len() == around.len());
        let rest = siblings(fs, path_on(around), flags_on(around), top.entries, top.next + 1, sh, md);
        let below = if model_is_dir(e) {
            subtree(fs, path_on(around).push(e.name), flags_on(around).push(last), sh, md)
        } else {
            Seq::empty()
        };
        let node = node_for(e, flags_on(around), last);
        assert(siblings(fs, path_on(around), flags_on(around), top.entries, top.next, sh, md)
            == seq![node] + below + rest);
        assert(pending(fs, moved, sh, md) == rest + pending(fs, around, sh, md));
        assert(pending(fs, stack, sh, md) == seq![node] + below + rest + pending(
            fs,
            around,
            sh,
            md,
        ));
        let after = go_on(m).0;
        assert(after.stack == moved);
        assert(remaining(fs, after) == below + pending(fs, moved, sh, md));
        assert(handed_out(go_on(m).1) == seq![node]);
        assert(seq![node] + below + rest + pending(fs, around, sh, md) =~= seq![node] + (below + (
            rest + pending(fs, around, sh, md))));
    }
}

/// One step hands out the first of the nodes that remain, or none of them,
/// and leaves the others to come.
pub proof fn lemma_step_remaining(fs: Hierarchy, m: WalkModel)
    requires
        well_formed(m),
    ensures
        remaining(fs, m) == handed_out(step_of(m, fed(fs, m)).1) + remaining(
            fs,
            step_of(m, fed(fs, m)).0,
        ),
{
    let sh = m.show_hidden;
    let md = m.max_depth;
    let next = step_of(m, fed(fs, m));
    match m.phase {
        Phase::Fresh => {
            assert(m.stack =~= Seq::empty());
            assert(path_on(m.stack) =~= Seq::empty());
            assert(flags_on(m.stack) =~= Seq::empty());
            assert(remaining(fs, m) =~= handed_out(next.1) + remaining(fs, next.0));
        },
        Phase::Waiting => {
            let frame = FrameModel { entries: arranged(fs(path_on(m.stack)), sh), next: 0 };
            let pushed = WalkModel { stack: m.stack.push(frame), ..m };
            assert(pushed.stack.drop_last() =~= m.stack);
            assert forall|i: int| 0 <= i < pushed.stack.len() - 1 implies (
            #[trigger] pushed.stack[i]).next >= 1 && model_is_dir(current(pushed.stack[i])) by {
                assert(pushed.stack[i] == m.stack[i]);
            }
            assert(path_on(m.stack).len() == m.stack.len());
            assert(below_current(fs, m) == siblings(
                fs,
                path_on(m.stack),
                flags_on(m.stack),
                frame.entries,
                0,
                sh,
                md,
            ));
            assert(remaining(fs, m) == pending(fs, pushed.stack, sh, md));
            lemma_go_on_remaining(fs, pushed);
        },
        Phase::Visited => {
            if model_is_dir(current(m.stack.last())) && m.stack.len() < m.max_depth {
                assert(remaining(fs, m) =~= handed_out(next.1) + remaining(fs, next.0));
            } else {
                assert(path_on(m.stack).len() == m.stack.len());
                assert(remaining(fs, m) =~= pending(fs, m.stack, sh, md));
                lemma_go_on_remaining(fs, m);
            }
        },
        Phase::Finished => {
            assert(remaining(fs, m) =~= handed_out(next.1) + remaining(fs, next.0));
        },
    }
}

/// After any number of steps, the nodes handed out so far followed by the
/// nodes that remain are the nodes that remained at the start.
pub proof fn lemma_walked_remaining(fs: Hierarchy, m: WalkModel, steps: nat)
    requires
        well_formed(m),
    ensures
        well_formed(walked(fs, m, steps).0),
        walked(fs, m, steps).1 + remaining(fs, walked(fs, m, steps).0) == remaining(fs, m),
    decreases steps,
{
    if steps == 0 {
        assert(Seq::<NodeModel>::empty() + remaining(fs, m) =~= remaining(fs, m));
    } else {
        let before = walked(fs, m, (steps - 1) as nat);
        lemma_walked_remaining(fs, m, (steps - 1) as nat);
        crate::walk::lemma_step_well_formed(before.0, fed(fs, before.0));
        lemma_step_remaining(fs, before.0);
        let next = step_of(before.0, fed(fs, before.0));
        assert(before.1 + handed_out(next.1) + remaining(fs, next.0) =~= before.1 + (handed_out(
            next.1,
        ) + remaining(fs, next.0)));
    }
}

/// A node lies under the chain of ancestors `flags` and above the maximum
/// depth: its own chain starts with `flags`, has one flag for each level
/// above the node, and the node is less than `max_depth` levels down.
pub open spec fn lies_under(n: NodeModel, flags: Seq<bool>, max_depth: nat) -> bool {
    &&& n.depth < max_depth
    &&& n.ancestor_is_last.len() == n.depth
    &&& flags.len() <= n.depth
    &&& n.ancestor_is_last.take(flags.len() as int) == flags
}

/// Every node of the tree view of a directory lies under the ancestors of
/// that directory and above the maximum depth.
pub proof fn lemma_subtree_lies_under(
    fs: Hierarchy,
    path: Seq<Seq<u8>>,
    flags: Seq<bool>,
    show_hidden: bool,
    max_depth: nat,
)
    requires
        flags.len() == path.len(),
    ensures
        forall|i: int|
            0 <= i < subtree(fs, path, flags, show_hidden, max_depth).len() ==> lies_under(
                #[trigger] subtree(fs, path, flags, show_hidden, max_depth)[i],
                flags,
                max_depth,
            ),
    decreases max_depth - path.len(), 1int, 0int,
{
    if path.len() < max_depth {
        lemma_siblings_lie_under(
            fs,
            path,
            flags,
            arranged(fs(path), show_hidden),
            0,
            show_hidden,
            max_depth,
        );
        assert(subtree(fs, path, flags, show_hidden, max_depth) == siblings(
            fs,
            path,
            flags,
            arranged(fs(path), show_hidden),
            0,
            show_hidden,
            max_depth,
        ));
    } else {
        assert(subtree(fs, path, flags, show_hidden, max_depth) =~= Seq::empty());
    }
}

/// Every node of the tree view of some entries of a directory lies under
/// the ancestors of these entries and above the maximum depth.
pub proof fn lemma_siblings_lie_under(
    fs: Hierarchy,
    path: Seq<Seq<u8>>,
    flags: Seq<bool>,
    kids: Seq<RawEntryModel>,
    from: nat,
    show_hidden: bool,
    max_depth: nat,
)
    requires
        flags.len() == path.len(),
    ensures
        forall|i: int|
            0 <= i < siblings(fs, path, flags, kids, from, show_hidden, max_depth).len()
                ==> lies_under(
                #[trigger] siblings(fs, path, flags, kids, from, show_hidden, max_depth)[i],
                flags,
                max_depth,
            ),
    decreases max_depth - path.len(), 0int, kids.len() - from,
{
    let all = siblings(fs, path, flags, kids, from, show_hidden, max_depth);
    if !(path.len() >= max_depth || from >= kids.len()) {
        let e = kids[from as int];
        let last = from + 1 == kids.len();
        let inner = flags.push(last);
        let below = if model_is_dir(e) {
            subtree(fs, path.push(e.name), inner, show_hidden, max_depth)
        } else {
            Seq::empty()
        };
        let rest = siblings(fs, path, flags, kids, from + 1, show_hidden, max_depth);
        if model_is_dir(e) {
            lemma_subtree_lies_under(fs, path.push(e.name), inner, show_hidden, max_depth);
        }
        lemma_siblings_lie_under(fs, path, flags, kids, from + 1, show_hidden, max_depth);
        assert(all == seq![node_for(e, flags, last)] + below + rest);
        assert forall|i: int| 0 <= i < all.len() implies lies_under(
            #[trigger] all[i],
            flags,
            max_depth,
        ) by {
            if i == 0 {
                assert(all[i] == node_for(e, flags, last));
                assert(flags.take(flags.len() as int) =~= flags);
            } else if i < 1 + below.len() {
                let n = below[i - 1];
                assert(all[i] == n);
                assert(lies_under(n, inner, max_depth));
                assert(n.ancestor_is_last.take(flags.len() as int) =~= n.ancestor_is_last.take(
                    inner.len() as int,
                ).take(flags.len() as int));
                assert(inner.take(flags.len() as int) =~= flags);
            } else {
                assert(all[i] == rest[i - 1 - below.len()]);
            }
        }
    }
}

/// In a sequence of nodes in the order of their lines, `j` is the place of
/// the ancestor at level `k` of the node at `i`: the nearest node before
/// `i` at depth `k`.
pub open spec fn is_ancestor_at(view: Seq<NodeModel>, i: int, k: int, j: int) -> bool {
    &&& 0 <= j < i
    &&& view[j].depth == k
    &&& forall|t: int| j < t <= i ==> (#[trigger] view[t]).depth > k
}

/// The node at `i` has an ancestor at level `k` in the sequence, that
/// ancestor is a directory, and the flag that the node holds for level `k`
/// says whether that ancestor is the last of its siblings.
pub open spec fn ancestor_drawn(view: Seq<NodeModel>, i: int, k: int) -> bool {
    exists|j: int|
        #![trigger is_ancestor_at(view, i, k, j)]
        is_ancestor_at(view, i, k, j) && view[j].entry.kind == crate::entry::EntryKind::Directory
            && view[j].is_last_sibling == view[i].ancestor_is_last[k]
}

/// In the tree view of a directory, the chain of every node tells the
/// truth about its ancestors below that directory.
pub proof fn lemma_subtree_ancestors(
    fs: Hierarchy,
    path: Seq<Seq<u8>>,
    flags: Seq<bool>,
    show_hidden: bool,
    max_depth: nat,
)
    requires
        flags.len() == path.len(),
    ensures
        forall|i: int, k: int|
            0 <= i < subtree(fs, path, flags, show_hidden, max_depth).len() && flags.len() <= k
                < subtree(fs, path, flags, show_hidden, max_depth)[i].depth
                ==> #[trigger] ancestor_drawn(
                subtree(fs, path, flags, show_hidden, max_depth),
                i,
                k,
            ),
    decreases max_depth - path.len(), 1int, 0int,
{
    if path.len() < max_depth {
        lemma_siblings_ancestors(
            fs,
            path,
            flags,
            arranged(fs(path), show_hidden),
            0,
            show_hidden,
            max_depth,
        );
        assert(subtree(fs, path, flags, show_hidden, max_depth) == siblings(
            fs,
            path,
            flags,
            arranged(fs(path), show_hidden),
            0,
            show_hidden,
            max_depth,
        ));
    } else {
        assert(subtree(fs, path, flags, show_hidden, max_depth) =~= Seq::empty());
    }
}

/// In the tree view of some entries of a directory, the chain of every node
/// tells the truth about its ancestors below that directory.
pub proof fn lemma_siblings_ancestors(
    fs: Hierarchy,
    path: Seq<Seq<u8>>,
    flags: Seq<bool>,
    kids: Seq<RawEntryModel>,
    from: nat,
    show_hidden: bool,
    max_depth: nat,
)
    requires
        flags.len() == path.len(),
    ensures
        forall|i: int, k: int|
            0 <= i < siblings(fs, path, flags, kids, from, show_hidden, max_depth).len()
                && flags.len() <= k < siblings(
                fs,
                path,
                flags,
                kids,
                from,
                show_hidden,
                max_depth,
            )[i].depth ==> #[trigger] ancestor_drawn(
                siblings(fs, path, flags, kids, from, show_hidden, max_depth),
                i,
                k,
            ),
    decreases max_depth - path.len(), 0int, kids.len() - from,
{
    let all = siblings(fs, path, flags, kids, from, show_hidden, max_depth);
    if !(path.len() >= max_depth || from >= kids.len()) {
        let e = kids[from as int];
        let last = from + 1 == kids.len();
        let inner = flags.push(last);
        let node = node_for(e, flags, last);
        let below = if model_is_dir(e) {
            subtree(fs, path.push(e.name), inner, show_hidden, max_depth)
        } else {
            Seq::empty()
        };
        let rest = siblings(fs, path, flags, kids, from + 1, show_hidden, max_depth);
        let off = 1 + below.len();
        if model_is_dir(e) {
            lemma_subtree_lies_under(fs, path.push(e.name), inner, show_hidden, max_depth);
            lemma_subtree_ancestors(fs, path.push(e.name), inner, show_hidden, max_depth);
        }
        lemma_siblings_lie_under(fs, path, flags, kids, from + 1, show_hidden, max_depth);
        lemma_siblings_ancestors(fs, path, flags, kids, from + 1, show_hidden, max_depth);
        assert(all == seq![node] + below + rest);
        assert(all[0] == node);
        assert forall|t: int| 1 <= t < off implies #[trigger] all[t] == below[t - 1] by {}
        assert forall|t: int| off <= t < all.len() implies #[trigger] all[t] == rest[t - off] by {}
        assert forall|i: int, k: int|
            0 <= i < all.len() && flags.len() <= k < all[i].depth implies #[trigger] ancestor_drawn(
            all,
            i,
            k,
        ) by {
            if i == 0 {
            } else if i < off {
                assert(all[i] == below[i - 1]);
                assert(lies_under(below[i - 1], inner, max_depth));
                if k == flags.len() {
                    assert forall|t: int| 0 < t <= i implies (#[trigger] all[t]).depth > k by {
                        assert(all[t] == below[t - 1]);
                        assert(lies_under(below[t - 1], inner, max_depth));
                    }
                    assert(below[i - 1].ancestor_is_last.take(inner.len() as int)[k] == inner[k]);
                    assert(is_ancestor_at(all, i, k, 0));
                } else {
                    assert(ancestor_drawn(below, i - 1, k));
                    let j = choose|j: int|
                        #![trigger is_ancestor_at(below, i - 1, k, j)]
                        is_ancestor_at(below, i - 1, k, j) && below[j].entry.kind
                            == crate::entry::EntryKind::Directory && below[j].is_last_sibling
                            == below[i - 1].ancestor_is_last[k];
                    assert(all[j + 1] == below[j]);
                    assert forall|t: int| j + 1 < t <= i implies (#[trigger] all[t]).depth > k by {
                        assert(all[t] == below[t - 1]);
                    }
                    assert(is_ancestor_at(all, i, k, j + 1));
                }
            } else {
                assert(all[i] == rest[i - off]);
                assert(ancestor_drawn(rest, i - off, k));
                let j = choose|j: int|
                    #![trigger is_ancestor_at(rest, i - off, k, j)]
                    is_ancestor_at(rest, i - off, k, j) && rest[j].entry.kind
                        == crate::entry::EntryKind::Directory && rest[j].is_last_sibling == rest[i
                        - off].ancestor_is_last[k];
                assert(all[j + off] == rest[j]);
                assert forall|t: int| j + off < t <= i implies (#[trigger] all[t]).depth > k by {
                    assert(all[t] == rest[t - off]);
                }
                assert(is_ancestor_at(all, i, k, j + off));
            }
        }
    }
}

/// Every line of a tree view is indented by what its ancestors are: for
/// each level above a node, the nearest node before it at that level is a
/// directory, and the indentation of the node, read back four characters at
/// a time, tells for each level whether that directory is the last of its
/// siblings.
pub proof fn lemma_indentation_tells_ancestors(
    fs: Hierarchy,
    show_hidden: bool,
    max_depth: nat,
    i: int,
    k: int,
)
    requires
        0 <= i < tree_view(fs, show_hidden, max_depth).len(),
        0 <= k < tree_view(fs, show_hidden, max_depth)[i].depth,
    ensures
        crate::tree::ancestors_of(
            crate::tree::prefix_of(tree_view(fs, show_hidden, max_depth)[i].ancestor_is_last),
        ) == Some(tree_view(fs, show_hidden, max_depth)[i].ancestor_is_last),
        tree_view(fs, show_hidden, max_depth)[i].ancestor_is_last.len() == tree_view(
            fs,
            show_hidden,
            max_depth,
        )[i].depth,
        ancestor_drawn(tree_view(fs, show_hidden, max_depth), i, k),
{
    let view = tree_view(fs, show_hidden, max_depth);
    crate::tree::lemma_prefix_round_trip(view[i].ancestor_is_last);
    lemma_subtree_lies_under(fs, Seq::empty(), Seq::empty(), show_hidden, max_depth);
    lemma_subtree_ancestors(fs, Seq::empty(), Seq::empty(), show_hidden, max_depth);
}

/// No node of a tree view lies at the maximum depth or deeper, and every
/// node has one flag for each of its ancestors.
pub proof fn lemma_tree_view_depth(fs: Hierarchy, show_hidden: bool, max_depth: nat, i: int)
    requires
        0 <= i < tree_view(fs, show_hidden, max_depth).len(),
    ensures
        tree_view(fs, show_hidden, max_depth)[i].depth < max_depth,
        tree_view(fs, show_hidden, max_depth)[i].ancestor_is_last.len() == tree_view(
            fs,
            show_hidden,
            max_depth,
        )[i].depth,
{
    lemma_subtree_lies_under(fs, Seq::empty(), Seq::empty(), show_hidden, max_depth);
}

/// A directory at the deepest level that is shown is listed like any other
/// entry, and nothing below it is: its line is followed by that of its next
/// sibling.
pub proof fn lemma_deepest_directory_is_not_expanded(
    fs: Hierarchy,
    path: Seq<Seq<u8>>,
    flags: Seq<bool>,
    kids: Seq<RawEntryModel>,
    from: nat,
    show_hidden: bool,
    max_depth: nat,
)
    requires
        path.len() + 1 == max_depth,
        from < kids.len(),
    ensures
        siblings(fs, path, flags, kids, from, show_hidden, max_depth) == seq![
            node_for(kids[from as int], flags, from + 1 == kids.len()),
        ] + siblings(fs, path, flags, kids, from + 1, show_hidden, max_depth),
{
    let e = kids[from as int];
    let last = from + 1 == kids.len();
    assert(subtree(fs, path.push(e.name), flags.push(last), show_hidden, max_depth)
        =~= Seq::empty());
    assert(seq![node_for(e, flags, last)] + Seq::<NodeModel>::empty() =~= seq![
        node_for(e, flags, last),
    ]);
}

/// A bound on the number of steps that a walk over `fs` still takes: two
/// for each node that remains, and up to three to get going.
pub open spec fn steps_left(fs: Hierarchy, m: WalkModel) -> nat {
    match m.phase {
        Phase::Fresh => 2 * remaining(fs, m).len() + 3,
        Phase::Visited => 2 * remaining(fs, m).len() + 2,
        Phase::Waiting => 2 * remaining(fs, m).len() + 1,
        Phase::Finished => 0,
    }
}

/// Every step of a walk that is not over brings it closer to its end.
pub proof fn lemma_step_progress(fs: Hierarchy, m: WalkModel)
    requires
        well_formed(m),
        m.phase != Phase::Finished,
    ensures
        steps_left(fs, step_of(m, fed(fs, m)).0) < steps_left(fs, m),
{
    lemma_step_remaining(fs, m);
}

/// A walk over a hierarchy is over after as many steps as `steps_left`
/// allows it, and stays so.
pub proof fn lemma_walk_ends(fs: Hierarchy, m: WalkModel, steps: nat)
    requires
        well_formed(m),
    ensures
        well_formed(walked(fs, m, steps).0),
        steps_left(fs, walked(fs, m, steps).0) + steps <= steps_left(fs, m) || walked(
            fs,
            m,
            steps,
        ).0.phase == Phase::Finished,
        steps >= steps_left(fs, m) ==> walked(fs, m, steps).0.phase == Phase::Finished,
    decreases steps,
{
    if steps > 0 {
        let before = walked(fs, m, (steps - 1) as nat);
        lemma_walk_ends(fs, m, (steps - 1) as nat);
        crate::walk::lemma_step_well_formed(before.0, fed(fs, before.0));
        if before.0.phase != Phase::Finished {
            lemma_step_progress(fs, before.0);
        }
    }
}

/// A walk that is driven over a hierarchy from its start comes to its end,
/// and has then handed out the tree view of the hierarchy.
pub proof fn lemma_walk_ends_with_tree_view(fs: Hierarchy, show_hidden: bool, max_depth: nat)
    ensures
        ({
            let steps = 2 * tree_view(fs, show_hidden, max_depth).len() + 3;
            let end = walked(fs, crate::walk::fresh_walk(show_hidden, max_depth), steps);
            end.0.phase == Phase::Finished && end.1 == tree_view(fs, show_hidden, max_depth)
        }),
{
    let start = crate::walk::fresh_walk(show_hidden, max_depth);
    let steps = 2 * tree_view(fs, show_hidden, max_depth).len() + 3;
    lemma_walk_ends(fs, start, steps);
    lemma_walk_gives_tree_view(fs, show_hidden, max_depth, steps);
}

/// A walk that is driven over a hierarchy from its start to its end hands
/// out the tree view of the hierarchy: every node of it, once, in the order
/// of the lines, and no other.
pub proof fn lemma_walk_gives_tree_view(
    fs: Hierarchy,
    show_hidden: bool,
    max_depth: nat,
    steps: nat,
)
    requires
        walked(fs, crate::walk::fresh_walk(show_hidden, max_depth), steps).0.phase
            == Phase::Finished,
    ensures
        walked(fs, crate::walk::fresh_walk(show_hidden, max_depth), steps).1 == tree_view(
            fs,
            show_hidden,
            max_depth,
        ),
{
    let start = crate::walk::fresh_walk(show_hidden, max_depth);
    lemma_walked_remaining(fs, start, steps);
    let end = walked(fs, start, steps);
    assert(end.1 + Seq::<NodeModel>::empty() =~= end.1);
}

} // verus!
