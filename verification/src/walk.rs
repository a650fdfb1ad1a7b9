//! The walk that produces the tree view. It reads nothing itself: each step
//! either asks its caller for the listing of one directory, hands out the
//! next node, or says that the walk is over.

use crate::entry::{copy_bytes, model_is_dir, models, RawEntry, RawEntryModel};
use crate::listing::{classify_compact, shown, visible, visible_entries};
use crate::order::{
    lemma_tree_sort_permutes, lemma_tree_sort_sorted, sort_tree_order, tree_sort, tree_sorted,
};
use crate::paint::category;
use crate::tree::{node_for, NodeModel, TreeNode};
use vstd::prelude::*;

verus! {

/// The depth to which the tree view goes where nothing else is asked for:
/// the children of the root and two levels below them.
pub const DEFAULT_MAX_DEPTH: usize = 3;

/// Where a walk stands between two steps.
#[derive(Clone, Copy, Debug, PartialEq, Eq, Structural)]
pub enum Phase {
    /// Nothing has happened yet.
    Fresh,
    /// The last step asked for a listing; the next step takes it.
    Waiting,
    /// The last step handed out a node.
    Visited,
    /// The walk is over.
    Finished,
}

/// What a step asks of the caller.
#[derive(Clone, Debug, PartialEq, Eq)]
pub enum Action {
    /// Read the directory reached from the root by these names, and hand
    /// its entries to the next step.
    List(Vec<Vec<u8>>),
    /// Show this node.
    Visit(TreeNode),
    /// Nothing more: the walk is over.
    Done,
}

/// The mathematical value of an [`Action`].
pub enum ActionModel {
    List(Seq<Seq<u8>>),
    Visit(NodeModel),
    Done,
}

/// The names of a path as sequences of bytes.
pub open spec fn path_model(path: Seq<Vec<u8>>) -> Seq<Seq<u8>> {
    path.map_values(|name: Vec<u8>| name@)
}

impl View for Action {
    type V = ActionModel;

    open spec fn view(&self) -> ActionModel {
        match self {
            Action::List(path) => ActionModel::List(path_model(path@)),
            Action::Visit(node) => ActionModel::Visit(node@),
            Action::Done => ActionModel::Done,
        }
    }
}

/// One directory that the walk is in: its entries as they are shown, and
/// how many of them have been handed out.
#[derive(Debug)]
pub struct Frame {
    entries: Vec<RawEntry>,
    next: usize,
}

/// The mathematical value of a [`Frame`].
pub struct FrameModel {
    pub entries: Seq<RawEntryModel>,
    pub next: nat,
}

impl View for Frame {
    type V = FrameModel;

    closed spec fn view(&self) -> FrameModel {
        FrameModel { entries: models(self.entries@), next: self.next as nat }
    }
}

/// The mathematical value of a [`TreeWalk`]: the directories it is in,
/// outermost first, and where it stands.
pub struct WalkModel {
    pub show_hidden: bool,
    pub max_depth: nat,
    pub stack: Seq<FrameModel>,
    pub phase: Phase,
}

/// The entry of a frame that was handed out last.
pub open spec fn current(f: FrameModel) -> RawEntryModel {
    f.entries[f.next - 1]
}

/// Whether the entry handed out last is the last of the frame.
pub open spec fn at_last(f: FrameModel) -> bool {
    f.next >= f.entries.len()
}

/// The node for the entry handed out last from the innermost frame. Its
/// ancestors are the entries handed out last from the frames around it.
pub open spec fn node_on(stack: Seq<FrameModel>) -> NodeModel {
    node_for(current(stack.last()), flags_on(stack.drop_last()), at_last(stack.last()))
}

/// For each frame, outermost first, whether the entry it handed out last
/// is the last it holds.
pub open spec fn flags_on(stack: Seq<FrameModel>) -> Seq<bool> {
    stack.map_values(|f: FrameModel| at_last(f))
}

/// The names that lead from the root to the entry handed out last.
pub open spec fn path_on(stack: Seq<FrameModel>) -> Seq<Seq<u8>> {
    stack.map_values(|f: FrameModel| current(f).name)
}

/// The stack without the frames at its end that have nothing left.
pub open spec fn unwound(stack: Seq<FrameModel>) -> Seq<FrameModel>
    decreases stack.len(),
{
    if stack.len() > 0 && at_last(stack.last()) {
        unwound(stack.drop_last())
    } else {
        stack
    }
}

/// The entries of a listing as the tree view shows them: the hidden ones
/// left out first, the others then put in tree order.
pub open spec fn arranged(listing: Seq<RawEntryModel>, show_hidden: bool) -> Seq<RawEntryModel> {
    tree_sort(visible(listing, show_hidden))
}

/// What a frame of the tree view holds: no hidden entry unless hidden
/// entries are shown, every other entry of the listing as often as the
/// listing has it, and all of them in tree order.
pub proof fn lemma_arranged(listing: Seq<RawEntryModel>, show_hidden: bool)
    ensures
        tree_sorted(arranged(listing, show_hidden)),
        arranged(listing, show_hidden).to_multiset() == visible(listing, show_hidden).to_multiset(),
        forall|i: int|
            0 <= i < arranged(listing, show_hidden).len() ==> shown(
                (#[trigger] arranged(listing, show_hidden)[i]).name,
                show_hidden,
            ),
{
    broadcast use vstd::seq_lib::group_to_multiset_ensures;

    let kept = visible(listing, show_hidden);
    let keep = |e: RawEntryModel| shown(e.name, show_hidden);
    lemma_tree_sort_sorted(kept);
    lemma_tree_sort_permutes(kept);
    assert forall|i: int| 0 <= i < arranged(listing, show_hidden).len() implies shown(
        (#[trigger] arranged(listing, show_hidden)[i]).name,
        show_hidden,
    ) by {
        let e = arranged(listing, show_hidden)[i];
        assert(arranged(listing, show_hidden).contains(e));
        assert(kept.to_multiset().count(e) > 0);
        assert(kept.contains(e));
        let j = choose|j: int| 0 <= j < kept.len() && kept[j] == e;
        listing.lemma_filter_pred(keep, j);
    }
}

/// Going on to the next entry: frames with nothing left are dropped; the
/// next entry of the innermost frame that has one is handed out; where no
/// frame is left the walk is over.
pub open spec fn go_on(m: WalkModel) -> (WalkModel, ActionModel) {
    let stack = unwound(m.stack);
    if stack.len() == 0 {
        (WalkModel { stack, phase: Phase::Finished, ..m }, ActionModel::Done)
    } else {
        let top = stack.last();
        let moved = stack.drop_last().push(FrameModel { next: top.next + 1, ..top });
        (WalkModel { stack: moved, phase: Phase::Visited, ..m }, ActionModel::Visit(node_on(moved)))
    }
}

/// Whether the entry handed out last is gone into: it is a directory, and
/// its children would not lie at the maximum depth or deeper.
pub open spec fn expands(m: WalkModel) -> bool {
    model_is_dir(current(m.stack.last())) && m.stack.len() < m.max_depth
}

/// A listing that was handed in, or the empty listing where none was.
pub open spec fn listing_or_empty(input: Option<Seq<RawEntryModel>>) -> Seq<RawEntryModel> {
    match input {
        Some(listing) => listing,
        None => Seq::empty(),
    }
}

/// One step of the walk.
///
/// A fresh walk asks for the listing of the root, unless the maximum depth
/// is zero. A walk that waits for a listing takes it, arranges it as a new
/// innermost frame and goes on. A walk that has handed out a node asks for
/// the listing of that node where it is gone into, and goes on otherwise.
pub open spec fn step_of(m: WalkModel, input: Option<Seq<RawEntryModel>>) -> (
    WalkModel,
    ActionModel,
) {
    match m.phase {
        Phase::Fresh => if m.max_depth == 0 {
            (WalkModel { phase: Phase::Finished, ..m }, ActionModel::Done)
        } else {
            (WalkModel { phase: Phase::Waiting, ..m }, ActionModel::List(Seq::empty()))
        },
        Phase::Waiting => go_on(
            WalkModel {
                stack: m.stack.push(
                    FrameModel {
                        entries: arranged(listing_or_empty(input), m.show_hidden),
                        next: 0,
                    },
                ),
                ..m
            },
        ),
        Phase::Visited => if expands(m) {
            (WalkModel { phase: Phase::Waiting, ..m }, ActionModel::List(path_on(m.stack)))
        } else {
            go_on(m)
        },
        Phase::Finished => (m, ActionModel::Done),
    }
}

/// Every frame has handed out no more than it holds, and every frame but
/// the innermost has handed out a directory: the one the next frame lists.
pub open spec fn frames_fit(stack: Seq<FrameModel>) -> bool {
    &&& forall|i: int| 0 <= i < stack.len() ==> (#[trigger] stack[i]).next <= stack[i].entries.len()
    &&& forall|i: int|
        0 <= i < stack.len() - 1 ==> (#[trigger] stack[i]).next >= 1 && model_is_dir(
            current(stack[i]),
        )
}

/// What holds of a walk between any two steps.
pub open spec fn well_formed(m: WalkModel) -> bool {
    &&& m.stack.len() <= m.max_depth
    &&& frames_fit(m.stack)
    &&& match m.phase {
        Phase::Fresh => m.stack.len() == 0,
        Phase::Waiting => m.stack.len() < m.max_depth && (m.stack.len() > 0 ==> m.stack.last().next
            >= 1 && model_is_dir(current(m.stack.last()))),
        Phase::Visited => m.stack.len() > 0 && m.stack.last().next >= 1,
        Phase::Finished => m.stack.len() == 0,
    }
}

/// A walk at its start.
pub open spec fn fresh_walk(show_hidden: bool, max_depth: nat) -> WalkModel {
    WalkModel { show_hidden, max_depth, stack: Seq::empty(), phase: Phase::Fresh }
}

/// The models of the frames of a stack, outermost first.
pub open spec fn frame_models(stack: Seq<Frame>) -> Seq<FrameModel> {
    stack.map_values(|f: Frame| f@)
}

/// The model of a listing that may be absent.
pub open spec fn listing_model(input: Option<Vec<RawEntry>>) -> Option<Seq<RawEntryModel>> {
    match input {
        Some(listing) => Some(models(listing@)),
        None => None,
    }
}

/// Unwinding drops frames from the end only, and stops at a frame that has
/// an entry left.
pub proof fn lemma_unwound(stack: Seq<FrameModel>)
    ensures
        unwound(stack).len() <= stack.len(),
        unwound(stack) == stack.take(unwound(stack).len() as int),
        unwound(stack).len() > 0 ==> !at_last(unwound(stack).last()),
    decreases stack.len(),
{
    if stack.len() > 0 && at_last(stack.last()) {
        lemma_unwound(stack.drop_last());
        assert(stack.drop_last().take(unwound(stack).len() as int) =~= stack.take(
            unwound(stack).len() as int,
        ));
    } else {
        assert(stack.take(stack.len() as int) =~= stack);
    }
}

proof fn lemma_go_on(m: WalkModel)
    requires
        m.stack.len() <= m.max_depth,
        frames_fit(m.stack),
    ensures
        well_formed(go_on(m).0),
        !(go_on(m).1 is List),
        go_on(m).1 matches ActionModel::Visit(n) ==> n.depth < m.max_depth && n.depth + 1
            == go_on(m).0.stack.len() && n.ancestor_is_last.len() == n.depth,
{
    lemma_unwound(m.stack);
    let stack = unwound(m.stack);
    if stack.len() > 0 {
        let top = stack.last();
        let moved = stack.drop_last().push(FrameModel { next: top.next + 1, ..top });
        assert forall|i: int| 0 <= i < moved.len() implies (#[trigger] moved[i]).next
            <= moved[i].entries.len() by {
            if i < moved.len() - 1 {
                assert(moved[i] == m.stack[i]);
            } else {
                assert(stack.last() == m.stack[i]);
            }
        }
        assert forall|i: int| 0 <= i < moved.len() - 1 implies (#[trigger] moved[i]).next >= 1
            && model_is_dir(current(moved[i])) by {
            assert(moved[i] == m.stack[i]);
        }
    }
}

/// A step leaves a walk as a walk should be.
pub proof fn lemma_step_well_formed(m: WalkModel, input: Option<Seq<RawEntryModel>>)
    requires
        well_formed(m),
    ensures
        well_formed(step_of(m, input).0),
{
    match m.phase {
        Phase::Waiting => {
            let frame = FrameModel {
                entries: arranged(listing_or_empty(input), m.show_hidden),
                next: 0,
            };
            let pushed = WalkModel { stack: m.stack.push(frame), ..m };
            assert forall|i: int| 0 <= i < pushed.stack.len() - 1 implies (
            #[trigger] pushed.stack[i]).next >= 1 && model_is_dir(current(pushed.stack[i])) by {
                assert(pushed.stack[i] == m.stack[i]);
            }
            lemma_go_on(pushed);
        },
        Phase::Visited => {
            if !expands(m) {
                lemma_go_on(m);
            }
        },
        _ => {},
    }
}

/// No step hands out a node at the maximum depth or deeper, and no step
/// asks for the listing of a directory whose entries would lie there. A
/// directory at the deepest level that is shown is handed out like any
/// other entry, and the step after it asks for no listing.
pub proof fn lemma_depth_bound(m: WalkModel, input: Option<Seq<RawEntryModel>>)
    requires
        well_formed(m),
    ensures
        step_of(m, input).1 matches ActionModel::Visit(n) ==> n.depth < m.max_depth,
        step_of(m, input).1 matches ActionModel::List(path) ==> path.len() < m.max_depth,
        m.phase == Phase::Visited && m.stack.len() == m.max_depth ==> !(step_of(m, input).1 is List),
{
    match m.phase {
        Phase::Waiting => {
            let frame = FrameModel {
                entries: arranged(listing_or_empty(input), m.show_hidden),
                next: 0,
            };
            let pushed = WalkModel { stack: m.stack.push(frame), ..m };
            assert forall|i: int| 0 <= i < pushed.stack.len() - 1 implies (
            #[trigger] pushed.stack[i]).next >= 1 && model_is_dir(current(pushed.stack[i])) by {
                assert(pushed.stack[i] == m.stack[i]);
            }
            lemma_go_on(pushed);
        },
        Phase::Visited => {
            if !expands(m) {
                lemma_go_on(m);
            }
        },
        _ => {},
    }
}

/// The frames of a stack without those at its end that have nothing left.
fn unwind(stack: Vec<Frame>) -> (rest: Vec<Frame>)
    ensures
        frame_models(rest@) == unwound(frame_models(stack@)),
{
    let mut rest = stack;
    while rest.len() > 0 && rest[rest.len() - 1].next >= rest[rest.len() - 1].entries.len()
        invariant
            unwound(frame_models(rest@)) == unwound(frame_models(stack@)),
        decreases rest.len(),
    {
        let ghost before = frame_models(rest@);
        assert(at_last(before.last()));
        rest.pop();
        assert(frame_models(rest@) =~= before.drop_last());
    }
    proof {
        if rest.len() > 0 {
            assert(!at_last(frame_models(rest@).last()));
        }
    }
    rest
}

/// The node for the entry that the innermost frame handed out last.
fn make_node(stack: &Vec<Frame>) -> (node: TreeNode)
    requires
        stack.len() > 0,
        1 <= stack@.last().next <= stack@.last().entries.len(),
    ensures
        node@ == node_on(frame_models(stack@)),
{
    let depth = stack.len() - 1;
    let top = &stack[depth];
    let e = &top.entries[top.next - 1];
    let mut flags: Vec<bool> = Vec::new();
    let mut i: usize = 0;
    while i < depth
        invariant
            i <= depth,
            depth == stack.len() - 1,
            flags@ == flags_on(frame_models(stack@).drop_last()).take(i as int),
        decreases depth - i,
    {
        let ghost before = flags@;
        flags.push(stack[i].next >= stack[i].entries.len());
        assert(flags@ =~= flags_on(frame_models(stack@).drop_last()).take(i + 1));
        i += 1;
    }
    assert(flags@ =~= flags_on(frame_models(stack@).drop_last()));
    TreeNode {
        entry: classify_compact(e),
        category: category(e.is_dir(), &e.name),
        depth,
        is_last_sibling: top.next >= top.entries.len(),
        ancestor_is_last: flags,
    }
}

/// The names that lead from the root to the entry handed out last.
fn make_path(stack: &Vec<Frame>) -> (path: Vec<Vec<u8>>)
    requires
        forall|i: int| 0 <= i < stack.len() ==> 1 <= (#[trigger] stack@[i]).next
            <= stack@[i].entries.len(),
    ensures
        path_model(path@) == path_on(frame_models(stack@)),
{
    let mut path: Vec<Vec<u8>> = Vec::new();
    let mut i: usize = 0;
    while i < stack.len()
        invariant
            i <= stack.len(),
            forall|i: int| 0 <= i < stack.len() ==> 1 <= (#[trigger] stack@[i]).next
                <= stack@[i].entries.len(),
            path_model(path@) == path_on(frame_models(stack@)).take(i as int),
        decreases stack.len() - i,
    {
        let frame = &stack[i];
        assert(1 <= stack@[i as int].next <= stack@[i as int].entries.len());
        let ghost before = path_model(path@);
        let name = copy_bytes(&frame.entries[frame.next - 1].name);
        assert(name@ == current(frame_models(stack@)[i as int]).name);
        path.push(name);
        assert(path_model(path@) =~= before.push(name@));
        assert(path_model(path@) =~= path_on(frame_models(stack@)).take(i + 1));
        i += 1;
    }
    assert(path_model(path@) =~= path_on(frame_models(stack@)));
    path
}

/// A walk over a directory tree, driven step by step by a caller that does
/// the reading and the showing.
#[derive(Debug)]
pub struct TreeWalk {
    show_hidden: bool,
    max_depth: usize,
    stack: Vec<Frame>,
    phase: Phase,
}

impl View for TreeWalk {
    type V = WalkModel;

    closed spec fn view(&self) -> WalkModel {
        WalkModel {
            show_hidden: self.show_hidden,
            max_depth: self.max_depth as nat,
            stack: frame_models(self.stack@),
            phase: self.phase,
        }
    }
}

/// Goes on to the next entry of a stack of frames.
fn proceed(show_hidden: bool, max_depth: usize, stack: Vec<Frame>) -> (next: (TreeWalk, Action))
    requires
        stack.len() <= max_depth,
        frames_fit(frame_models(stack@)),
    ensures
        (next.0@, next.1@) == go_on(
            WalkModel {
                show_hidden,
                max_depth: max_depth as nat,
                stack: frame_models(stack@),
                phase: Phase::Visited,
            },
        ),
{
    let ghost m = WalkModel {
        show_hidden,
        max_depth: max_depth as nat,
        stack: frame_models(stack@),
        phase: Phase::Visited,
    };
    proof {
        lemma_go_on(m);
        lemma_unwound(m.stack);
    }
    let mut stack = unwind(stack);
    if stack.len() == 0 {
        assert(frame_models(stack@) =~= Seq::empty());
        return (TreeWalk { show_hidden, max_depth, stack, phase: Phase::Finished }, Action::Done);
    }
    let ghost unwound_stack = frame_models(stack@);
    let mut top = stack.pop().unwrap();
    assert(top@ == unwound_stack.last());
    assert(unwound_stack.last() == m.stack[unwound_stack.len() - 1]);
    assert(!at_last(top@));
    assert(top.next < top.entries.len());
    top.next = top.next + 1;
    stack.push(top);
    assert(frame_models(stack@) =~= unwound_stack.drop_last().push(
        FrameModel { next: unwound_stack.last().next + 1, ..unwound_stack.last() },
    ));
    let node = make_node(&stack);
    (TreeWalk { show_hidden, max_depth, stack, phase: Phase::Visited }, Action::Visit(node))
}

impl TreeWalk {
    #[verifier::type_invariant]
    spec fn inv(&self) -> bool {
        well_formed(self@)
    }

    /// A walk at its start. `max_depth` is the number of levels below the
    /// root that are shown.
    pub fn new(show_hidden: bool, max_depth: usize) -> (walk: TreeWalk)
        ensures
            walk@ == fresh_walk(show_hidden, max_depth as nat),
            well_formed(walk@),
    {
        let stack: Vec<Frame> = Vec::new();
        assert(frame_models(stack@) =~= Seq::empty());
        TreeWalk { show_hidden, max_depth, stack, phase: Phase::Fresh }
    }

    /// One step of the walk. `input` is the listing that the step before
    /// asked for, and `None` after any other step; a directory that could
    /// not be read is handed in as an empty listing.
    pub fn step(self, input: Option<Vec<RawEntry>>) -> (next: (TreeWalk, Action))
        ensures
            (next.0@, next.1@) == step_of(self@, listing_model(input)),
            well_formed(self@),
            well_formed(next.0@),
    {
        proof {
            use_type_invariant(&self);
            lemma_step_well_formed(self@, listing_model(input));
        }
        let ghost m = self@;
        let TreeWalk { show_hidden, max_depth, stack, phase } = self;
        match phase {
            Phase::Fresh => {
                if max_depth == 0 {
                    (TreeWalk { show_hidden, max_depth, stack, phase: Phase::Finished }, Action::Done)
                } else {
                    let path: Vec<Vec<u8>> = Vec::new();
                    assert(path_model(path@) =~= Seq::empty());
                    (
                        TreeWalk { show_hidden, max_depth, stack, phase: Phase::Waiting },
                        Action::List(path),
                    )
                }
            },
            Phase::Waiting => {
                let listing = match input {
                    Some(listing) => listing,
                    None => Vec::new(),
                };
                assert(models(listing@) =~= listing_or_empty(listing_model(input)));
                let entries = sort_tree_order(visible_entries(&listing, show_hidden));
                let mut stack = stack;
                let frame = Frame { entries, next: 0 };
                assert(frame@ == FrameModel {
                    entries: arranged(listing_or_empty(listing_model(input)), show_hidden),
                    next: 0,
                });
                stack.push(frame);
                assert(frame_models(stack@) =~= m.stack.push(frame@));
                assert forall|i: int| 0 <= i < stack@.len() - 1 implies (#[trigger] frame_models(
                    stack@,
                )[i]).next >= 1 && model_is_dir(current(frame_models(stack@)[i])) by {
                    assert(frame_models(stack@)[i] == m.stack[i]);
                }
                proceed(show_hidden, max_depth, stack)
            },
            Phase::Visited => {
                let top = &stack[stack.len() - 1];
                assert(top@ == m.stack.last());
                if top.next <= top.entries.len() && top.entries[top.next - 1].is_dir()
                    && stack.len() < max_depth {
                    assert forall|i: int| 0 <= i < stack.len() implies 1 <= (
                    #[trigger] stack@[i]).next <= stack@[i].entries.len() by {
                        assert(stack@[i]@ == m.stack[i]);
                    }
                    let path = make_path(&stack);
                    (
                        TreeWalk { show_hidden, max_depth, stack, phase: Phase::Waiting },
                        Action::List(path),
                    )
                } else {
                    proceed(show_hidden, max_depth, stack)
                }
            },
            Phase::Finished => (
                TreeWalk { show_hidden, max_depth, stack, phase: Phase::Finished },
                Action::Done,
            ),
        }
    }
}

} // verus!
