//! The lines of the tree view: a node with its place among its siblings and
//! under its ancestors, and the indentation drawn from that place.

use crate::entry::{model_is_dir, RawEntryModel};
use crate::listing::{compact_model, ClassifiedEntry, ClassifiedModel};
use crate::paint::{category_of, paint, painted_text, Category};
use vstd::prelude::*;
use vstd::string::StringExecFns;

verus! {

/// One entry of the tree view with what is needed to draw its line.
#[derive(Clone, Debug, PartialEq, Eq)]
pub struct TreeNode {
    pub entry: ClassifiedEntry,
    pub category: Category,
    /// 0 for the children of the root.
    pub depth: usize,
    pub is_last_sibling: bool,
    /// For each ancestor below the root, outermost first, whether it is the
    /// last of its siblings.
    pub ancestor_is_last: Vec<bool>,
}

/// The mathematical value of a [`TreeNode`].
pub struct NodeModel {
    pub entry: ClassifiedModel,
    pub category: Category,
    pub depth: nat,
    pub is_last_sibling: bool,
    pub ancestor_is_last: Seq<bool>,
}

impl View for TreeNode {
    type V = NodeModel;

    open spec fn view(&self) -> NodeModel {
        NodeModel {
            entry: self.entry@,
            category: self.category,
            depth: self.depth as nat,
            is_last_sibling: self.is_last_sibling,
            ancestor_is_last: self.ancestor_is_last@,
        }
    }
}

/// The node for an entry under a chain of ancestors: `flags` tells for each
/// ancestor, outermost first, whether it is the last of its siblings, and
/// `last` tells the same of the entry itself.
pub open spec fn node_for(e: RawEntryModel, flags: Seq<bool>, last: bool) -> NodeModel {
    NodeModel {
        entry: compact_model(e),
        category: category_of(model_is_dir(e), e.name),
        depth: flags.len(),
        is_last_sibling: last,
        ancestor_is_last: flags,
    }
}

/// What one ancestor adds to the indentation of its descendants: blanks
/// under a last sibling, a vertical bar under one that has siblings after it.
pub open spec fn segment(last: bool) -> Seq<char> {
    if last {
        "    "@
    } else {
        "│   "@
    }
}

/// What joins an entry to the line of its parent: a corner for a last
/// sibling, a branch for one that has siblings after it.
pub open spec fn connector(last: bool) -> Seq<char> {
    if last {
        "└── "@
    } else {
        "├── "@
    }
}

/// The indentation under a chain of ancestors, outermost first: one segment
/// for each.
pub open spec fn prefix_of(ancestors: Seq<bool>) -> Seq<char>
    decreases ancestors.len(),
{
    if ancestors.len() == 0 {
        Seq::empty()
    } else {
        prefix_of(ancestors.drop_last()) + segment(ancestors.last())
    }
}

/// The chain of ancestors that an indentation was drawn from, if it was
/// drawn from one: the indentation is read four characters at a time.
pub open spec fn ancestors_of(prefix: Seq<char>) -> Option<Seq<bool>>
    decreases prefix.len(),
{
    if prefix.len() == 0 {
        Some(Seq::empty())
    } else if prefix.len() < 4 {
        None
    } else {
        let cut = prefix.len() - 4;
        match ancestors_of(prefix.take(cut)) {
            Some(outer) => if prefix.skip(cut) == segment(true) {
                Some(outer.push(true))
            } else if prefix.skip(cut) == segment(false) {
                Some(outer.push(false))
            } else {
                None
            },
            None => None,
        }
    }
}

/// The line of a node: indentation, connector, and the name painted for the
/// category of the entry.
pub open spec fn line_of(n: NodeModel) -> Seq<char> {
    prefix_of(n.ancestor_is_last) + connector(n.is_last_sibling) + painted_text(
        n.entry.name,
        n.category,
    )
}

/// The line of the root: its name, painted as a directory, without
/// indentation or connector.
pub open spec fn root_line_of(name: Seq<char>) -> Seq<char> {
    painted_text(name, Category::Directory)
}

proof fn lemma_segments()
    ensures
        segment(true).len() == 4,
        segment(false).len() == 4,
        segment(true) != segment(false),
{
    reveal_strlit("    ");
    reveal_strlit("│   ");
    assert(segment(true)[0] != segment(false)[0]);
}

/// Every indentation has four characters for each ancestor.
pub proof fn lemma_prefix_len(ancestors: Seq<bool>)
    ensures
        prefix_of(ancestors).len() == 4 * ancestors.len(),
    decreases ancestors.len(),
{
    lemma_segments();
    if ancestors.len() > 0 {
        lemma_prefix_len(ancestors.drop_last());
    }
}

/// Reading an indentation back gives exactly the chain of ancestors it was
/// drawn from: for each ancestor, outermost first, whether it was the last
/// of its siblings.
pub proof fn lemma_prefix_round_trip(ancestors: Seq<bool>)
    ensures
        ancestors_of(prefix_of(ancestors)) == Some(ancestors),
    decreases ancestors.len(),
{
    lemma_segments();
    if ancestors.len() > 0 {
        let outer = ancestors.drop_last();
        let prefix = prefix_of(ancestors);
        lemma_prefix_len(ancestors);
        lemma_prefix_len(outer);
        lemma_prefix_round_trip(outer);
        let cut = prefix.len() - 4;
        assert(prefix.take(cut) =~= prefix_of(outer));
        assert(prefix.skip(cut) =~= segment(ancestors.last()));
        assert(outer.push(ancestors.last()) =~= ancestors);
    }
}

/// Two chains of ancestors that are drawn alike are the same chain.
pub proof fn lemma_prefix_injective(a: Seq<bool>, b: Seq<bool>)
    requires
        prefix_of(a) == prefix_of(b),
    ensures
        a == b,
{
    lemma_prefix_round_trip(a);
    lemma_prefix_round_trip(b);
}

fn push_prefix(out: &mut String, ancestors: &Vec<bool>)
    ensures
        final(out)@ == old(out)@ + prefix_of(ancestors@),
{
    let mut i: usize = 0;
    assert(ancestors@.take(0) =~= Seq::empty());
    assert(old(out)@ + prefix_of(ancestors@.take(0)) =~= old(out)@);
    while i < ancestors.len()
        invariant
            i <= ancestors.len(),
            out@ == old(out)@ + prefix_of(ancestors@.take(i as int)),
        decreases ancestors.len() - i,
    {
        proof {
            let upto = ancestors@.take(i + 1);
            assert(upto.drop_last() =~= ancestors@.take(i as int));
            assert(upto.last() == ancestors@[i as int]);
            assert(old(out)@ + prefix_of(upto) =~= old(out)@ + prefix_of(
                ancestors@.take(i as int),
            ) + segment(ancestors@[i as int]));
        }
        if ancestors[i] {
            out.append("    ");
        } else {
            out.append("│   ");
        }
        i += 1;
    }
    assert(ancestors@.take(i as int) =~= ancestors@);
}

impl TreeNode {
    /// The line that shows this node in the tree view.
    pub fn line(&self) -> (text: String)
        ensures
            text@ == line_of(self@),
    {
        let mut text = String::new();
        push_prefix(&mut text, &self.ancestor_is_last);
        if self.is_last_sibling {
            text.append("└── ");
        } else {
            text.append("├── ");
        }
        let name = paint(self.entry.name.as_str(), self.category);
        text.append(name.as_str());
        assert(text@ =~= line_of(self@));
        text
    }
}

/// The first line of the tree view: the name of the root.
pub fn root_line(name: &str) -> (text: String)
    ensures
        text@ == root_line_of(name@),
{
    paint(name, Category::Directory)
}

} // verus!
