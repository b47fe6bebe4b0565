//! The part of a styled document that table construction reads.

use vstd::prelude::*;

use crate::binary32::Binary32;
use crate::spans;

verus! {

/// How a box takes part in its container's layout.
#[derive(Clone, Copy, Debug, PartialEq, Eq, Structural)]
pub enum DisplayOutside {
    /// The element makes no box.
    Absent,
    Inline,
    Block,
    TableCaption,
    InternalTable,
}

/// How a box lays out its content.
#[derive(Clone, Copy, Debug, PartialEq, Eq, Structural)]
pub enum DisplayInside {
    /// The element makes no box.
    Absent,
    Contents,
    Flow,
    FlowRoot,
    Flex,
    Grid,
    Table,
    TableRowGroup,
    TableColumn,
    TableColumnGroup,
    TableHeaderGroup,
    TableFooterGroup,
    TableRow,
    TableCell,
}

#[derive(Clone, Copy, Debug, PartialEq, Eq, Structural)]
pub enum TableLayout {
    Auto,
    Fixed,
}

#[derive(Clone, Copy, Debug, PartialEq, Eq, Structural)]
pub enum BorderCollapse {
    Separate,
    Collapse,
}

/// An authored width.
#[derive(Clone, Copy, Debug, PartialEq, Eq, Structural)]
pub enum InlineSize {
    /// In pixels.
    Length(Binary32),
    /// As a part of the whole, which is one.
    Percent(Binary32),
    Auto,
    /// A formula over lengths and percentages.
    Calculated,
}

/// The widths of a box's borders, in app units.
#[derive(Clone, Copy, Debug, PartialEq, Eq, Structural)]
pub struct BorderWidths {
    pub top: i32,
    pub right: i32,
    pub bottom: i32,
    pub left: i32,
}

/// The computed style of an element, as far as tables depend on it.
#[derive(Clone, Copy, Debug, PartialEq, Eq, Structural)]
pub struct NodeStyle {
    pub outside: DisplayOutside,
    pub inside: DisplayInside,
    pub width: InlineSize,
    /// The padding in pixels, where percentages count as nothing.
    pub padding_left: Binary32,
    pub padding_right: Binary32,
    pub border: BorderWidths,
    pub table_layout: TableLayout,
    pub border_collapse: BorderCollapse,
    /// The distance between columns in pixels, where borders do not collapse.
    pub spacing_width: Binary32,
    /// The distance between rows in pixels, where borders do not collapse.
    pub spacing_height: Binary32,
}

/// What about a node has to be rebuilt.
#[derive(Clone, Copy, Debug, PartialEq, Eq, Structural)]
pub struct Damage {
    pub construct_box: bool,
    pub construct_fc: bool,
    pub construct_descendent: bool,
    /// Damage that construction does not repair.
    pub other: u32,
}

impl Damage {
    /// The damage that is left after construction.
    pub open spec fn repaired(self) -> Damage {
        Damage {
            construct_box: false,
            construct_fc: false,
            construct_descendent: false,
            other: self.other,
        }
    }
}

/// A node of the document.
#[derive(Debug)]
pub struct Node {
    /// Whether this is an element, and not text or a comment.
    pub element: bool,
    /// The computed style, where the node has been styled.
    pub style: Option<NodeStyle>,
    /// The `colspan` attribute, where the node has one.
    pub colspan: Option<String>,
    /// The `rowspan` attribute, where the node has one.
    pub rowspan: Option<String>,
    /// The places of the children in the document.
    pub children: Vec<usize>,
    pub damage: Damage,
}

/// All there is to a node but its damage.
pub struct NodeView {
    pub element: bool,
    pub style: Option<NodeStyle>,
    pub colspan: Option<Seq<char>>,
    pub rowspan: Option<Seq<char>>,
    pub children: Seq<usize>,
}

impl View for Node {
    type V = NodeView;

    open spec fn view(&self) -> NodeView {
        NodeView {
            element: self.element,
            style: self.style,
            colspan: spans::text_of(self.colspan),
            rowspan: spans::text_of(self.rowspan),
            children: self.children@,
        }
    }
}

/// A document. Nodes are named by their place in it.
#[derive(Debug)]
pub struct Document {
    pub nodes: Vec<Node>,
}

impl Document {
    /// The nodes without their damage.
    pub open spec fn structure(&self) -> Seq<NodeView> {
        Seq::new(self.nodes@.len(), |i: int| self.nodes@[i]@)
    }

    /// The damage of each node.
    pub open spec fn damage(&self) -> Seq<Damage> {
        Seq::new(self.nodes@.len(), |i: int| self.nodes@[i].damage)
    }

    /// Takes the children from a node and leaves it without any.
    pub fn take_children(&mut self, id: usize) -> (children: Vec<usize>)
        requires
            id < old(self).structure().len(),
        ensures
            children@ == old(self).structure()[id as int].children,
            final(self).structure() == childless(old(self).structure(), id as int),
            final(self).damage() == old(self).damage(),
    {
        let mut children: Vec<usize> = Vec::new();
        std::mem::swap(&mut children, &mut self.nodes[id].children);
        assert(self.structure() =~= childless(old(self).structure(), id as int));
        assert(self.damage() =~= old(self).damage());
        children
    }

    /// Gives a node its children.
    pub fn put_children(&mut self, id: usize, children: Vec<usize>)
        requires
            id < old(self).structure().len(),
        ensures
            final(self).structure() == with_children(
                old(self).structure(),
                id as int,
                children@,
            ),
            final(self).damage() == old(self).damage(),
    {
        self.nodes[id].children = children;
        assert(self.structure() =~= with_children(old(self).structure(), id as int, children@));
        assert(self.damage() =~= old(self).damage());
    }

    /// Takes the damage from a node that construction repairs.
    pub fn remove_damage(&mut self, id: usize)
        requires
            id < old(self).structure().len(),
        ensures
            final(self).structure() == old(self).structure(),
            final(self).damage() == old(self).damage().update(
                id as int,
                old(self).damage()[id as int].repaired(),
            ),
    {
        let other: u32 = self.nodes[id].damage.other;
        self.nodes[id].damage = Damage {
            construct_box: false,
            construct_fc: false,
            construct_descendent: false,
            other,
        };
        assert(self.structure() =~= old(self).structure());
        assert(self.damage() =~= old(self).damage().update(
            id as int,
            old(self).damage()[id as int].repaired(),
        ));
    }
}

/// The nodes, where the node `id` has the given children.
pub open spec fn with_children(
    nodes: Seq<NodeView>,
    id: int,
    children: Seq<usize>,
) -> Seq<NodeView> {
    nodes.update(id, NodeView { children, ..nodes[id] })
}

/// The nodes, where the node `id` has no children.
pub open spec fn childless(nodes: Seq<NodeView>, id: int) -> Seq<NodeView> {
    with_children(nodes, id, Seq::empty())
}

/// Whether every child is a node of the document.
pub open spec fn connected(nodes: Seq<NodeView>) -> bool {
    forall|i: int, k: int|
        0 <= i < nodes.len() && 0 <= k < nodes[i].children.len() ==> #[trigger] nodes[i].children[k]
            < nodes.len()
}

/// How many children all nodes have together.
pub open spec fn children_in_all(nodes: Seq<NodeView>) -> nat
    decreases nodes.len(),
{
    if nodes.len() == 0 {
        0
    } else {
        children_in_all(nodes.drop_last()) + nodes.last().children.len()
    }
}

/// Taking a node's children leaves that many fewer in all.
pub proof fn lemma_childless(nodes: Seq<NodeView>, id: int)
    requires
        0 <= id < nodes.len(),
    ensures
        children_in_all(nodes) == children_in_all(childless(nodes, id))
            + nodes[id].children.len(),
    decreases nodes.len(),
{
    let less = childless(nodes, id);
    if id == nodes.len() - 1 {
        assert(less.drop_last() =~= nodes.drop_last());
    } else {
        assert(less.drop_last() =~= childless(nodes.drop_last(), id));
        lemma_childless(nodes.drop_last(), id);
    }
}

}
