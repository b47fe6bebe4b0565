//! Finding the rows and cells of a table in document order.

use vstd::prelude::*;

use crate::document;
use crate::document::{Damage, DisplayInside, DisplayOutside, Document, NodeStyle, NodeView};

verus! {

/// What a descendant of a table is to the table.
#[derive(Clone, Copy, Debug, PartialEq, Eq, Structural)]
pub enum Role {
    /// Not a styled element.
    Foreign,
    /// An element that the table leaves out.
    Ignored,
    /// A wrapper whose children count in its place.
    Group,
    Row,
    Cell,
}

/// The role of an element with the given style.
pub open spec fn styled_role(style: NodeStyle) -> Role {
    if style.outside == DisplayOutside::Absent {
        Role::Ignored
    } else {
        match style.inside {
            DisplayInside::TableRowGroup
            | DisplayInside::TableHeaderGroup
            | DisplayInside::TableFooterGroup
            | DisplayInside::Contents => Role::Group,
            DisplayInside::TableRow => Role::Row,
            DisplayInside::TableCell => Role::Cell,
            _ => Role::Ignored,
        }
    }
}

/// The role of a node.
pub open spec fn role(node: NodeView) -> Role {
    match node.style {
        Some(style) => if node.element {
            styled_role(style)
        } else {
            Role::Foreign
        },
        None => Role::Foreign,
    }
}

/// A row or a cell of a table, as it comes in document order. A row comes before
/// the cells that it holds.
#[derive(Clone, Copy, Debug, PartialEq, Eq, Structural)]
pub enum Item {
    Row(usize),
    Cell(usize),
}

/// The rows and cells that the node `id` stands for. Cells are not looked into.
pub open spec fn items(nodes: Seq<NodeView>, id: usize) -> Seq<Item>
    decreases document::children_in_all(nodes), 0nat,
{
    if id >= nodes.len() {
        Seq::empty()
    } else {
        proof {
            document::lemma_childless(nodes, id as int);
        }
        let children = nodes[id as int].children;
        let inner = if children.len() == 0 {
            Seq::empty()
        } else {
            items_of(document::childless(nodes, id as int), children)
        };
        match role(nodes[id as int]) {
            Role::Cell => seq![Item::Cell(id)],
            Role::Row => seq![Item::Row(id)] + inner,
            Role::Group => inner,
            _ => Seq::empty(),
        }
    }
}

/// The rows and cells that the nodes `ids` stand for, one after the other.
pub open spec fn items_of(nodes: Seq<NodeView>, ids: Seq<usize>) -> Seq<Item>
    decreases document::children_in_all(nodes), ids.len(),
{
    if ids.len() == 0 {
        Seq::empty()
    } else {
        items_of(nodes, ids.drop_last()) + items(nodes, ids.last())
    }
}

/// The nodes whose construction damage is repaired when the node `id` is looked at.
/// Cells keep theirs, unless a group holds them: their content is yet to be built.
pub open spec fn repairs(nodes: Seq<NodeView>, id: usize) -> Set<int>
    decreases document::children_in_all(nodes), 0nat,
{
    if id >= nodes.len() {
        Set::empty()
    } else {
        proof {
            document::lemma_childless(nodes, id as int);
        }
        let children = nodes[id as int].children;
        let inner = if children.len() == 0 {
            Set::empty()
        } else {
            repairs_of(document::childless(nodes, id as int), children)
        };
        match role(nodes[id as int]) {
            Role::Foreign => Set::empty(),
            Role::Cell => Set::empty(),
            Role::Ignored => set![id as int],
            Role::Row => inner.insert(id as int),
            Role::Group => inner.union(members(children)),
        }
    }
}

/// The nodes whose construction damage is repaired when the nodes `ids` are looked at.
pub open spec fn repairs_of(nodes: Seq<NodeView>, ids: Seq<usize>) -> Set<int>
    decreases document::children_in_all(nodes), ids.len(),
{
    if ids.len() == 0 {
        Set::empty()
    } else {
        repairs_of(nodes, ids.drop_last()).union(repairs(nodes, ids.last()))
    }
}

/// The nodes that a list of nodes names.
pub open spec fn members(ids: Seq<usize>) -> Set<int> {
    Set::new(|i: int| exists|k: int| 0 <= k < ids.len() && #[trigger] ids[k] == i)
}

/// The damage of all nodes after that of the nodes in `which` was repaired.
pub open spec fn after_repairs(damage: Seq<Damage>, which: Set<int>) -> Seq<Damage> {
    Seq::new(
        damage.len(),
        |i: int|
            if which.contains(i) {
                damage[i].repaired()
            } else {
                damage[i]
            },
    )
}

/// The role of an element with the given style.
pub fn role_of_style(style: NodeStyle) -> (r: Role)
    ensures
        r == styled_role(style),
{
    if style.outside == DisplayOutside::Absent {
        Role::Ignored
    } else {
        match style.inside {
            DisplayInside::TableRowGroup
            | DisplayInside::TableHeaderGroup
            | DisplayInside::TableFooterGroup
            | DisplayInside::Contents => Role::Group,
            DisplayInside::TableRow => Role::Row,
            DisplayInside::TableCell => Role::Cell,
            _ => Role::Ignored,
        }
    }
}

fn role_of(doc: &Document, id: usize) -> (r: Role)
    requires
        id < doc.structure().len(),
    ensures
        r == role(doc.structure()[id as int]),
{
    match doc.nodes[id].style {
        Some(style) => if doc.nodes[id].element {
            role_of_style(style)
        } else {
            Role::Foreign
        },
        None => Role::Foreign,
    }
}

/// Appends to `found` the rows and cells that the node `id` stands for, and repairs
/// the construction damage of the nodes that stand for nothing else.
///
/// While the children of a node are looked at, they are taken from it, so that the
/// walk ends even where a node is its own descendant.
pub fn collect_items(doc: &mut Document, id: usize, found: &mut Vec<Item>)
    requires
        id < old(doc).structure().len(),
        document::connected(old(doc).structure()),
    ensures
        final(doc).structure() == old(doc).structure(),
        final(doc).damage() == after_repairs(
            old(doc).damage(),
            repairs(old(doc).structure(), id),
        ),
        final(found)@ == old(found)@ + items(old(doc).structure(), id),
    decreases document::children_in_all(old(doc).structure()), 1nat,
{
    let ghost nodes = doc.structure();
    let ghost before = doc.damage();
    let kind: Role = role_of(doc, id);
    match kind {
        Role::Foreign => {},
        Role::Ignored => {
            doc.remove_damage(id);
        },
        Role::Cell => {
            found.push(Item::Cell(id));
        },
        Role::Row => {
            doc.remove_damage(id);
            found.push(Item::Row(id));
            collect_children(doc, id, false, found);
        },
        Role::Group => {
            collect_children(doc, id, true, found);
        },
    }
    assert(doc.damage() =~= after_repairs(before, repairs(nodes, id)));
    assert(found@ =~= old(found)@ + items(nodes, id));
}

/// Appends to `found` the rows and cells that the children of the node `id` stand
/// for. Where `clean`, the construction damage of the children is repaired too.
fn collect_children(doc: &mut Document, id: usize, clean: bool, found: &mut Vec<Item>)
    requires
        id < old(doc).structure().len(),
        document::connected(old(doc).structure()),
    ensures
        final(doc).structure() == old(doc).structure(),
        ({
            let nodes = old(doc).structure();
            let children = nodes[id as int].children;
            let rest = document::childless(nodes, id as int);
            let which = repairs_of(rest, children);
            &&& final(doc).damage() == after_repairs(
                old(doc).damage(),
                if clean {
                    which.union(members(children))
                } else {
                    which
                },
            )
            &&& final(found)@ == old(found)@ + items_of(rest, children)
        }),
    decreases document::children_in_all(old(doc).structure()), 0nat,
{
    let ghost nodes = doc.structure();
    let ghost before = doc.damage();
    let ghost rest = document::childless(nodes, id as int);
    proof {
        document::lemma_childless(nodes, id as int);
    }
    let children: Vec<usize> = doc.take_children(id);
    assert(document::connected(rest));
    let mut k: usize = 0;
    assert(children@.take(0) =~= Seq::empty());
    assert(doc.damage() =~= after_repairs(before, Set::empty()));
    assert(members(children@.take(0)) =~= Set::empty());
    assert(Set::<int>::empty().union(Set::<int>::empty()) =~= Set::<int>::empty());
    assert(found@ =~= old(found)@ + items_of(rest, children@.take(0)));
    while k < children.len()
        invariant
            k <= children.len(),
            id < nodes.len(),
            children@ == nodes[id as int].children,
            document::connected(nodes),
            document::connected(rest),
            rest == document::childless(nodes, id as int),
            doc.structure() == rest,
            document::children_in_all(nodes) == document::children_in_all(rest)
                + children@.len(),
            nodes == old(doc).structure(),
            doc.damage() == after_repairs(
                before,
                if clean {
                    repairs_of(rest, children@.take(k as int)).union(
                        members(children@.take(k as int)),
                    )
                } else {
                    repairs_of(rest, children@.take(k as int))
                },
            ),
            found@ == old(found)@ + items_of(rest, children@.take(k as int)),
        decreases children.len() - k,
    {
        let child: usize = children[k];
        assert(nodes[id as int].children[k as int] == child);
        let ghost seen = children@.take(k as int);
        let ghost now = children@.take(k + 1);
        assert(now.drop_last() =~= seen);
        assert(members(now) =~= members(seen).insert(child as int)) by {
            assert forall|i: int| members(now).contains(i) implies members(seen).insert(
                child as int,
            ).contains(i) by {
                let j = choose|j: int| 0 <= j < now.len() && #[trigger] now[j] == i;
                if j < k {
                    assert(seen[j] == i);
                }
            }
            assert forall|i: int| members(seen).insert(child as int).contains(
                i,
            ) implies members(now).contains(i) by {
                if i == child {
                    assert(now[k as int] == i);
                } else {
                    let j = choose|j: int| 0 <= j < seen.len() && #[trigger] seen[j] == i;
                    assert(now[j] == i);
                }
            }
        }
        if clean {
            doc.remove_damage(child);
        }
        collect_items(doc, child, found);
        k = k + 1;
        assert(doc.damage() =~= after_repairs(
            before,
            if clean {
                repairs_of(rest, now).union(members(now))
            } else {
                repairs_of(rest, now)
            },
        ));
        assert(found@ =~= old(found)@ + items_of(rest, now));
    }
    assert(children@.take(children.len() as int) =~= children@);
    doc.put_children(id, children);
    assert(doc.structure() =~= nodes);
}

}
