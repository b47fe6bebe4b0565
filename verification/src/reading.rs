//! What is read of a document: the spans of cells, what nodes are to a table, the rows
//! and cells that they stand for, and the damage that reading repairs.

use vstd::prelude::*;

use crate::document;
use crate::document::{
    Damage, DisplayInside, DisplayOutside, Document, Node, NodeStyle, NodeView,
};
use crate::spans;
use crate::walk;
use crate::walk::{Item, Role};

verus! {

/// A cell spans the number of columns that its attribute says. It spans one where there
/// is no attribute, where it is no number and where that is zero.
pub proof fn law_colspan(text: Seq<char>)
    ensures
        spans::colspan(None) == 1,
        match spans::parsed(text) {
            Some(n) => (0 < n ==> spans::colspan(Some(text)) == n) && (n == 0 ==> spans::colspan(
                Some(text),
            ) == 1),
            None => spans::colspan(Some(text)) == 1,
        },
{
}

/// A cell spans the number of rows that its attribute says, but one at least and 65534 at
/// most. It spans one where there is no attribute and where it is no number.
pub proof fn law_rowspan(text: Seq<char>)
    ensures
        spans::rowspan(None) == 1,
        1 <= spans::rowspan(Some(text)) <= 65534,
        match spans::parsed(text) {
            Some(n) => (1 <= n <= 65534 ==> spans::rowspan(Some(text)) == n) && (n == 0
                ==> spans::rowspan(Some(text)) == 1) && (n == 65535 ==> spans::rowspan(Some(text))
                == 65534),
            None => spans::rowspan(Some(text)) == 1,
        },
{
}

/// A digit is a number, and another digit behind a number makes it ten times as much and
/// the digit more, as long as that fits 16 bits. Nothing, and a plus sign alone, are no
/// numbers.
pub proof fn law_digits(text: Seq<char>, c: char)
    requires
        '0' <= c <= '9',
    ensures
        spans::parsed(seq![c]) == Some((c as int - '0' as int) as u16),
        spans::parsed(seq!['+', c]) == Some((c as int - '0' as int) as u16),
        spans::parsed(Seq::empty()) is None,
        spans::parsed(seq!['+']) is None,
        match spans::parsed(text) {
            Some(n) => {
                let more = 10 * n + (c as int - '0' as int);
                spans::parsed(text.push(c)) == if more <= 65535 {
                    Some(more as u16)
                } else {
                    None
                }
            },
            None => true,
        },
{
    let one = seq![c];
    assert(one.drop_last() =~= Seq::empty());
    reveal_with_fuel(spans::digits_value, 2);
    assert(spans::all_digits(one));
    assert(seq!['+', c].skip(1) =~= one);
    assert(seq!['+'].skip(1) =~= Seq::empty());
    let longer = text.push(c);
    if spans::parsed(text) is Some {
        let digits = if text.len() > 0 && text[0] == '+' {
            text.skip(1)
        } else {
            text
        };
        assert(text.len() > 0);
        assert(longer[0] == text[0]);
        if text[0] == '+' {
            assert(longer.skip(1) =~= digits.push(c));
        }
        assert(digits.push(c).drop_last() =~= digits);
        lemma_digits(digits);
        assert(spans::digits_value(digits.push(c)) == 10 * spans::digits_value(digits)
            + spans::digit(c));
        assert forall|i: int| 0 <= i < digits.push(c).len() implies '0' as int
            <= #[trigger] digits.push(c)[i] as int <= '9' as int by {
            if i < digits.len() {
                assert('0' as int <= digits[i] as int <= '9' as int);
            }
        }
    }
}

proof fn lemma_digits(text: Seq<char>)
    requires
        spans::all_digits(text),
    ensures
        0 <= spans::digits_value(text),
    decreases text.len(),
{
    if text.len() > 0 {
        let rest = text.drop_last();
        assert forall|i: int| 0 <= i < rest.len() implies '0' as int <= #[trigger] rest[i] as int
            <= '9' as int by {
            assert('0' as int <= text[i] as int <= '9' as int);
        }
        assert(text[text.len() - 1] == text.last());
        lemma_digits(rest);
    }
}

/// A text in which something else than a digit stands, but for a plus sign in front, is no
/// number.
pub proof fn law_no_digits(text: Seq<char>, i: int)
    requires
        0 <= i < text.len(),
        !('0' <= text[i] <= '9'),
        i > 0 || text[0] != '+',
    ensures
        spans::parsed(text) is None,
{
    if text[0] == '+' {
        assert(text.skip(1)[i - 1] == text[i]);
    }
}

/// What a node says is all that is read of it.
pub proof fn law_node(node: Node)
    ensures
        node@.element == node.element,
        node@.style == node.style,
        node@.children == node.children@,
        match node.colspan {
            Some(text) => node@.colspan == Some(text@),
            None => node@.colspan is None,
        },
        match node.rowspan {
            Some(text) => node@.rowspan == Some(text@),
            None => node@.rowspan is None,
        },
{
}

/// A document has all of its nodes and their damage.
pub proof fn law_document(doc: Document, k: int)
    ensures
        doc.structure().len() == doc.nodes@.len(),
        doc.damage().len() == doc.nodes@.len(),
        0 <= k < doc.nodes@.len() ==> doc.structure()[k] == doc.nodes@[k]@ && doc.damage()[k]
            == doc.nodes@[k].damage,
{
}

/// One node has other children, or none, and all else in the document is as it was.
pub proof fn law_children(nodes: Seq<NodeView>, id: int, children: Seq<usize>)
    requires
        0 <= id < nodes.len(),
    ensures
        ({
            let now = document::with_children(nodes, id, children);
            let rest = document::childless(nodes, id);
            &&& now.len() == nodes.len()
            &&& rest.len() == nodes.len()
            &&& now[id].children == children
            &&& rest[id].children.len() == 0
            &&& (NodeView { children: nodes[id].children, ..now[id] }) == nodes[id]
            &&& (NodeView { children: nodes[id].children, ..rest[id] }) == nodes[id]
            &&& forall|k: int|
                0 <= k < nodes.len() && k != id ==> now[k] == nodes[k] && #[trigger] rest[k]
                    == nodes[k]
        }),
{
}

/// What a node with the given style is to a table.
pub proof fn law_role(style: NodeStyle)
    ensures
        ({
            let role = walk::styled_role(style);
            if style.outside == DisplayOutside::Absent {
                role == Role::Ignored
            } else {
                &&& role == Role::Row <==> style.inside == DisplayInside::TableRow
                &&& role == Role::Cell <==> style.inside == DisplayInside::TableCell
                &&& role == Role::Group <==> {
                    ||| style.inside == DisplayInside::TableRowGroup
                    ||| style.inside == DisplayInside::TableHeaderGroup
                    ||| style.inside == DisplayInside::TableFooterGroup
                    ||| style.inside == DisplayInside::Contents
                }
                &&& role != Role::Foreign
            }
        }),
{
}

/// What is not an element, or has no style, stands for nothing and is not touched.
pub proof fn law_foreign(nodes: Seq<NodeView>, id: usize)
    requires
        id < nodes.len(),
        !nodes[id as int].element || nodes[id as int].style is None,
    ensures
        walk::items(nodes, id).len() == 0,
        forall|k: int| !walk::repairs(nodes, id).contains(k),
{
}

/// Whether a node is an element that makes a box which lays out its content as `inside`
/// says.
pub open spec fn displays(node: NodeView, inside: DisplayInside) -> bool {
    &&& node.element
    &&& match node.style {
        Some(style) => style.outside != DisplayOutside::Absent && style.inside == inside,
        None => false,
    }
}

/// A cell stands for itself, whatever it holds, and its damage stays.
pub proof fn law_cell(nodes: Seq<NodeView>, id: usize)
    requires
        id < nodes.len(),
        displays(nodes[id as int], DisplayInside::TableCell),
    ensures
        walk::items(nodes, id) == seq![Item::Cell(id)],
        forall|k: int| !walk::repairs(nodes, id).contains(k),
{
}

/// A row stands for itself and then for what its children stand for. Its damage is
/// repaired, and so is what reading its children repairs.
pub proof fn law_row(nodes: Seq<NodeView>, id: usize)
    requires
        id < nodes.len(),
        displays(nodes[id as int], DisplayInside::TableRow),
    ensures
        ({
            let children = nodes[id as int].children;
            let rest = document::childless(nodes, id as int);
            &&& walk::items(nodes, id) == seq![Item::Row(id)] + walk::items_of(rest, children)
            &&& forall|k: int|
                #[trigger] walk::repairs(nodes, id).contains(k) <==> k == id || walk::repairs_of(
                    rest,
                    children,
                ).contains(k)
        }),
{
    let children = nodes[id as int].children;
    let rest = document::childless(nodes, id as int);
    assert(walk::items(nodes, id) =~= seq![Item::Row(id)] + walk::items_of(rest, children));
    assert(children.len() == 0 ==> walk::repairs_of(rest, children) =~= Set::empty());
}

/// Groups of rows, headers, footers and elements without a box of their own stand for what
/// their children stand for. The damage of all children is repaired, and so is what
/// reading them repairs, but not their own.
pub proof fn law_group(nodes: Seq<NodeView>, id: usize)
    requires
        id < nodes.len(),
        displays(nodes[id as int], DisplayInside::TableRowGroup) || displays(
            nodes[id as int],
            DisplayInside::TableHeaderGroup,
        ) || displays(nodes[id as int], DisplayInside::TableFooterGroup) || displays(
            nodes[id as int],
            DisplayInside::Contents,
        ),
    ensures
        ({
            let children = nodes[id as int].children;
            let rest = document::childless(nodes, id as int);
            &&& walk::items(nodes, id) == walk::items_of(rest, children)
            &&& forall|k: int|
                0 <= k <= usize::MAX ==> (#[trigger] walk::repairs(nodes, id).contains(k)
                    <==> children.contains(k as usize) || walk::repairs_of(
                    rest,
                    children,
                ).contains(k))
        }),
{
    let children = nodes[id as int].children;
    let rest = document::childless(nodes, id as int);
    assert(walk::items(nodes, id) =~= walk::items_of(rest, children));
    assert forall|k: int| 0 <= k <= usize::MAX implies (walk::members(children).contains(k)
        <==> children.contains(k as usize)) by {
        if walk::members(children).contains(k) {
            let i = choose|i: int| 0 <= i < children.len() && #[trigger] children[i] == k;
            assert(children[i] == k as usize);
        }
        if children.contains(k as usize) {
            let i = choose|i: int| 0 <= i < children.len() && children[i] == k as usize;
            assert(children[i] == k);
        }
    }
    assert(children.len() == 0 ==> walk::repairs_of(rest, children) =~= Set::empty());
}

/// Elements that make no box, and those that are neither rows nor cells nor groups of
/// them, stand for nothing, whatever they hold. Their damage is repaired, and no other.
pub proof fn law_ignored(nodes: Seq<NodeView>, id: usize)
    requires
        id < nodes.len(),
        nodes[id as int].element,
        ({
            let style = nodes[id as int].style;
            style is Some && {
                ||| style->Some_0.outside == DisplayOutside::Absent
                ||| {
                    let inside = style->Some_0.inside;
                    &&& inside != DisplayInside::TableRow
                    &&& inside != DisplayInside::TableCell
                    &&& inside != DisplayInside::TableRowGroup
                    &&& inside != DisplayInside::TableHeaderGroup
                    &&& inside != DisplayInside::TableFooterGroup
                    &&& inside != DisplayInside::Contents
                }
            }
        }),
    ensures
        walk::items(nodes, id).len() == 0,
        forall|k: int| #[trigger] walk::repairs(nodes, id).contains(k) <==> k == id,
{
}

/// Nodes are read one after the other.
pub proof fn law_in_turn(nodes: Seq<NodeView>, ids: Seq<usize>, id: usize)
    ensures
        walk::items_of(nodes, Seq::empty()).len() == 0,
        walk::items_of(nodes, ids.push(id)) == walk::items_of(nodes, ids) + walk::items(nodes, id),
        forall|k: int|
            #[trigger] walk::repairs_of(nodes, ids.push(id)).contains(k) <==> walk::repairs_of(
                nodes,
                ids,
            ).contains(k) || walk::repairs(nodes, id).contains(k),
        forall|k: int| !walk::repairs_of(nodes, Seq::empty()).contains(k),
{
    assert(ids.push(id).drop_last() =~= ids);
}

/// Repairing takes the construction damage from the given nodes, and changes no other
/// damage.
pub proof fn law_repaired(damage: Seq<Damage>, which: Set<int>, k: int)
    requires
        0 <= k < damage.len(),
    ensures
        ({
            let after = walk::after_repairs(damage, which);
            &&& after.len() == damage.len()
            &&& after[k].other == damage[k].other
            &&& if which.contains(k) {
                !after[k].construct_box && !after[k].construct_fc && !after[k].construct_descendent
            } else {
                after[k] == damage[k]
            }
        }),
{
}

}
