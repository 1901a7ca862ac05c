//! The tree printer: a depth-first pre-order walk that renders the tree as
//! indented lines, two spaces per depth level.
//!
//! An element with children at depth `d` renders its opening line
//! `<name key:value ...>`, its children at depth `d + 1`, and a closing line
//! `</name>`; an element without children — a self-closing tag always
//! parses to one — renders only the opening-style line; a text node renders
//! one line holding its literal data. Attribute values keep their quotes
//! verbatim.

use vstd::prelude::*;
use crate::dom::{
    children_view, lemma_children_view, node_view, Element, ElementV, Node, NodeType, NodeTypeV,
    NodeV,
};
use crate::scan::{push_all, vec_subrange};

verus! {

/// The indentation prefix at `depth`: two spaces per level.
pub open spec fn indent_spec(depth: nat) -> Seq<char> {
    Seq::new(2 * depth, |i: int| ' ')
}

/// The ` key:value` runs of the attribute pairs, in storage order.
pub open spec fn attrs_text(pairs: Seq<(Seq<char>, Seq<char>)>) -> Seq<char>
    decreases pairs.len(),
{
    if pairs.len() == 0 {
        Seq::empty()
    } else {
        attrs_text(pairs.drop_last()) + seq![' '] + pairs.last().0 + seq![':'] + pairs.last().1
    }
}

/// The opening line of an element at `depth`.
pub open spec fn open_line(e: ElementV, depth: nat) -> Seq<char> {
    indent_spec(depth) + seq!['<'] + e.tag_name + attrs_text(e.attributes) + seq!['>']
}

/// The closing line of an element at `depth`.
pub open spec fn close_line(e: ElementV, depth: nat) -> Seq<char> {
    indent_spec(depth) + seq!['<', '/'] + e.tag_name + seq!['>']
}

/// The lines of a node rendered at `depth`.
pub open spec fn render_node(n: NodeV, depth: nat) -> Seq<Seq<char>>
    decreases n, 0int,
{
    match n.node_type {
        NodeTypeV::Element(e) => if n.children.len() == 0 {
            seq![open_line(e, depth)]
        } else {
            seq![open_line(e, depth)] + render_from(n.children, 0, depth + 1)
                + seq![close_line(e, depth)]
        },
        NodeTypeV::Text(d) => seq![indent_spec(depth) + d],
    }
}

/// The lines of the nodes of `cs` from position `i` on, rendered in order
/// at `depth`.
pub open spec fn render_from(cs: Seq<NodeV>, i: int, depth: nat) -> Seq<Seq<char>>
    decreases cs, cs.len() - i,
{
    if i < 0 || i >= cs.len() {
        Seq::empty()
    } else {
        render_node(cs[i], depth) + render_from(cs, i + 1, depth)
    }
}

/// The height of a node: one more than its tallest child.
pub open spec fn heightv(n: NodeV) -> nat
    decreases n, 0int,
{
    1 + heightc(n.children, 0)
}

/// The largest height among the nodes of `cs` from position `i` on.
pub open spec fn heightc(cs: Seq<NodeV>, i: int) -> nat
    decreases cs, cs.len() - i,
{
    if i < 0 || i >= cs.len() {
        0
    } else if heightv(cs[i]) >= heightc(cs, i + 1) {
        heightv(cs[i])
    } else {
        heightc(cs, i + 1)
    }
}

/// Every listed node is at most as tall as the list's tallest.
proof fn lemma_heightc_ge(cs: Seq<NodeV>, i: int, k: int)
    requires
        0 <= i <= k < cs.len(),
    ensures
        heightc(cs, i) >= heightv(cs[k]),
    decreases k - i,
{
    if i < k {
        lemma_heightc_ge(cs, i + 1, k);
    }
}

/// The models of rendered lines.
pub open spec fn lines_view(l: Vec<Vec<char>>) -> Seq<Seq<char>> {
    Seq::new(l@.len(), |i: int| l@[i]@)
}

/// Renders the opening line of `tag` after the given indentation.
fn print_element(tag: &Element, indent: &Vec<char>) -> (line: Vec<char>)
    ensures
        line@ == indent@ + seq!['<'] + tag@.tag_name + attrs_text(tag@.attributes) + seq!['>'],
{
    let mut line = vec_subrange(indent, 0, indent.len());
    line.push('<');
    push_all(&mut line, &tag.tag_name);
    proof {
        assert(line@ =~= indent@ + seq!['<'] + tag@.tag_name + attrs_text(
            tag@.attributes.take(0),
        ));
    }
    let n = tag.attributes.len();
    let mut k: usize = 0;
    while k < n
        invariant
            k <= n == tag@.attributes.len(),
            line@ == indent@ + seq!['<'] + tag@.tag_name + attrs_text(
                tag@.attributes.take(k as int),
            ),
        decreases n - k,
    {
        let pair = tag.attributes.pair_at(k);
        line.push(' ');
        push_all(&mut line, &pair.0);
        line.push(':');
        push_all(&mut line, &pair.1);
        proof {
            let pairs = tag@.attributes;
            assert(pairs.take(k + 1).drop_last() =~= pairs.take(k as int));
            assert(pairs.take(k + 1).last() == pairs[k as int]);
            assert(line@ =~= indent@ + seq!['<'] + tag@.tag_name + attrs_text(
                pairs.take(k + 1),
            ));
        }
        k = k + 1;
    }
    line.push('>');
    proof {
        assert(tag@.attributes.take(tag@.attributes.len() as int) =~= tag@.attributes);
        assert(line@ =~= indent@ + seq!['<'] + tag@.tag_name + attrs_text(tag@.attributes)
            + seq!['>']);
    }
    line
}

/// Renders `node` after the given indentation, `depth` levels deep.
fn print_node_at(node: &Node, indent: &Vec<char>, Ghost(depth): Ghost<nat>) -> (lines: Vec<
    Vec<char>,
>)
    requires
        indent@ == indent_spec(depth),
    ensures
        lines_view(lines) == render_node(node_view(*node), depth),
    decreases heightv(node_view(*node)),
{
    match &node.node_type {
        NodeType::Element(e) => {
            let ghost nv = node_view(*node);
            let ghost ev = e@;
            let ghost cv = children_view(node.children@);
            proof {
                lemma_children_view(node.children@);
                assert(nv.children == cv);
            }
            let mut lines: Vec<Vec<char>> = Vec::new();
            let open = print_element(e, indent);
            proof {
                assert(open@ == open_line(ev, depth));
            }
            lines.push(open);
            proof {
                assert(lines_view(lines) =~= seq![open_line(ev, depth)]);
            }
            if node.children.len() == 0 {
                proof {
                    assert(nv.children.len() == 0);
                    assert(lines_view(lines) =~= render_node(nv, depth));
                }
                return lines;
            }
            let mut child_indent = vec_subrange(indent, 0, indent.len());
            child_indent.push(' ');
            child_indent.push(' ');
            proof {
                assert(child_indent@ =~= indent_spec(depth + 1));
            }
            let n = node.children.len();
            let mut k: usize = 0;
            while k < n
                invariant
                    k <= n == node.children@.len(),
                    cv == children_view(node.children@),
                    cv.len() == n,
                    nv == node_view(*node),
                    heightv(nv) == 1 + crate::printer::heightc(cv, 0),
                    child_indent@ == indent_spec(depth + 1),
                    lines_view(lines) + render_from(cv, k as int, depth + 1) == seq![
                        open_line(ev, depth),
                    ] + render_from(cv, 0, depth + 1),
                decreases n - k,
            {
                proof {
                    lemma_children_view(node.children@);
                    assert(cv[k as int] == node_view(node.children@[k as int]));
                    lemma_heightc_ge(cv, 0, k as int);
                }
                let ghost pre = lines_view(lines);
                let mut child_lines = print_node_at(&node.children[k], &child_indent, Ghost(
                    depth + 1,
                ));
                lines.append(&mut child_lines);
                proof {
                    assert(lines_view(lines) =~= pre + render_node(cv[k as int], depth + 1));
                    assert(lines_view(lines) + render_from(cv, k + 1, depth + 1) =~= seq![
                        open_line(ev, depth),
                    ] + render_from(cv, 0, depth + 1));
                }
                k = k + 1;
            }
            let mut close = vec_subrange(indent, 0, indent.len());
            close.push('<');
            close.push('/');
            push_all(&mut close, &e.tag_name);
            close.push('>');
            proof {
                assert(close@ =~= close_line(ev, depth));
            }
            let ghost pre = lines_view(lines);
            lines.push(close);
            proof {
                assert(render_from(cv, n as int, depth + 1) =~= Seq::<Seq<char>>::empty());
                assert(pre =~= seq![open_line(ev, depth)] + render_from(cv, 0, depth + 1));
                assert(lines_view(lines) =~= pre + seq![close_line(ev, depth)]);
                assert(lines_view(lines) =~= render_node(nv, depth));
            }
            lines
        },
        NodeType::Text(t) => {
            let mut line = vec_subrange(indent, 0, indent.len());
            push_all(&mut line, &t.data);
            let mut lines: Vec<Vec<char>> = Vec::new();
            lines.push(line);
            proof {
                assert(node_view(*node).node_type == NodeTypeV::Text(t.data@));
                assert(render_node(node_view(*node), depth) == seq![indent_spec(depth) + t.data@]);
                assert(line@ == indent_spec(depth) + t.data@);
                assert(lines_view(lines) =~= seq![indent_spec(depth) + t.data@]);
            }
            lines
        },
    }
}

/// Renders `node` and its subtree as indented lines, starting `depth`
/// levels deep.
pub fn print_node(node: &Node, depth: usize) -> (lines: Vec<Vec<char>>)
    ensures
        lines_view(lines) == render_node(node_view(*node), depth as nat),
{
    let mut indent: Vec<char> = Vec::new();
    let mut k: usize = 0;
    while k < depth
        invariant
            k <= depth,
            indent@ =~= indent_spec(k as nat),
        decreases depth - k,
    {
        indent.push(' ');
        indent.push(' ');
        proof {
            assert(indent@ =~= indent_spec((k + 1) as nat));
        }
        k = k + 1;
    }
    proof {
        assert(indent@ == indent_spec(depth as nat));
    }
    print_node_at(node, &indent, Ghost(depth as nat))
}

} // verus!
