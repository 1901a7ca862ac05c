//! The tree builder: consumes the token stream in order, keeps an explicit
//! stack of open nodes anchored by a synthetic `root` element, and returns
//! one rooted tree.
//!
//! Transitions: an opening tag pushes a new element node; a closing tag pops
//! the finished node and attaches it as the last child of the node below,
//! and is accepted only when its name matches the node it closes; a
//! self-closing tag or a text run attaches a fresh leaf to the node on top.
//! Input that leaves tags open, or closes what is not open, fails with
//! `UnbalancedTagError`.

use vstd::prelude::*;
use crate::dom::{
    children_view, lemma_children_view, lemma_children_view_drop_last, lemma_children_view_push,
    lemma_nodes_wf, node_view, node_wf, AttrMap, Element, ElementV, Node, NodeType, NodeTypeV,
    NodeV,
};
use crate::errors::ParseError;
use crate::lexer::{lemma_next_token_bounds, next_token, next_token_spec, TokenV, TopLevelToken};
use crate::scan::chars_eq;
use vstd::std_specs::iter::IteratorSpec;

verus! {

broadcast use vstd::string::axiom_spec_iter, vstd::string::next_postcondition;

/// The synthetic root element: tag name `root`, no attributes.
pub open spec fn root_element_v() -> ElementV {
    ElementV { tag_name: seq!['r', 'o', 'o', 't'], attributes: Seq::empty() }
}

/// The synthetic root node anchoring the parse stack.
pub open spec fn root_node_v() -> NodeV {
    NodeV { node_type: NodeTypeV::Element(root_element_v()), children: Seq::empty() }
}

/// Whether a closing tag named `tag` closes the node `nv`.
pub open spec fn close_matches(nv: NodeV, tag: Seq<char>) -> bool {
    match nv.node_type {
        NodeTypeV::Element(le) => le.tag_name == tag,
        NodeTypeV::Text(_) => false,
    }
}

/// Attaches `child` as the last child of the node on top of `stack`.
pub open spec fn attach(stack: Seq<NodeV>, child: NodeV) -> Seq<NodeV> {
    stack.update(
        stack.len() - 1,
        NodeV {
            node_type: stack.last().node_type,
            children: stack.last().children.push(child),
        },
    )
}

/// The tree built from the tokens of `s` from position `i` on, starting
/// from the given stack of open nodes.
pub open spec fn build_spec(s: Seq<char>, i: int, stack: Seq<NodeV>) -> Result<NodeV, ParseError>
    decreases s.len() - i when 0 <= i <= s.len() && stack.len() >= 1
    via build_spec_decreases
{
    match next_token_spec(s, i) {
        Err(e) => Err(e),
        Ok(None) => if stack.len() == 1 {
            Ok(stack[0])
        } else {
            Err(ParseError::UnbalancedTagError)
        },
        Ok(Some((tok, j))) => match tok {
            TokenV::OpenTagStart(e) => build_spec(
                s,
                j,
                stack.push(NodeV { node_type: NodeTypeV::Element(e), children: Seq::empty() }),
            ),
            TokenV::OpenTagEnd(e) => {
                if stack.len() >= 2 && close_matches(stack.last(), e.tag_name) {
                    build_spec(s, j, attach(stack.drop_last(), stack.last()))
                } else {
                    Err(ParseError::UnbalancedTagError)
                }
            },
            TokenV::CloseTag(e) => build_spec(
                s,
                j,
                attach(stack, NodeV { node_type: NodeTypeV::Element(e), children: Seq::empty() }),
            ),
            TokenV::Text(d) => build_spec(
                s,
                j,
                attach(stack, NodeV { node_type: NodeTypeV::Text(d), children: Seq::empty() }),
            ),
        },
    }
}

#[via_fn]
proof fn build_spec_decreases(s: Seq<char>, i: int, stack: Seq<NodeV>) {
    lemma_next_token_bounds(s, i);
}

/// The tree parsed from the whole of `s`: the token stream folded over a
/// stack holding only the synthetic root.
pub open spec fn parse_spec(s: Seq<char>) -> Result<NodeV, ParseError> {
    build_spec(s, 0, seq![root_node_v()])
}

/// Law: empty input parses to the root node alone, with no children and no
/// error.
pub proof fn lemma_empty_input()
    ensures
        parse_spec(Seq::empty()) == Ok::<NodeV, ParseError>(root_node_v()),
{
    assert(parse_spec(Seq::empty()) == Ok::<NodeV, ParseError>(seq![root_node_v()][0]));
}

/// Law: a self-closing tag always attaches a leaf with zero children to the
/// node on top of the stack, whatever stood between its delimiters, and is
/// never pushed open.
pub proof fn lemma_self_closing_leaf(s: Seq<char>, i: int, stack: Seq<NodeV>, e: ElementV, j: int)
    requires
        0 <= i <= s.len(),
        stack.len() >= 1,
        next_token_spec(s, i) == Ok::<Option<(TokenV, int)>, ParseError>(
            Some((TokenV::CloseTag(e), j)),
        ),
    ensures
        ({
            let leaf = NodeV { node_type: NodeTypeV::Element(e), children: Seq::empty() };
            let st2 = attach(stack, leaf);
            &&& build_spec(s, i, stack) == build_spec(s, j, st2)
            &&& st2.len() == stack.len()
            &&& st2.last().children.last() == leaf
            &&& st2.last().children.last().children.len() == 0
        }),
{
    lemma_next_token_bounds(s, i);
    let leaf = NodeV { node_type: NodeTypeV::Element(e), children: Seq::empty() };
    let st2 = attach(stack, leaf);
    assert(st2.len() == stack.len());
    assert(st2.last() == NodeV {
        node_type: stack.last().node_type,
        children: stack.last().children.push(leaf),
    });
    assert(st2.last().children.last() == leaf);
    assert(build_spec(s, i, stack) == build_spec(s, j, st2));
}

/// Law: input holding one bare text run and no tags parses to the root with
/// a single text child carrying the full literal run.
pub proof fn lemma_bare_text(s: Seq<char>)
    requires
        s.len() > 0,
        forall|k: int| 0 <= k < s.len() ==> crate::scan::is_text_char(s[k]),
    ensures
        parse_spec(s) == Ok::<NodeV, ParseError>(NodeV {
            node_type: NodeTypeV::Element(crate::parser::root_element_v()),
            children: seq![NodeV { node_type: NodeTypeV::Text(s), children: Seq::empty() }],
        }),
{
    crate::scan::lemma_text_end_is(s, 0, s.len() as int);
    assert(s.subrange(0, s.len() as int) =~= s);
    let tok = TokenV::Text(s);
    assert(next_token_spec(s, 0) == Ok::<Option<(TokenV, int)>, ParseError>(
        Some((tok, s.len() as int)),
    ));
    let leaf = NodeV { node_type: NodeTypeV::Text(s), children: Seq::empty() };
    let st2 = attach(seq![root_node_v()], leaf);
    assert(build_spec(s, 0, seq![root_node_v()]) == build_spec(s, s.len() as int, st2));
    assert(next_token_spec(s, s.len() as int) == Ok::<Option<(TokenV, int)>, ParseError>(None));
    assert(st2.len() == 1);
    assert(build_spec(s, s.len() as int, st2) == Ok::<NodeV, ParseError>(st2[0]));
    assert(st2[0] =~~= NodeV {
        node_type: NodeTypeV::Element(root_element_v()),
        children: seq![leaf],
    });
}

/// Law: every tree the builder returns is well formed — every element in it
/// has a non-empty tag name and unique attribute keys — provided the stack
/// it starts from is.
pub proof fn lemma_build_wf(s: Seq<char>, i: int, stack: Seq<NodeV>)
    requires
        0 <= i <= s.len(),
        stack.len() >= 1,
        forall|k: int| 0 <= k < stack.len() ==> node_wf(stack[k]),
    ensures
        match build_spec(s, i, stack) {
            Ok(n) => node_wf(n),
            Err(e) => true,
        },
    decreases s.len() - i, 0int,
{
    lemma_next_token_bounds(s, i);
    crate::lexer::lemma_next_token_wf(s, i);
    match next_token_spec(s, i) {
        Err(e) => {},
        Ok(None) => {},
        Ok(Some((tok, j))) => {
            match tok {
                TokenV::OpenTagStart(e) => {
                    let leaf = NodeV { node_type: NodeTypeV::Element(e), children: Seq::empty() };
                    let st2 = stack.push(leaf);
                    assert(node_wf(leaf));
                    assert(forall|k: int| 0 <= k < st2.len() ==> node_wf(st2[k]));
                    lemma_build_wf(s, j, st2);
                },
                TokenV::OpenTagEnd(e) => {
                    if stack.len() >= 2 && close_matches(stack.last(), e.tag_name) {
                        let st1 = stack.drop_last();
                        let st2 = attach(st1, stack.last());
                        let top = st1.last();
                        let top2 = NodeV {
                            node_type: top.node_type,
                            children: top.children.push(stack.last()),
                        };
                        lemma_nodes_wf(top.children, 0);
                        lemma_nodes_wf(top2.children, 0);
                        assert(node_wf(top2));
                        assert(forall|k: int| 0 <= k < st2.len() ==> node_wf(st2[k]));
                        lemma_build_wf(s, j, st2);
                    }
                },
                TokenV::CloseTag(e) => {
                    let leaf = NodeV { node_type: NodeTypeV::Element(e), children: Seq::empty() };
                    lemma_attach_wf(s, j, stack, leaf);
                },
                TokenV::Text(d) => {
                    let leaf = NodeV { node_type: NodeTypeV::Text(d), children: Seq::empty() };
                    lemma_attach_wf(s, j, stack, leaf);
                },
            }
        },
    }
}

/// Attaching a well-formed leaf keeps the stack well formed, and the build
/// from there returns a well-formed tree.
proof fn lemma_attach_wf(s: Seq<char>, j: int, stack: Seq<NodeV>, leaf: NodeV)
    requires
        0 <= j <= s.len(),
        stack.len() >= 1,
        forall|k: int| 0 <= k < stack.len() ==> node_wf(stack[k]),
        node_wf(leaf),
    ensures
        match build_spec(s, j, attach(stack, leaf)) {
            Ok(n) => node_wf(n),
            Err(e) => true,
        },
    decreases s.len() - j, 1int,
{
    let st2 = attach(stack, leaf);
    let top = stack.last();
    let top2 = NodeV { node_type: top.node_type, children: top.children.push(leaf) };
    lemma_nodes_wf(top.children, 0);
    lemma_nodes_wf(top2.children, 0);
    assert(node_wf(top2));
    assert(forall|k: int| 0 <= k < st2.len() ==> node_wf(st2[k]));
    lemma_build_wf(s, j, st2);
}

/// Law: every tree a parse returns is well formed: each element has a
/// non-empty tag name and unique attribute keys.
pub proof fn lemma_parse_wf(s: Seq<char>)
    ensures
        match parse_spec(s) {
            Ok(n) => node_wf(n),
            Err(e) => true,
        },
{
    assert(node_wf(root_node_v()));
    assert(forall|k: int| 0 <= k < seq![root_node_v()].len() ==> node_wf(seq![root_node_v()][k]));
    lemma_build_wf(s, 0, seq![root_node_v()]);
}

/// Whether the closing tag named `tag` closes the node `n`.
fn close_tag_matches(n: &Node, tag: &Vec<char>) -> (r: bool)
    ensures
        r == close_matches(node_view(*n), tag@),
{
    match &n.node_type {
        NodeType::Element(le) => chars_eq(&le.tag_name, tag),
        NodeType::Text(_) => false,
    }
}

/// Attaches `child` as the last child of the node on top of `stack`.
fn attach_to_top(stack: &mut Vec<Node>, child: Node)
    requires
        old(stack)@.len() >= 1,
    ensures
        final(stack)@.len() == old(stack)@.len(),
        children_view(final(stack)@) == attach(children_view(old(stack)@), node_view(child)),
{
    let ghost old_stack = stack@;
    let ghost cv = node_view(child);
    let mut top = stack.pop().unwrap();
    let ghost old_top = top;
    top.children.push(child);
    proof {
        lemma_children_view_push(old_top.children@, child);
        assert(node_view(top) == NodeV {
            node_type: node_view(old_top).node_type,
            children: node_view(old_top).children.push(cv),
        });
    }
    stack.push(top);
    proof {
        lemma_children_view_push(old_stack.drop_last(), top);
        lemma_children_view_drop_last(old_stack);
        lemma_children_view(old_stack);
        assert(children_view(stack@) =~= attach(children_view(old_stack), cv));
    }
}

/// Parses a whole character sequence into its document tree, or fails with
/// the first error met.
pub fn parse_chars(s: &Vec<char>) -> (r: Result<Node, ParseError>)
    ensures
        match r {
            Ok(n) => parse_spec(s@) == Ok::<NodeV, ParseError>(node_view(n)),
            Err(e) => parse_spec(s@) == Err::<NodeV, ParseError>(e),
        },
{
    let root_tag: Vec<char> = vec!['r', 'o', 'o', 't'];
    proof {
        assert(root_tag@ =~= seq!['r', 'o', 'o', 't']);
    }
    let root = Node {
        node_type: NodeType::Element(
            Element { tag_name: root_tag, attributes: AttrMap::new() },
        ),
        children: Vec::new(),
    };
    let mut stack: Vec<Node> = Vec::new();
    proof {
        assert(node_view(root) == root_node_v());
    }
    stack.push(root);
    proof {
        lemma_children_view(stack@);
        assert(children_view(stack@) =~= seq![root_node_v()]);
    }
    let mut i: usize = 0;
    loop
        invariant
            i <= s@.len(),
            stack@.len() >= 1,
            build_spec(s@, i as int, children_view(stack@)) == parse_spec(s@),
        decreases s@.len() - i,
    {
        let ghost old_sv = children_view(stack@);
        proof {
            lemma_children_view(stack@);
        }
        match next_token(s, i) {
            Err(e) => {
                return Err(e);
            },
            Ok(None) => {
                if stack.len() == 1 {
                    let n = stack.pop().unwrap();
                    proof {
                        assert(old_sv[0] == node_view(n));
                    }
                    return Ok(n);
                } else {
                    return Err(ParseError::UnbalancedTagError);
                }
            },
            Ok(Some((tok, j))) => {
                match tok {
                    TopLevelToken::OpenTagStart(e) => {
                        let ghost ev = e@;
                        let node = Node { node_type: NodeType::Element(e), children: Vec::new() };
                        let ghost nv = NodeV {
                            node_type: NodeTypeV::Element(ev),
                            children: Seq::empty(),
                        };
                        proof {
                            assert(node_view(node) == nv);
                            lemma_children_view_push(stack@, node);
                        }
                        stack.push(node);
                        proof {
                            assert(children_view(stack@) == old_sv.push(nv));
                            assert(build_spec(s@, j as int, children_view(stack@)) == parse_spec(
                                s@,
                            ));
                        }
                    },
                    TopLevelToken::OpenTagEnd(e) => {
                        if stack.len() < 2 {
                            return Err(ParseError::UnbalancedTagError);
                        }
                        let matches = close_tag_matches(&stack[stack.len() - 1], &e.tag_name);
                        proof {
                            assert(old_sv.last() == node_view(stack@.last()));
                        }
                        if !matches {
                            return Err(ParseError::UnbalancedTagError);
                        }
                        let ghost pre = stack@;
                        let done = stack.pop().unwrap();
                        proof {
                            lemma_children_view_drop_last(pre);
                        }
                        attach_to_top(&mut stack, done);
                        proof {
                            assert(children_view(stack@) == attach(
                                old_sv.drop_last(),
                                old_sv.last(),
                            ));
                            assert(build_spec(s@, j as int, children_view(stack@)) == parse_spec(
                                s@,
                            ));
                        }
                    },
                    TopLevelToken::CloseTag(e) => {
                        let ghost ev = e@;
                        let node = Node { node_type: NodeType::Element(e), children: Vec::new() };
                        let ghost nv = NodeV {
                            node_type: NodeTypeV::Element(ev),
                            children: Seq::empty(),
                        };
                        proof {
                            assert(node_view(node) == nv);
                        }
                        attach_to_top(&mut stack, node);
                        proof {
                            assert(children_view(stack@) == attach(old_sv, nv));
                            assert(build_spec(s@, j as int, children_view(stack@)) == parse_spec(
                                s@,
                            ));
                        }
                    },
                    TopLevelToken::Text(t) => {
                        let ghost dv = t.data@;
                        let node = Node { node_type: NodeType::Text(t), children: Vec::new() };
                        let ghost nv = NodeV { node_type: NodeTypeV::Text(dv), children: Seq::empty() };
                        proof {
                            assert(node_view(node) == nv);
                        }
                        attach_to_top(&mut stack, node);
                        proof {
                            assert(children_view(stack@) == attach(old_sv, nv));
                            assert(build_spec(s@, j as int, children_view(stack@)) == parse_spec(
                                s@,
                            ));
                        }
                    },
                }
                i = j;
            },
        }
    }
}

/// Collects the characters of a string slice.
pub fn chars_of(s: &str) -> (v: Vec<char>)
    ensures
        v@ == s@,
{
    let mut it = s.chars();
    let mut v: Vec<char> = Vec::new();
    proof {
        assert(v@ =~= s@.take(0));
        assert(it.remaining() =~= s@.skip(0));
    }
    loop
        invariant
            it.obeys_prophetic_iter_laws(),
            v@.len() <= s@.len(),
            v@ == s@.take(v@.len() as int),
            it.remaining() == s@.skip(v@.len() as int),
        decreases s@.len() - v@.len(),
    {
        let ghost n = v@.len() as int;
        match it.next() {
            Some(c) => {
                v.push(c);
                proof {
                    assert(c == s@[n]);
                    assert(v@ =~= s@.take(n + 1));
                    assert(it.remaining() =~= s@.skip(n + 1));
                }
            },
            None => {
                proof {
                    assert(s@.skip(n).len() == 0);
                    assert(v@ =~= s@);
                }
                return v;
            },
        }
    }
}

/// Parses a markup string into its document tree: a `root` element whose
/// children are the top-level parsed nodes, or the first error met.
pub fn dom_parser(input: &str) -> (r: Result<Node, ParseError>)
    ensures
        match r {
            Ok(n) => parse_spec(input@) == Ok::<NodeV, ParseError>(node_view(n)),
            Err(e) => parse_spec(input@) == Err::<NodeV, ParseError>(e),
        },
{
    let v = chars_of(input);
    parse_chars(&v)
}

} // verus!
