use vstd::prelude::*;
use super::ast::{
    lemma_nodes_view_drop_last, lemma_nodes_view_push, lemma_nodes_view_take, nodes_view, Ast,
    AstNode, Node,
};
use super::lexer::Token;

verus! {

/// Why a token sequence is no program.
#[derive(Copy, Clone, Debug, PartialEq, Eq, Structural)]
pub enum ParseError {
    /// The `[` at this place in the token sequence is never closed.
    UnmatchedOpen { position: usize },
    /// The `]` at this place in the token sequence closes nothing.
    UnmatchedClose { position: usize },
}

/// The one node that does what two adjacent nodes do, where there is one:
/// two modifications add up, two moves add up, and a modification after a
/// clearing changes the value that is set. All sums wrap around.
pub open spec fn fused(left: Node, right: Node) -> Option<Node> {
    match (left, right) {
        (Node::Modify(a), Node::Modify(b)) => Some(Node::Modify(a.wrapping_add(b))),
        (Node::Move(a), Node::Move(b)) => Some(Node::Move(a.wrapping_add(b))),
        (Node::SetCell(a), Node::Modify(b)) => Some(Node::SetCell(a.wrapping_add_signed(b))),
        _ => None,
    }
}

/// The list with one node more: fused into the last node where that can be,
/// appended otherwise.
pub open spec fn appended(acc: Seq<Node>, node: Node) -> Seq<Node> {
    if acc.len() > 0 {
        match fused(acc.last(), node) {
            Some(m) => acc.drop_last().push(m),
            None => acc.push(node),
        }
    } else {
        acc.push(node)
    }
}

/// A body that is one modification by an odd amount: the loop on it runs
/// until the cell is zero, whatever it held.
pub open spec fn is_clear(body: Seq<Node>) -> bool {
    body.len() == 1 && (body[0] matches Node::Modify(a) && a as int % 2 != 0)
}

/// The node for a token that is no bracket.
pub open spec fn simple_node(t: Token) -> Node {
    match t {
        Token::Plus => Node::Modify(1),
        Token::Minus => Node::Modify(-1i8),
        Token::Next => Node::Move(1),
        Token::Previous => Node::Move(-1isize),
        Token::Dot => Node::Output,
        _ => Node::Input,
    }
}

/// The node for a bracketed body: the clearing of the cell where the body is
/// the clear idiom, a loop otherwise.
pub open spec fn block_node(body: Seq<Node>) -> Node {
    if is_clear(body) {
        Node::SetCell(0)
    } else {
        Node::Loop(body)
    }
}

/// How far reading a list of nodes got.
pub struct Parsed {
    /// The nodes read, fused.
    pub nodes: Seq<Node>,
    /// The place of the next token to read.
    pub next: int,
    /// Whether the list ended with a `]`, rather than with the tokens.
    pub closed: bool,
    /// The first fault met.
    pub error: Option<ParseError>,
}

/// Reads nodes from the token at `pos` on, after the nodes `acc` of the same
/// list, up to the `]` that closes the list or to the end of the tokens.
pub open spec fn parse_block(t: Seq<Token>, pos: int, acc: Seq<Node>) -> Parsed
    decreases t.len() - pos,
{
    if pos < 0 || pos >= t.len() {
        Parsed { nodes: acc, next: pos, closed: false, error: None }
    } else {
        match t[pos] {
            Token::Close => Parsed { nodes: acc, next: pos + 1, closed: true, error: None },
            Token::Open => {
                let inner = parse_block(t, pos + 1, Seq::empty());
                if inner.error is Some {
                    inner
                } else if inner.closed && pos < inner.next <= t.len() {
                    parse_block(t, inner.next, appended(acc, block_node(inner.nodes)))
                } else {
                    Parsed {
                        nodes: acc,
                        next: pos,
                        closed: false,
                        error: Some(ParseError::UnmatchedOpen { position: pos as usize }),
                    }
                }
            },
            tok => parse_block(t, pos + 1, appended(acc, simple_node(tok))),
        }
    }
}

/// The syntax tree of a token sequence, or the fault in it.
pub open spec fn parsed(t: Seq<Token>) -> Result<Seq<Node>, ParseError> {
    let r = parse_block(t, 0, Seq::empty());
    match r.error {
        Some(e) => Err(e),
        None => if r.closed {
            Err(ParseError::UnmatchedClose { position: (r.next - 1) as usize })
        } else {
            Ok(r.nodes)
        },
    }
}

/// Reads a program. Adjacent nodes are fused as they are read, and the clear
/// idiom becomes the clearing of the cell.
pub fn parse(src: &[Token]) -> (r: Result<Ast, ParseError>)
    ensures
        match r {
            Ok(ast) => parsed(src@) == Ok::<Seq<Node>, ParseError>(ast@),
            Err(e) => parsed(src@) == Err::<Seq<Node>, ParseError>(e),
        },
{
    match parse_instructions(src, 0) {
        Err(e) => Err(e),
        Ok((body, next, closed)) => {
            if closed {
                Err(ParseError::UnmatchedClose { position: next - 1 })
            } else {
                Ok(Ast(body))
            }
        },
    }
}

fn parse_instructions(src: &[Token], start: usize) -> (r: Result<
    (Vec<AstNode>, usize, bool),
    ParseError,
>)
    requires
        start <= src.len(),
    ensures
        ({
            let p = parse_block(src@, start as int, Seq::empty());
            match r {
                Ok((nodes, next, closed)) => {
                    &&& p.error is None
                    &&& nodes_view(nodes@) == p.nodes
                    &&& next == p.next
                    &&& closed == p.closed
                    &&& start <= next <= src.len()
                    &&& closed ==> next > start
                },
                Err(e) => p.error == Some(e),
            }
        }),
    decreases src.len() - start, 1int,
{
    let mut i: Vec<AstNode> = Vec::new();
    let mut pos: usize = start;
    proof {
        assert(nodes_view(i@) =~= Seq::<Node>::empty());
    }
    loop
        invariant
            start <= pos <= src.len(),
            parse_block(src@, start as int, Seq::empty()) == parse_block(
                src@,
                pos as int,
                nodes_view(i@),
            ),
        decreases src.len() - pos,
    {
        match parse_instruction(src, pos) {
            Err(e) => {
                return Err(e);
            },
            Ok((None, next, closed)) => {
                return Ok((i, next, closed));
            },
            Ok((Some(node), next, _)) => {
                push_fused(&mut i, node);
                pos = next;
            },
        }
    }
}

fn parse_instruction(src: &[Token], pos: usize) -> (r: Result<
    (Option<AstNode>, usize, bool),
    ParseError,
>)
    requires
        pos <= src.len(),
    ensures
        match r {
            Ok((None, next, closed)) => {
                ||| pos == src.len() && !closed && next == pos
                ||| pos < src.len() && src[pos as int] == Token::Close && closed && next == pos + 1
            },
            Ok((Some(node), next, closed)) => {
                &&& !closed
                &&& pos < next <= src.len()
                &&& src[pos as int] != Token::Close
                &&& src[pos as int] == Token::Open ==> {
                    let inner = parse_block(src@, pos + 1, Seq::empty());
                    &&& inner.error is None
                    &&& inner.closed
                    &&& inner.next == next
                    &&& node@ == block_node(inner.nodes)
                }
                &&& src[pos as int] != Token::Open ==> next == pos + 1 && node@ == simple_node(
                    src[pos as int],
                )
            },
            Err(e) => {
                let inner = parse_block(src@, pos + 1, Seq::empty());
                &&& pos < src.len()
                &&& src[pos as int] == Token::Open
                &&& inner.error == Some(e) || (inner.error is None && !inner.closed && e
                    == ParseError::UnmatchedOpen { position: pos })
            },
        },
    decreases src.len() - pos, 0int,
{
    if pos >= src.len() {
        return Ok((None, pos, false));
    }
    let i = match src[pos] {
        Token::Plus => AstNode::Modify(1),
        Token::Minus => AstNode::Modify(-1),
        Token::Next => AstNode::Move(1),
        Token::Previous => AstNode::Move(-1),
        Token::Dot => AstNode::Output,
        Token::Comma => AstNode::Input,
        Token::Close => {
            return Ok((None, pos + 1, true));
        },
        Token::Open => {
            match parse_instructions(src, pos + 1) {
                Err(e) => {
                    return Err(e);
                },
                Ok((body, next, closed)) => {
                    if !closed {
                        return Err(ParseError::UnmatchedOpen { position: pos });
                    }
                    let node = if loop_is_clear(&body) {
                        AstNode::SetCell(0)
                    } else {
                        AstNode::Loop(body)
                    };
                    return Ok((Some(node), next, false));
                },
            }
        },
    };
    Ok((Some(i), pos + 1, false))
}

fn loop_is_clear(body: &Vec<AstNode>) -> (r: bool)
    ensures
        r == is_clear(nodes_view(body@)),
{
    if body.len() == 1 {
        proof {
            lemma_nodes_view_take(body@, 0);
        }
        match &body[0] {
            AstNode::Modify(a) => {
                let lifted: u8 = (*a as i16 + 128) as u8;
                lifted % 2 != 0
            },
            _ => false,
        }
    } else {
        false
    }
}

fn merge(left: &AstNode, right: &AstNode) -> (r: Option<AstNode>)
    ensures
        match r {
            Some(m) => fused(left@, right@) == Some(m@),
            None => fused(left@, right@) is None,
        },
{
    match (left, right) {
        (AstNode::Modify(a), AstNode::Modify(b)) => Some(AstNode::Modify(a.wrapping_add(*b))),
        (AstNode::Move(a), AstNode::Move(b)) => Some(AstNode::Move(a.wrapping_add(*b))),
        (AstNode::SetCell(a), AstNode::Modify(b)) => Some(
            AstNode::SetCell(a.wrapping_add_signed(*b)),
        ),
        _ => None,
    }
}

fn push_fused(items: &mut Vec<AstNode>, node: AstNode)
    ensures
        nodes_view(final(items)@) == appended(nodes_view(old(items)@), node@),
{
    let n = items.len();
    if n > 0 {
        proof {
            lemma_nodes_view_drop_last(items@);
        }
        match merge(&items[n - 1], &node) {
            Some(m) => {
                proof {
                    lemma_nodes_view_push(items@.drop_last(), m);
                }
                items.pop();
                items.push(m);
            },
            None => {
                proof {
                    lemma_nodes_view_push(items@, node);
                }
                items.push(node);
            },
        }
    } else {
        proof {
            lemma_nodes_view_push(items@, node);
        }
        items.push(node);
    }
}

} // verus!
