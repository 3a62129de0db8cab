//! Compiled expressions.
use vstd::prelude::*;

use crate::error::{bare_fault, fault, Fault, JsonataError};
use crate::parser::ast::{flags_at, AstArena, Node, NodeId};
use crate::parser::prepared::law_processing_a_tree;
use crate::parser::process::{acyclic, consistent, process_ast, processed, room_for};
use crate::parser::tree::law_parsed_is_a_tree;
use crate::parser::{parsed, readable, readings, Parser, Readings};

verus! {

/// An expression that was parsed and prepared for evaluation.
#[derive(Debug)]
pub struct Expression {
    pub arena: AstArena,
    pub root: NodeId,
}

/// What preparing a parsed source text gives: the nodes and the root, or an
/// error, which has no place.
pub open spec fn prepared(nodes: Seq<Node>, root: NodeId, room: nat) -> Result<(Seq<Node>, NodeId), Fault> {
    match processed(nodes, root, room) {
        Ok(p) => Ok(p),
        Err(code) => Err(bare_fault(code)),
    }
}

/// What compiling a source text gives: the nodes and the root, or an error.
/// Signatures are read as `reads` says.
pub open spec fn compiled(src: Seq<char>, reads: Readings) -> Result<(Seq<Node>, NodeId), Fault> {
    match parsed(src, reads) {
        Err(f) => Err(f),
        Ok((nodes, root)) => prepared(nodes, root, room_for(nodes.len())),
    }
}

/// However deep an expression is nested, processing has the room for it: more
/// would change nothing. What is compiled has no node that is part of itself,
/// and unless the source is empty its root is there.
pub proof fn law_compiled_is_a_tree(src: Seq<char>, reads: Readings, more: nat)
    requires
        parsed(src, reads) matches Ok((nodes, _)) ==> more >= room_for(nodes.len()),
    ensures
        parsed(src, reads) matches Ok((nodes, root)) ==> compiled(src, reads) == prepared(nodes, root, more),
        compiled(src, reads) matches Ok((nodes, root)) ==> acyclic(nodes) && (parsed(src, reads)->Ok_0.0.len() > 0 ==> root.index
            < nodes.len()),
{
    match parsed(src, reads) {
        Ok((nodes, root)) => {
            law_parsed_is_a_tree(src, reads);
            law_processing_a_tree(nodes, root, more);
        },
        Err(_) => {},
    }
}

impl Expression {
    /// Compile a source text, in which the evaluator reads the inside of
    /// signatures.
    pub fn compile<G: Fn(&str) -> Result<usize, JsonataError>>(src: &str, read: &G) -> (r: Result<Expression, JsonataError>)
        requires
            readable(*read),
        ensures
            match r {
                Ok(e) => {
                    &&& compiled(src@, readings(*read)) == Ok::<(Seq<Node>, NodeId), Fault>((e.arena.all(), e.root))
                    &&& consistent(e.arena.all(), e.arena.flags@)
                    &&& e.root.index < e.arena.all().len() ==> flags_at(e.arena.flags@, e.root) is Some
                },
                Err(e) => compiled(src@, readings(*read)) == Err::<(Seq<Node>, NodeId), Fault>(fault(e)),
            },
    {
        let (mut arena, root) = match Parser::parse(src, read) {
            Ok(p) => p,
            Err(e) => {
                return Err(e);
            },
        };
        proof {
            law_compiled_is_a_tree(src@, readings(*read), room_for(arena.all().len()));
        }
        match process_ast(&mut arena, root) {
            Ok(root) => Ok(Expression { arena, root }),
            Err(e) => Err(e),
        }
    }
}

} // verus!
