use vstd::prelude::*;
use crate::parser::{parse, parse_spec};
use crate::tokenizer::{tokenize, is_token};

verus! {

/// One node of the instruction tree.
///
/// Runs of identical pointer or cell symbols are folded into one node that
/// carries the length of the run; a loop carries its body.
#[derive(Debug, PartialEq)]
pub enum Instruction {
    /// Move the cursor forward by the count.
    PtrInc(usize),
    /// Move the cursor back by the count.
    PtrDec(usize),
    /// Add the count to the current cell, modulo 256.
    ValInc(u8),
    /// Subtract the count from the current cell, modulo 256.
    ValDec(u8),
    /// Read one byte into the current cell.
    GetCh,
    /// Write the current cell as one byte.
    PutCh,
    /// Run the body while the current cell is nonzero.
    Block(Vec<Instruction>),
}

/// A value type of the module target.
#[derive(Debug, Clone, Copy, PartialEq, Eq)]
pub enum ValType {
    I32,
    I64,
}

/// Parameter and result types of a function.
#[derive(Debug)]
pub struct Signature {
    pub params: Vec<ValType>,
    pub results: Vec<ValType>,
}

/// What stands behind a declared function.
#[derive(Debug)]
pub enum FunctionBody {
    /// The host provides it.
    Import,
    /// The program defines it with this instruction tree.
    Body(Vec<Instruction>),
}

/// A declared function: its module (empty for a defined one), name,
/// signature and body.
#[derive(Debug)]
pub struct FunctionDecl {
    pub module: String,
    pub name: String,
    pub signature: Signature,
    pub body: FunctionBody,
}

/// The declared functions of one compilation unit, in declaration order,
/// which is also the order of their indices in the module.
pub struct Program {
    pub functions: Vec<FunctionDecl>,
}

impl Program {
    pub fn new() -> (r: Self)
        ensures
            r.functions@ == Seq::<FunctionDecl>::empty(),
    {
        Program { functions: Vec::new() }
    }

    /// Declares one more function, after those already there.
    pub fn add_function(&mut self, function: FunctionDecl)
        ensures
            final(self).functions@ == old(self).functions@.push(function),
    {
        self.functions.push(function);
    }
}

impl FunctionDecl {
    /// A function that the host provides as `module`.`name`, taking one `i32`
    /// and returning nothing.
    pub fn import(module: &str, name: &str) -> (r: Result<Self, String>)
        ensures
            r matches Ok(f) && f.module@ == module@ && f.name@ == name@
                && f.signature.params@ == seq![ValType::I32]
                && f.signature.results@ == Seq::<ValType>::empty()
                && f.body is Import,
    {
        let mut params: Vec<ValType> = Vec::new();
        params.push(ValType::I32);
        let signature = Signature { params, results: Vec::new() };
        Ok(FunctionDecl { module: module.to_owned(), name: name.to_owned(), signature, body: FunctionBody::Import })
    }

    /// A function named `name` defined by the program text `source`, taking
    /// nothing and returning its final cursor as one `i32`.
    pub fn from_source(name: &str, source: &str) -> (r: Self)
        ensures
            r.module@ == Seq::<char>::empty(),
            r.name@ == name@,
            r.signature.params@ == Seq::<ValType>::empty(),
            r.signature.results@ == seq![ValType::I32],
            r.body matches FunctionBody::Body(b) && nodes(b@) == parse_spec(
                source@.filter(|c: char| is_token(c)),
            ),
    {
        let tokens = tokenize(source);
        proof {
            let t = source@.filter(|c: char| is_token(c));
            broadcast use vstd::seq_lib::group_filter_ensures;
            assert forall|k: int| 0 <= k < t.len() implies is_token(#[trigger] t[k]) by {
                source@.lemma_filter_pred(|c: char| is_token(c), k);
            }
        }
        let body = FunctionBody::Body(parse(tokens.as_slice()));
        let mut results: Vec<ValType> = Vec::new();
        results.push(ValType::I32);
        let signature = Signature { params: Vec::new(), results };
        FunctionDecl { module: String::new(), name: name.to_owned(), signature, body }
    }
}

/// The mathematical form of an instruction tree: a loop body is a sequence.
pub enum Node {
    PtrInc(usize),
    PtrDec(usize),
    ValInc(u8),
    ValDec(u8),
    GetCh,
    PutCh,
    Block(Seq<Node>),
}

impl View for Instruction {
    type V = Node;

    open spec fn view(&self) -> Node
        decreases self,
    {
        match self {
            Instruction::PtrInc(n) => Node::PtrInc(*n),
            Instruction::PtrDec(n) => Node::PtrDec(*n),
            Instruction::ValInc(n) => Node::ValInc(*n),
            Instruction::ValDec(n) => Node::ValDec(*n),
            Instruction::GetCh => Node::GetCh,
            Instruction::PutCh => Node::PutCh,
            Instruction::Block(b) => Node::Block(nodes(b@)),
        }
    }
}

/// The trees of a sequence of instructions.
pub open spec fn nodes(s: Seq<Instruction>) -> Seq<Node>
    decreases s,
{
    if s.len() == 0 {
        Seq::empty()
    } else {
        nodes(s.drop_last()).push(s.last()@)
    }
}

/// Extending a sequence of instructions extends its trees.
pub proof fn lemma_nodes_push(s: Seq<Instruction>, x: Instruction)
    ensures
        nodes(s.push(x)) == nodes(s).push(x@),
{
    assert(s.push(x).drop_last() =~= s);
}

/// The trees of a sequence of instructions, element by element.
pub proof fn lemma_nodes_index(s: Seq<Instruction>)
    ensures
        nodes(s).len() == s.len(),
        forall|k: int| 0 <= k < s.len() ==> nodes(s)[k] == (#[trigger] s[k])@,
    decreases s.len(),
{
    if s.len() > 0 {
        let p = s.drop_last();
        lemma_nodes_index(p);
        assert(nodes(s) == nodes(p).push(s.last()@));
        assert forall|k: int| 0 <= k < s.len() implies nodes(s)[k] == (#[trigger] s[k])@ by {
            if k < s.len() - 1 {
                assert(p[k] == s[k]);
            }
        }
    }
}

} // verus!
