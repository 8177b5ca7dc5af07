use vstd::prelude::*;
use crate::program::{Instruction, Node, nodes, lemma_nodes_push};
use crate::tokenizer::is_token;

verus! {

/// The position where the run of `c` that starts at `i` ends.
pub open spec fn run_end(t: Seq<char>, i: int, c: char) -> int
    decreases t.len() - i,
{
    if 0 <= i < t.len() && t[i] == c {
        run_end(t, i + 1, c)
    } else {
        i
    }
}

proof fn lemma_run_end(t: Seq<char>, i: int, c: char)
    requires
        0 <= i <= t.len(),
    ensures
        i <= run_end(t, i, c) <= t.len(),
        i < t.len() && t[i] == c ==> i < run_end(t, i, c),
        run_end(t, i, c) < t.len() ==> t[run_end(t, i, c)] != c,
    decreases t.len() - i,
{
    if i < t.len() && t[i] == c {
        lemma_run_end(t, i + 1, c);
    }
}

/// The node for a run of `n` copies of the movement or arithmetic symbol `c`.
///
/// Pointer counts are kept whole; cell counts are taken modulo 256.
pub open spec fn run_node(c: char, n: int) -> Node {
    if c == '>' {
        Node::PtrInc(n as usize)
    } else if c == '<' {
        Node::PtrDec(n as usize)
    } else if c == '+' {
        Node::ValInc((n % 256) as u8)
    } else {
        Node::ValDec((n % 256) as u8)
    }
}

/// The first node that starts at position `i` (which holds neither `]` nor the
/// end of input), with the position after it.
pub open spec fn parse_item(t: Seq<char>, i: int) -> (Node, int)
    decreases t.len() - i, 0int,
{
    if !(0 <= i < t.len()) {
        (Node::GetCh, i)
    } else if t[i] == '[' {
        let inner = parse_from(t, i + 1);
        (Node::Block(inner.0), inner.1)
    } else if t[i] == ',' {
        (Node::GetCh, i + 1)
    } else if t[i] == '.' {
        (Node::PutCh, i + 1)
    } else {
        let e = run_end(t, i, t[i]);
        (run_node(t[i], e - i), e)
    }
}

/// The nodes parsed from position `i` up to the `]` that closes them (which is
/// consumed) or the end of input, with the position after them.
pub open spec fn parse_from(t: Seq<char>, i: int) -> (Seq<Node>, int)
    decreases t.len() - i, 1int,
{
    if !(0 <= i < t.len()) {
        (Seq::empty(), i)
    } else if t[i] == ']' {
        (Seq::empty(), i + 1)
    } else {
        let item = parse_item(t, i);
        if i < item.1 <= t.len() {
            let rest = parse_from(t, item.1);
            (seq![item.0] + rest.0, rest.1)
        } else {
            (seq![item.0], item.1)
        }
    }
}

/// The tree of a whole symbol sequence. A `]` with no open loop ends it.
pub open spec fn parse_spec(t: Seq<char>) -> Seq<Node> {
    parse_from(t, 0).0
}

proof fn lemma_run_end_uniform(t: Seq<char>, i: int, c: char)
    requires
        0 <= i <= t.len(),
        forall|k: int| 0 <= k < t.len() ==> t[k] == c,
    ensures
        run_end(t, i, c) == t.len(),
    decreases t.len() - i,
{
    if i < t.len() {
        lemma_run_end_uniform(t, i + 1, c);
    }
}

/// A run of `k >= 1` copies of one movement or arithmetic symbol parses to
/// exactly one instruction that carries the count `k` (a cell count modulo 256,
/// the width of a cell).
pub proof fn lemma_run_folds(c: char, k: nat)
    requires
        c == '>' || c == '<' || c == '+' || c == '-',
        1 <= k <= usize::MAX,
    ensures
        parse_spec(Seq::new(k, |_i: int| c)) == seq![run_node(c, k as int)],
        c == '>' ==> parse_spec(Seq::new(k, |_i: int| c)) == seq![Node::PtrInc(k as usize)],
        c == '<' ==> parse_spec(Seq::new(k, |_i: int| c)) == seq![Node::PtrDec(k as usize)],
        c == '+' && k < 256 ==> parse_spec(Seq::new(k, |_i: int| c)) == seq![
            Node::ValInc(k as u8),
        ],
        c == '-' && k < 256 ==> parse_spec(Seq::new(k, |_i: int| c)) == seq![
            Node::ValDec(k as u8),
        ],
{
    let t = Seq::new(k, |_i: int| c);
    lemma_run_end_uniform(t, 0, c);
    let item = parse_item(t, 0);
    assert(item == (run_node(c, k as int), k as int));
    assert(parse_from(t, k as int).0 =~= Seq::<Node>::empty());
    assert(parse_spec(t) =~= seq![run_node(c, k as int)]);
}

/// Whether two nodes come from runs of the same symbol.
pub open spec fn same_run(a: Node, b: Node) -> bool {
    ||| a is PtrInc && b is PtrInc
    ||| a is PtrDec && b is PtrDec
    ||| a is ValInc && b is ValInc
    ||| a is ValDec && b is ValDec
}

/// Whether no two neighbours of `s`, nor of any loop body inside it, come
/// from runs of the same symbol.
pub open spec fn folded(s: Seq<Node>) -> bool
    decreases s,
{
    if s.len() == 0 {
        true
    } else {
        &&& (s.len() > 1 ==> !same_run(s[0], s[1]))
        &&& node_folded(s[0])
        &&& folded(s.drop_first())
    }
}

/// Whether the loop bodies inside `n` are folded.
pub open spec fn node_folded(n: Node) -> bool
    decreases n,
{
    match n {
        Node::Block(body) => folded(body),
        _ => true,
    }
}

/// The first node parsed at `i` comes from a run of the symbol at `i`.
proof fn lemma_first_kind(t: Seq<char>, i: int)
    requires
        0 <= i <= t.len(),
        forall|k: int| 0 <= k < t.len() ==> is_token(#[trigger] t[k]),
    ensures
        parse_from(t, i).0.len() > 0 ==> {
            let f = parse_from(t, i).0[0];
            &&& f is PtrInc ==> t[i] == '>'
            &&& f is PtrDec ==> t[i] == '<'
            &&& f is ValInc ==> t[i] == '+'
            &&& f is ValDec ==> t[i] == '-'
        },
{
    if i < t.len() && t[i] != ']' {
        let item = parse_item(t, i);
        if i < item.1 <= t.len() {
            assert((seq![item.0] + parse_from(t, item.1).0)[0] == item.0);
        }
    }
}

proof fn lemma_parse_from_folded(t: Seq<char>, i: int)
    requires
        0 <= i <= t.len(),
        forall|k: int| 0 <= k < t.len() ==> is_token(#[trigger] t[k]),
    ensures
        folded(parse_from(t, i).0),
        i <= parse_from(t, i).1,
    decreases t.len() - i,
{
    if i < t.len() && t[i] != ']' {
        let c = t[i];
        let item = parse_item(t, i);
        if c == '[' {
            lemma_parse_from_folded(t, i + 1);
        } else if c != ',' && c != '.' {
            lemma_run_end(t, i, c);
        }
        assert(node_folded(item.0));
        if i < item.1 <= t.len() {
            let rest = parse_from(t, item.1);
            lemma_parse_from_folded(t, item.1);
            lemma_first_kind(t, item.1);
            let s = seq![item.0] + rest.0;
            assert(s[0] == item.0);
            assert(s.drop_first() =~= rest.0);
            if rest.0.len() > 0 {
                assert(s[1] == rest.0[0]);
                assert(item.1 < t.len());
                assert(!same_run(s[0], s[1]));
            }
            assert(folded(s.drop_first()));
            assert(folded(s));
        } else {
            assert(seq![item.0].drop_first() =~= Seq::<Node>::empty());
            assert(folded(Seq::<Node>::empty()));
        }
    }
}

/// Runs are folded greedily: in the tree of a symbol sequence, and in every
/// loop body inside it, no two neighbours are both pointer moves forward, both
/// back, both cell increments or both cell decrements.
pub proof fn lemma_parse_folded(t: Seq<char>)
    requires
        forall|k: int| 0 <= k < t.len() ==> is_token(#[trigger] t[k]),
    ensures
        folded(parse_spec(t)),
{
    lemma_parse_from_folded(t, 0);
}

/// The length of the run of identical symbols that starts at `start`.
fn count_ch(input: &[char], start: usize) -> (r: usize)
    requires
        start < input@.len(),
    ensures
        r == run_end(input@, start as int, input@[start as int]) - start,
        r >= 1,
        start + r <= input@.len(),
{
    let current = input[start];
    proof {
        lemma_run_end(input@, start as int, current);
    }
    let mut i: usize = start + 1;
    assert(run_end(input@, start as int, current) == run_end(input@, start + 1, current));
    while i < input.len() && input[i] == current
        invariant
            start < i <= input@.len(),
            run_end(input@, start as int, current) == run_end(input@, i as int, current),
        decreases input@.len() - i,
    {
        i = i + 1;
    }
    i - start
}

fn parse_expr(input: &[char], pos: usize) -> (r: (Vec<Instruction>, usize))
    requires
        pos <= input@.len(),
        forall|k: int| 0 <= k < input@.len() ==> is_token(#[trigger] input@[k]),
    ensures
        (nodes(r.0@), r.1 as int) == parse_from(input@, pos as int),
        pos <= r.1 <= input@.len(),
    decreases input@.len() - pos,
{
    let ghost t = input@;
    let mut instructions: Vec<Instruction> = Vec::new();
    let mut i: usize = pos;
    while i < input.len()
        invariant
            t == input@,
            pos <= i <= t.len(),
            forall|k: int| 0 <= k < t.len() ==> is_token(#[trigger] t[k]),
            parse_from(t, pos as int) == (
                nodes(instructions@) + parse_from(t, i as int).0,
                parse_from(t, i as int).1,
            ),
        decreases t.len() - i,
    {
        let token = input[i];
        if token == ']' {
            assert(nodes(instructions@) + Seq::<Node>::empty() =~= nodes(instructions@));
            return (instructions, i + 1);
        }
        let ghost item = parse_item(t, i as int);
        let (instr, next): (Instruction, usize) = if token == '[' {
            let (body, after) = parse_expr(input, i + 1);
            (Instruction::Block(body), after)
        } else if token == ',' {
            (Instruction::GetCh, i + 1)
        } else if token == '.' {
            (Instruction::PutCh, i + 1)
        } else {
            let n = count_ch(input, i);
            if token == '>' {
                (Instruction::PtrInc(n), i + n)
            } else if token == '<' {
                (Instruction::PtrDec(n), i + n)
            } else if token == '+' {
                (Instruction::ValInc((n % 256) as u8), i + n)
            } else {
                (Instruction::ValDec((n % 256) as u8), i + n)
            }
        };
        assert(instr@ == item.0 && next == item.1);
        proof {
            lemma_nodes_push(instructions@, instr);
            let rest = parse_from(t, next as int);
            assert(nodes(instructions@).push(instr@) + rest.0 =~= nodes(instructions@) + (seq![
                item.0,
            ] + rest.0));
        }
        instructions.push(instr);
        i = next;
    }
    assert(nodes(instructions@) + Seq::<Node>::empty() =~= nodes(instructions@));
    (instructions, i)
}

/// Builds the instruction tree of a symbol sequence.
///
/// Each run of identical `>`, `<`, `+` or `-` becomes one counted instruction;
/// `[` opens a loop that the matching `]` closes, and one left open at the end
/// of input is closed there.
pub fn parse(input: &[char]) -> (r: Vec<Instruction>)
    requires
        forall|k: int| 0 <= k < input@.len() ==> is_token(#[trigger] input@[k]),
    ensures
        nodes(r@) == parse_spec(input@),
{
    parse_expr(input, 0).0
}

} // verus!
