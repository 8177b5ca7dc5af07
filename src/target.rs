use vstd::prelude::*;
use crate::program::Node;
use crate::compiler::{lower, lower_seq, const_of, reads, reads_any};
use crate::interpreter::{EvalError, Tape, initial_tape, apply, run_one, run_seq, run_loop, MEMORY_SIZE};
use vstd::arithmetic::div_mod::{lemma_mod_mod, lemma_add_mod_noop, lemma_add_mod_noop_right, lemma_sub_mod_noop, lemma_sub_mod_noop_right, lemma_small_mod};
use crate::wasm::WasmOp;

verus! {

/// Emitted code with its block structure made explicit: each `loop` or `if`
/// holds the instructions up to its matching `end`.
pub enum Code {
    Plain(WasmOp),
    Loop(Seq<Code>),
    If(Seq<Code>),
}

/// The instruction stream of one structured instruction.
pub open spec fn flatten(c: Code) -> Seq<WasmOp>
    decreases c,
{
    match c {
        Code::Plain(op) => seq![op],
        Code::Loop(body) => seq![WasmOp::Loop] + flatten_seq(body) + seq![WasmOp::End],
        Code::If(body) => seq![WasmOp::If] + flatten_seq(body) + seq![WasmOp::End],
    }
}

/// The instruction stream of a sequence of structured instructions.
pub open spec fn flatten_seq(s: Seq<Code>) -> Seq<WasmOp>
    decreases s,
{
    if s.len() == 0 {
        Seq::empty()
    } else {
        flatten(s[0]) + flatten_seq(s.drop_first())
    }
}

/// The structured code of a loop over `body`: test the current cell, and
/// where it is nonzero run the body and branch back.
pub open spec fn loop_code(body: Seq<Node>) -> Code
    decreases body, 1int,
{
    Code::Loop(
        seq![
            Code::Plain(WasmOp::LocalGet(0)),
            Code::Plain(WasmOp::I32Load8U),
            Code::If(tree_code_seq(body) + seq![Code::Plain(WasmOp::Br(1))]),
        ],
    )
}

/// The structured code of one tree.
pub open spec fn tree_code(n: Node) -> Seq<Code>
    decreases n, 0int,
{
    match n {
        Node::Block(body) => seq![loop_code(body)],
        _ => plain(lower(n)),
    }
}

/// Instructions that open no block, as structured code.
pub open spec fn plain(ops: Seq<WasmOp>) -> Seq<Code> {
    Seq::new(ops.len(), |i: int| Code::Plain(ops[i]))
}

/// The structured code of a sequence of trees.
pub open spec fn tree_code_seq(s: Seq<Node>) -> Seq<Code>
    decreases s, 0int,
{
    if s.len() == 0 {
        Seq::empty()
    } else {
        tree_code(s[0]) + tree_code_seq(s.drop_first())
    }
}

proof fn lemma_lower_seq_concat(a: Seq<Node>, b: Seq<Node>)
    ensures
        lower_seq(a + b) == lower_seq(a) + lower_seq(b),
    decreases b.len(),
{
    if b.len() == 0 {
        assert(a + b =~= a);
        assert(lower_seq(a) + lower_seq(b) =~= lower_seq(a));
    } else {
        assert((a + b).drop_last() =~= a + b.drop_last());
        lemma_lower_seq_concat(a, b.drop_last());
        assert(lower_seq(a) + lower_seq(b.drop_last()) + lower(b.last()) =~= lower_seq(a) + (
        lower_seq(b.drop_last()) + lower(b.last())));
    }
}

proof fn lemma_flatten_seq_concat(a: Seq<Code>, b: Seq<Code>)
    ensures
        flatten_seq(a + b) == flatten_seq(a) + flatten_seq(b),
    decreases a.len(),
{
    if a.len() == 0 {
        assert(a + b =~= b);
        assert(flatten_seq(a) + flatten_seq(b) =~= flatten_seq(b));
    } else {
        assert((a + b).drop_first() =~= a.drop_first() + b);
        lemma_flatten_seq_concat(a.drop_first(), b);
        assert(flatten(a[0]) + (flatten_seq(a.drop_first()) + flatten_seq(b)) =~= flatten(a[0])
            + flatten_seq(a.drop_first()) + flatten_seq(b));
    }
}

proof fn lemma_flatten_cons(c: Code, rest: Seq<Code>)
    ensures
        flatten_seq(seq![c] + rest) == flatten(c) + flatten_seq(rest),
        flatten_seq(seq![c]) == flatten(c),
{
    let s = seq![c] + rest;
    assert(s[0] == c);
    assert(s.drop_first() =~= rest);
    assert(seq![c].drop_first() =~= Seq::<Code>::empty());
    assert(seq![c].len() == 1 && seq![c][0] == c);
    assert(flatten_seq(Seq::<Code>::empty()) == Seq::<WasmOp>::empty());
    assert(flatten(c) + Seq::<WasmOp>::empty() =~= flatten(c));
}

proof fn lemma_flatten_plain(ops: Seq<WasmOp>)
    ensures
        flatten_seq(plain(ops)) == ops,
    decreases ops.len(),
{
    let p = plain(ops);
    if ops.len() == 0 {
        assert(p =~= Seq::<Code>::empty());
    } else {
        assert(p.len() == ops.len());
        assert(p[0] == Code::Plain(ops[0]));
        assert(flatten(p[0]) == seq![ops[0]]);
        assert(p.drop_first() =~= plain(ops.drop_first()));
        lemma_flatten_plain(ops.drop_first());
        assert(seq![ops[0]] + ops.drop_first() =~= ops);
    }
}

proof fn lemma_flatten_tree(n: Node)
    ensures
        flatten_seq(tree_code(n)) == lower(n),
    decreases n,
{
    match n {
        Node::Block(body) => {
            let tail = seq![Code::Plain(WasmOp::Br(1))];
            lemma_flatten_tree_seq(body);
            lemma_flatten_seq_concat(tree_code_seq(body), tail);
            lemma_flatten_cons(Code::Plain(WasmOp::Br(1)), Seq::empty());
            let iff = Code::If(tree_code_seq(body) + tail);
            let inner = seq![Code::Plain(WasmOp::LocalGet(0)), Code::Plain(WasmOp::I32Load8U), iff];
            lemma_flatten_cons(iff, Seq::empty());
            lemma_flatten_cons(Code::Plain(WasmOp::I32Load8U), seq![iff]);
            lemma_flatten_cons(Code::Plain(WasmOp::LocalGet(0)), seq![Code::Plain(WasmOp::I32Load8U), iff]);
            assert(seq![Code::Plain(WasmOp::I32Load8U)] + seq![iff] =~= seq![Code::Plain(WasmOp::I32Load8U), iff]);
            assert(seq![Code::Plain(WasmOp::LocalGet(0))] + seq![Code::Plain(WasmOp::I32Load8U), iff] =~= inner);
            assert(flatten_seq(inner) =~= seq![WasmOp::LocalGet(0), WasmOp::I32Load8U] + flatten(iff));
            assert(loop_code(body) == Code::Loop(inner));
            lemma_flatten_cons(Code::Loop(inner), Seq::empty());
            assert(flatten_seq(tree_code(n)) =~= lower(n));
        },
        _ => {
            lemma_flatten_plain(lower(n));
        },
    }
}

/// The structured code flattens to exactly the emitted instructions.
pub proof fn lemma_flatten_tree_seq(s: Seq<Node>)
    ensures
        flatten_seq(tree_code_seq(s)) == lower_seq(s),
    decreases s,
{
    if s.len() == 0 {
    } else {
        lemma_flatten_tree(s[0]);
        lemma_flatten_tree_seq(s.drop_first());
        lemma_flatten_seq_concat(tree_code(s[0]), tree_code_seq(s.drop_first()));
        lemma_lower_seq_concat(seq![s[0]], s.drop_first());
        assert(seq![s[0]] + s.drop_first() =~= s);
        assert(seq![s[0]].drop_last() =~= Seq::<Node>::empty());
        assert(seq![s[0]].last() == s[0]);
        assert(lower_seq(Seq::<Node>::empty()) == Seq::<WasmOp>::empty());
        assert(Seq::<WasmOp>::empty() + lower(s[0]) =~= lower(s[0]));
        assert(lower_seq(seq![s[0]]) =~= lower(s[0]));
    }
}

/// The stack machine while a function body runs: the operand stack, local 0,
/// linear memory, and the bytes handed to the host's function 0.
pub struct Machine {
    pub stack: Seq<u32>,
    pub local: u32,
    pub memory: Seq<u8>,
    pub output: Seq<u8>,
}

/// How running code ended: falling through, branching out of `depth` more
/// enclosing blocks, trapping, or out of fuel. Fuel left is carried along.
pub enum Flow {
    Next(Machine, nat),
    Branch(nat, Machine, nat),
    Trap,
    OutOfFuel,
}

/// An integer as a 32-bit machine word.
pub open spec fn wrap32(x: int) -> u32 {
    (x % 0x1_0000_0000) as u32
}

/// The effect of an instruction that opens no block and does not branch;
/// `None` is a trap. Function 0 is the host's, which keeps the low byte of
/// its argument.
pub open spec fn step(op: WasmOp, m: Machine) -> Option<Machine> {
    let n = m.stack.len() as int;
    match op {
        WasmOp::LocalGet(i) => if i == 0 {
            Some(Machine { stack: m.stack.push(m.local), ..m })
        } else {
            None
        },
        WasmOp::LocalSet(i) => if i == 0 && n >= 1 {
            Some(Machine { stack: m.stack.drop_last(), local: m.stack.last(), ..m })
        } else {
            None
        },
        WasmOp::I32Const(c) => Some(Machine { stack: m.stack.push(wrap32(c as int)), ..m }),
        WasmOp::I32Add => if n >= 2 {
            Some(Machine { stack: m.stack.subrange(0, n - 2).push(wrap32(m.stack[n - 2] + m.stack[n - 1])), ..m })
        } else {
            None
        },
        WasmOp::I32Sub => if n >= 2 {
            Some(Machine { stack: m.stack.subrange(0, n - 2).push(wrap32(m.stack[n - 2] - m.stack[n - 1])), ..m })
        } else {
            None
        },
        WasmOp::I32Load8U => if n >= 1 && m.stack[n - 1] < m.memory.len() {
            Some(Machine { stack: m.stack.drop_last().push(m.memory[m.stack[n - 1] as int] as u32), ..m })
        } else {
            None
        },
        WasmOp::I32Store8 => if n >= 2 && m.stack[n - 2] < m.memory.len() {
            Some(Machine {
                stack: m.stack.subrange(0, n - 2),
                memory: m.memory.update(m.stack[n - 2] as int, (m.stack[n - 1] % 256) as u8),
                ..m
            })
        } else {
            None
        },
        WasmOp::Call(f) => if f == 0 && n >= 1 {
            Some(Machine { stack: m.stack.drop_last(), output: m.output.push((m.stack[n - 1] % 256) as u8), ..m })
        } else {
            None
        },
        _ => None,
    }
}

/// Runs one structured instruction. A branch to a block unwinds the operand
/// stack to the block's entry; a branch back to a loop costs one unit of fuel.
pub open spec fn exec(c: Code, m: Machine, fuel: nat) -> Flow
    decreases fuel, c,
{
    match c {
        Code::Plain(op) => if op is Br {
            Flow::Branch(op->Br_0 as nat, m, fuel)
        } else {
            match step(op, m) {
                Some(m2) => Flow::Next(m2, fuel),
                None => Flow::Trap,
            }
        },
        Code::If(body) => if m.stack.len() == 0 {
            Flow::Trap
        } else {
            let m1 = Machine { stack: m.stack.drop_last(), ..m };
            if m.stack.last() == 0 {
                Flow::Next(m1, fuel)
            } else {
                match exec_seq(body, m1, fuel) {
                    Flow::Branch(d, m2, f2) => if d == 0 {
                        Flow::Next(Machine { stack: m1.stack, ..m2 }, f2)
                    } else {
                        Flow::Branch((d - 1) as nat, m2, f2)
                    },
                    other => other,
                }
            }
        },
        Code::Loop(body) => match exec_seq(body, m, fuel) {
            Flow::Branch(d, m2, f2) => if d == 0 {
                if f2 == 0 {
                    Flow::OutOfFuel
                } else if f2 <= fuel {
                    exec(Code::Loop(body), Machine { stack: m.stack, ..m2 }, (f2 - 1) as nat)
                } else {
                    Flow::Trap
                }
            } else {
                Flow::Branch((d - 1) as nat, m2, f2)
            },
            other => other,
        },
    }
}

/// Runs structured instructions in order until one does not fall through.
pub open spec fn exec_seq(s: Seq<Code>, m: Machine, fuel: nat) -> Flow
    decreases fuel, s,
{
    if s.len() == 0 {
        Flow::Next(m, fuel)
    } else {
        match exec(s[0], m, fuel) {
            Flow::Next(m1, f1) => if f1 <= fuel {
                exec_seq(s.drop_first(), m1, f1)
            } else {
                Flow::Next(m1, f1)
            },
            other => other,
        }
    }
}

/// The fuel a run leaves.
pub open spec fn fuel_left(r: Flow) -> nat {
    match r {
        Flow::Next(_, f) => f,
        Flow::Branch(_, _, f) => f,
        _ => 0,
    }
}

proof fn lemma_exec_mono(c: Code, m: Machine, fuel: nat)
    ensures
        fuel_left(exec(c, m, fuel)) <= fuel,
    decreases fuel, c,
{
    match c {
        Code::Plain(_) => {},
        Code::If(body) => {
            if m.stack.len() > 0 && m.stack.last() != 0 {
                lemma_exec_seq_mono(body, Machine { stack: m.stack.drop_last(), ..m }, fuel);
            }
        },
        Code::Loop(body) => {
            lemma_exec_seq_mono(body, m, fuel);
            match exec_seq(body, m, fuel) {
                Flow::Branch(d, m2, f2) => {
                    if d == 0 && f2 != 0 && f2 <= fuel {
                        lemma_exec_mono(Code::Loop(body), Machine { stack: m.stack, ..m2 }, (f2 - 1) as nat);
                    }
                },
                _ => {},
            }
        },
    }
}

proof fn lemma_exec_seq_mono(s: Seq<Code>, m: Machine, fuel: nat)
    ensures
        fuel_left(exec_seq(s, m, fuel)) <= fuel,
    decreases fuel, s,
{
    if s.len() > 0 {
        lemma_exec_mono(s[0], m, fuel);
        match exec(s[0], m, fuel) {
            Flow::Next(m1, f1) => {
                lemma_exec_seq_mono(s.drop_first(), m1, f1);
            },
            _ => {},
        }
    }
}

/// Running two pieces of code one after the other.
proof fn lemma_exec_seq_concat(a: Seq<Code>, b: Seq<Code>, m: Machine, fuel: nat)
    ensures
        exec_seq(a + b, m, fuel) == match exec_seq(a, m, fuel) {
            Flow::Next(m1, f1) => exec_seq(b, m1, f1),
            other => other,
        },
    decreases a.len(),
{
    if a.len() == 0 {
        assert(a + b =~= b);
    } else {
        assert((a + b)[0] == a[0]);
        assert((a + b).drop_first() =~= a.drop_first() + b);
        lemma_exec_mono(a[0], m, fuel);
        match exec(a[0], m, fuel) {
            Flow::Next(m1, f1) => {
                lemma_exec_seq_concat(a.drop_first(), b, m1, f1);
            },
            _ => {},
        }
    }
}

/// Runs instructions that open no block from position `i` on; `None` is a trap.
pub open spec fn run_plain(ops: Seq<WasmOp>, i: int, m: Machine) -> Option<Machine>
    decreases ops.len() - i,
{
    if i < 0 || i >= ops.len() {
        Some(m)
    } else {
        match step(ops[i], m) {
            Some(m1) => run_plain(ops, i + 1, m1),
            None => None,
        }
    }
}

proof fn lemma_exec_plain(ops: Seq<WasmOp>, i: int, m: Machine, fuel: nat)
    requires
        0 <= i <= ops.len(),
        forall|k: int| 0 <= k < ops.len() ==> !(#[trigger] ops[k] is Br),
    ensures
        exec_seq(plain(ops).skip(i), m, fuel) == match run_plain(ops, i, m) {
            Some(m2) => Flow::Next(m2, fuel),
            None => Flow::Trap,
        },
    decreases ops.len() - i,
{
    let p = plain(ops).skip(i);
    if i < ops.len() {
        assert(p[0] == Code::Plain(ops[i]));
        assert(!(ops[i] is Br));
        assert(exec(p[0], m, fuel) == match step(ops[i], m) {
            Some(m2) => Flow::Next(m2, fuel),
            None => Flow::Trap,
        });
        assert(p.drop_first() =~= plain(ops).skip(i + 1));
        match step(ops[i], m) {
            Some(m1) => {
                lemma_exec_plain(ops, i + 1, m1, fuel);
            },
            None => {},
        }
    } else {
        assert(p.len() == 0);
    }
}

/// The machine and the tape agree: same memory of the interpreter's size,
/// same bytes written, and the local is the cursor modulo the memory size.
pub open spec fn agrees(m: Machine, t: Tape) -> bool {
    &&& t.memory.len() == MEMORY_SIZE
    &&& 0 <= t.cursor < MEMORY_SIZE
    &&& m.memory == t.memory
    &&& m.output == t.output
    &&& m.local as int % (MEMORY_SIZE as int) == t.cursor
}

proof fn lemma_wrap32(x: int)
    ensures
        wrap32(x) as int == x % 0x1_0000_0000,
        wrap32(x) as int % 65536 == x % 65536,
        wrap32(x) as int % 256 == x % 256,
{
    lemma_mod_mod(x, 65536, 65536);
    lemma_mod_mod(x, 256, 0x100_0000);
}

proof fn lemma_const_of(k: int)
    requires
        0 <= k,
    ensures
        wrap32(const_of(k) as int) as int % 65536 == k % 65536,
{
    let m = k % 0x1_0000_0000;
    lemma_wrap32(const_of(k) as int);
    if m < 0x8000_0000 {
        assert(const_of(k) as int == m);
    } else {
        assert(const_of(k) as int == m - 0x1_0000_0000);
    }
    lemma_mod_mod(k, 65536, 65536);
    assert((m - 0x1_0000_0000) % 65536 == m % 65536) by {
        lemma_sub_mod_noop(m, 0x1_0000_0000, 65536);
    }
}

proof fn lemma_ptr_move(n: Node, m: Machine, t: Tape)
    requires
        n is PtrInc || n is PtrDec,
        agrees(m, t),
    ensures
        run_plain(lower(n), 0, m) matches Some(m2) && m2.stack == m.stack && agrees(m2, apply(n, t)),
{
    let ops = lower(n);
    let k: usize = if n is PtrInc { n->PtrInc_0 } else { n->PtrDec_0 };
    let len = MEMORY_SIZE as int;
    let local = m.local as int;
    let w = wrap32(const_of(k as int) as int);
    let m1 = Machine { stack: m.stack.push(m.local), ..m };
    let m2 = Machine { stack: m1.stack.push(w), ..m };
    let sum = if n is PtrInc { local + w } else { local - w };
    let r = wrap32(sum);
    let m3 = Machine { stack: m.stack.push(r), ..m };
    let m4 = Machine { stack: m.stack, local: r, ..m };
    assert(step(ops[0], m) == Some(m1));
    assert(step(ops[1], m1) == Some(m2));
    assert(m2.stack.subrange(0, m2.stack.len() - 2) =~= m.stack);
    assert(m2.stack[m2.stack.len() - 2] == m.local && m2.stack[m2.stack.len() - 1] == w);
    assert(step(ops[2], m2) == Some(m3));
    assert(m3.stack.drop_last() =~= m.stack);
    assert(step(ops[3], m3) == Some(m4));
    assert(run_plain(ops, 4, m4) == Some(m4));
    assert(run_plain(ops, 3, m3) == Some(m4));
    assert(run_plain(ops, 2, m2) == Some(m4));
    assert(run_plain(ops, 1, m1) == Some(m4));
    assert(run_plain(ops, 0, m) == Some(m4));
    lemma_const_of(k as int);
    lemma_wrap32(sum);
    lemma_small_mod(t.cursor as nat, len as nat);
    if n is PtrInc {
        lemma_add_mod_noop(local, w as int, len);
        lemma_add_mod_noop(t.cursor, k as int, len);
    } else {
        lemma_sub_mod_noop(local, w as int, len);
        lemma_sub_mod_noop(t.cursor, k as int, len);
    }
}

proof fn lemma_cell_inc(k: u8, m: Machine, t: Tape)
    requires
        agrees(m, t),
    ensures
        run_plain(lower(Node::ValInc(k)), 0, m) matches Some(m2) ==> m2.stack == m.stack && agrees(
            m2,
            apply(Node::ValInc(k), t),
        ),
{
    let n = Node::ValInc(k);
    let ops = lower(n);
    let len = MEMORY_SIZE as int;
    let local = m.local as int;
    let m1 = Machine { stack: m.stack.push(m.local), ..m };
    let m2 = Machine { stack: m1.stack.push(m.local), ..m };
    assert(step(ops[0], m) == Some(m1));
    assert(step(ops[1], m1) == Some(m2));
    if local < len {
        lemma_small_mod(local as nat, len as nat);
        let cell = m.memory[local];
        let m3 = Machine { stack: m1.stack.push(cell as u32), ..m };
        let m4 = Machine { stack: m3.stack.push(wrap32(k as int)), ..m };
        let sum = cell + k;
        let m5 = Machine { stack: m1.stack.push(wrap32(sum)), ..m };
        let m6 = Machine { stack: m.stack, memory: m.memory.update(local, (wrap32(sum) % 256) as u8), ..m };
        lemma_wrap32(k as int);
        lemma_wrap32(sum);
        assert(m2.stack.drop_last() =~= m1.stack);
        assert(step(ops[2], m2) == Some(m3));
        assert(step(ops[3], m3) == Some(m4));
        assert(m4.stack.subrange(0, m4.stack.len() - 2) =~= m1.stack);
        assert(step(ops[4], m4) == Some(m5));
        assert(m5.stack.subrange(0, m5.stack.len() - 2) =~= m.stack);
        assert(step(ops[5], m5) == Some(m6));
        assert(run_plain(ops, 6, m6) == Some(m6));
        assert(run_plain(ops, 5, m5) == Some(m6));
        assert(run_plain(ops, 4, m4) == Some(m6));
        assert(run_plain(ops, 3, m3) == Some(m6));
        assert(run_plain(ops, 2, m2) == Some(m6));
        assert(run_plain(ops, 1, m1) == Some(m6));
        assert(run_plain(ops, 0, m) == Some(m6));
        assert(apply(n, t).memory == m6.memory);
    } else {
        assert(step(ops[2], m2) is None);
        assert(run_plain(ops, 2, m2) is None);
        assert(run_plain(ops, 1, m1) is None);
        assert(run_plain(ops, 0, m) is None);
    }
}

proof fn lemma_cell_dec(k: u8, m: Machine, t: Tape)
    requires
        agrees(m, t),
    ensures
        run_plain(lower(Node::ValDec(k)), 0, m) matches Some(m2) ==> m2.stack == m.stack && agrees(
            m2,
            apply(Node::ValDec(k), t),
        ),
{
    let n = Node::ValDec(k);
    let ops = lower(n);
    let len = MEMORY_SIZE as int;
    let local = m.local as int;
    let m1 = Machine { stack: m.stack.push(m.local), ..m };
    let m2 = Machine { stack: m1.stack.push(m.local), ..m };
    assert(step(ops[0], m) == Some(m1));
    assert(step(ops[1], m1) == Some(m2));
    if local < len {
        lemma_small_mod(local as nat, len as nat);
        let cell = m.memory[local];
        let m3 = Machine { stack: m1.stack.push(cell as u32), ..m };
        let m4 = Machine { stack: m3.stack.push(wrap32(k as int)), ..m };
        let sum = cell - k;
        let m5 = Machine { stack: m1.stack.push(wrap32(sum)), ..m };
        let m6 = Machine { stack: m.stack, memory: m.memory.update(local, (wrap32(sum) % 256) as u8), ..m };
        lemma_wrap32(k as int);
        lemma_wrap32(sum);
        assert(m2.stack.drop_last() =~= m1.stack);
        assert(step(ops[2], m2) == Some(m3));
        assert(step(ops[3], m3) == Some(m4));
        assert(m4.stack.subrange(0, m4.stack.len() - 2) =~= m1.stack);
        assert(step(ops[4], m4) == Some(m5));
        assert(m5.stack.subrange(0, m5.stack.len() - 2) =~= m.stack);
        assert(step(ops[5], m5) == Some(m6));
        assert(run_plain(ops, 6, m6) == Some(m6));
        assert(run_plain(ops, 5, m5) == Some(m6));
        assert(run_plain(ops, 4, m4) == Some(m6));
        assert(run_plain(ops, 3, m3) == Some(m6));
        assert(run_plain(ops, 2, m2) == Some(m6));
        assert(run_plain(ops, 1, m1) == Some(m6));
        assert(run_plain(ops, 0, m) == Some(m6));
        assert(apply(n, t).memory == m6.memory);
    } else {
        assert(step(ops[2], m2) is None);
        assert(run_plain(ops, 2, m2) is None);
        assert(run_plain(ops, 1, m1) is None);
        assert(run_plain(ops, 0, m) is None);
    }
}

proof fn lemma_write(m: Machine, t: Tape)
    requires
        agrees(m, t),
    ensures
        run_plain(lower(Node::PutCh), 0, m) matches Some(m2) ==> m2.stack == m.stack && agrees(
            m2,
            apply(Node::PutCh, t),
        ),
{
    let ops = lower(Node::PutCh);
    let len = MEMORY_SIZE as int;
    let local = m.local as int;
    let m1 = Machine { stack: m.stack.push(m.local), ..m };
    assert(step(ops[0], m) == Some(m1));
    if local < len {
        lemma_small_mod(local as nat, len as nat);
        let cell = m.memory[local];
        let m2 = Machine { stack: m.stack.push(cell as u32), ..m };
        let m3 = Machine { output: m.output.push(cell), ..m };
        assert(m1.stack.drop_last() =~= m.stack);
        assert(step(ops[1], m1) == Some(m2));
        assert(m2.stack.drop_last() =~= m.stack);
        assert(step(ops[2], m2) == Some(m3));
        assert(run_plain(ops, 3, m3) == Some(m3));
        assert(run_plain(ops, 2, m2) == Some(m3));
        assert(run_plain(ops, 1, m1) == Some(m3));
        assert(run_plain(ops, 0, m) == Some(m3));
    } else {
        assert(step(ops[1], m1) is None);
        assert(run_plain(ops, 1, m1) is None);
        assert(run_plain(ops, 0, m) is None);
    }
}

proof fn lemma_exec_single(c: Code, m: Machine, fuel: nat)
    ensures
        exec_seq(seq![c], m, fuel) == exec(c, m, fuel),
{
    assert(seq![c][0] == c);
    assert(seq![c].drop_first() =~= Seq::<Code>::empty());
    lemma_exec_mono(c, m, fuel);
    let r = exec(c, m, fuel);
    if r is Next {
        assert(exec_seq(Seq::<Code>::empty(), r->Next_0, r->Next_1) == r);
    }
}

proof fn lemma_reads_any_cons(s: Seq<Node>)
    requires
        s.len() > 0,
    ensures
        reads_any(s) == (reads(s[0]) || reads_any(s.drop_first())),
    decreases s.len(),
{
    if s.len() == 1 {
        assert(s.drop_first() =~= Seq::<Node>::empty());
        assert(s.drop_last() =~= Seq::<Node>::empty());
    } else {
        lemma_reads_any_cons(s.drop_last());
        assert(s.drop_last().drop_first() =~= s.drop_first().drop_last());
        assert(s.drop_first().last() == s.last());
        assert(s.drop_last()[0] == s[0]);
    }
}

proof fn lemma_no_branch(n: Node)
    requires
        !(n is Block),
    ensures
        forall|k: int| 0 <= k < lower(n).len() ==> !(#[trigger] lower(n)[k] is Br),
{
    let ops = lower(n);
    assert forall|k: int| 0 <= k < ops.len() implies !(#[trigger] ops[k] is Br) by {
        assert(k == 0 || k == 1 || k == 2 || k == 3 || k == 4 || k == 5);
    }
}

/// What a run of the interpreter owes to a run `r` of the machine from `m`:
/// where the machine fell through with at least `d` units of fuel left, the
/// interpreter, started with `d` units less, succeeds on a tape that agrees
/// with the machine, with `d` units less left, and the operand stack is back
/// where it was.
pub open spec fn follows(r: Flow, m: Machine, res: Result<(Tape, nat), EvalError>, d: nat) -> bool {
    r is Next && d <= r->Next_1 ==> {
        &&& res is Ok
        &&& agrees(r->Next_0, res->Ok_0.0)
        &&& res->Ok_0.1 == r->Next_1 - d
        &&& r->Next_0.stack == m.stack
    }
}

proof fn lemma_sim_one(n: Node, t: Tape, m: Machine, fuel: nat, d: nat)
    requires
        !reads(n),
        agrees(m, t),
    ensures
        !(exec_seq(tree_code(n), m, fuel) is Branch),
        follows(exec_seq(tree_code(n), m, fuel), m, run_one(n, t, (fuel - d) as nat), d),
    decreases fuel, n, 0int,
{
    match n {
        Node::Block(body) => {
            let l = loop_code(body);
            assert(tree_code(n) == seq![l]);
            lemma_exec_single(l, m, fuel);
            lemma_sim_loop(body, t, m, fuel, d);
        },
        _ => {
            let ops = lower(n);
            lemma_no_branch(n);
            assert(plain(ops).skip(0) =~= plain(ops));
            lemma_exec_plain(ops, 0, m, fuel);
            match n {
                Node::PtrInc(_) => lemma_ptr_move(n, m, t),
                Node::PtrDec(_) => lemma_ptr_move(n, m, t),
                Node::ValInc(k) => lemma_cell_inc(k, m, t),
                Node::ValDec(k) => lemma_cell_dec(k, m, t),
                _ => lemma_write(m, t),
            }
        },
    }
}

proof fn lemma_sim_seq(s: Seq<Node>, t: Tape, m: Machine, fuel: nat, d: nat)
    requires
        !reads_any(s),
        agrees(m, t),
    ensures
        !(exec_seq(tree_code_seq(s), m, fuel) is Branch),
        follows(exec_seq(tree_code_seq(s), m, fuel), m, run_seq(s, t, (fuel - d) as nat), d),
    decreases fuel, s, 0int,
{
    if s.len() > 0 {
        lemma_reads_any_cons(s);
        let a = tree_code(s[0]);
        let b = tree_code_seq(s.drop_first());
        lemma_exec_seq_concat(a, b, m, fuel);
        lemma_sim_one(s[0], t, m, fuel, 0);
        lemma_exec_seq_mono(a, m, fuel);
        let r1 = exec_seq(a, m, fuel);
        if r1 is Next {
            let m1 = r1->Next_0;
            let f1 = r1->Next_1;
            let t1 = run_one(s[0], t, fuel)->Ok_0.0;
            lemma_sim_seq(s.drop_first(), t1, m1, f1, 0);
            lemma_exec_seq_mono(b, m1, f1);
            let r = exec_seq(b, m1, f1);
            if r is Next && d <= r->Next_1 {
                lemma_sim_one(s[0], t, m, fuel, d);
                lemma_sim_seq(s.drop_first(), t1, m1, f1, d);
                let t1d = run_one(s[0], t, (fuel - d) as nat)->Ok_0.0;
                assert(t1d == t1);
            }
        }
    }
}

proof fn lemma_sim_loop(body: Seq<Node>, t: Tape, m: Machine, fuel: nat, d: nat)
    requires
        !reads_any(body),
        agrees(m, t),
    ensures
        !(exec(loop_code(body), m, fuel) is Branch),
        follows(exec(loop_code(body), m, fuel), m, run_loop(body, t, (fuel - d) as nat), d),
    decreases fuel, body, 1int,
{
    let len = MEMORY_SIZE as int;
    let local = m.local as int;
    let lg = Code::Plain(WasmOp::LocalGet(0));
    let ld = Code::Plain(WasmOp::I32Load8U);
    let bb = tree_code_seq(body) + seq![Code::Plain(WasmOp::Br(1))];
    let iff = Code::If(bb);
    let inner = seq![lg, ld, iff];
    assert(loop_code(body) == Code::Loop(inner));
    let head = seq![WasmOp::LocalGet(0), WasmOp::I32Load8U];
    assert(inner =~= plain(head) + seq![iff]);
    assert(plain(head).skip(0) =~= plain(head));
    assert forall|k: int| 0 <= k < head.len() implies !(#[trigger] head[k] is Br) by {
        assert(k == 0 || k == 1);
    }
    lemma_exec_plain(head, 0, m, fuel);
    lemma_exec_seq_concat(plain(head), seq![iff], m, fuel);
    let m1 = Machine { stack: m.stack.push(m.local), ..m };
    assert(step(head[0], m) == Some(m1));
    if local < len {
        lemma_small_mod(local as nat, len as nat);
        let cell = m.memory[local];
        let mc = Machine { stack: m.stack.push(cell as u32), ..m };
        assert(m1.stack.drop_last() =~= m.stack);
        assert(step(head[1], m1) == Some(mc));
        assert(run_plain(head, 2, mc) == Some(mc));
        assert(run_plain(head, 0, m) == Some(mc));
        let mb = Machine { stack: m.stack, ..m };
        assert(mc.stack.drop_last() =~= m.stack);
        assert(mb == m);
        lemma_exec_single(iff, mc, fuel);
        if cell == 0 {
            assert(exec(iff, mc, fuel) == Flow::Next(m, fuel));
        } else {
            lemma_exec_seq_concat(tree_code_seq(body), seq![Code::Plain(WasmOp::Br(1))], m, fuel);
            lemma_sim_seq(body, t, m, fuel, 0);
            lemma_exec_seq_mono(tree_code_seq(body), m, fuel);
            let rb = exec_seq(tree_code_seq(body), m, fuel);
            if rb is Next {
                let m2 = rb->Next_0;
                let f2 = rb->Next_1;
                let t2 = run_seq(body, t, fuel)->Ok_0.0;
                let br = Code::Plain(WasmOp::Br(1));
                lemma_exec_single(br, m2, f2);
                assert(exec(br, m2, f2) == Flow::Branch(1, m2, f2));
                assert(exec_seq(bb, m, fuel) == Flow::Branch(1, m2, f2));
                assert(exec(iff, mc, fuel) == Flow::Branch(0, m2, f2));
                if f2 > 0 {
                    let m2b = Machine { stack: m.stack, ..m2 };
                    lemma_sim_loop(body, t2, m2b, (f2 - 1) as nat, d);
                    lemma_exec_mono(loop_code(body), m2b, (f2 - 1) as nat);
                    let r = exec(loop_code(body), m2b, (f2 - 1) as nat);
                    assert(exec(loop_code(body), m, fuel) == r);
                    if r is Next && d <= r->Next_1 {
                        lemma_sim_seq(body, t, m, fuel, d + 1);
                        let t2d = run_seq(body, t, (fuel - (d + 1)) as nat)->Ok_0.0;
                        assert(t2d == t2);
                    }
                }
            }
        }
    } else {
        assert(step(head[1], m1) is None);
        assert(run_plain(head, 1, m1) is None);
    }
}

/// A run starts in agreement: the host's zeroed page with local 0 and an empty
/// stack agrees with the interpreter's initial tape.
pub proof fn lemma_initial_agree()
    ensures
        agrees(
            Machine {
                stack: Seq::empty(),
                local: 0,
                memory: initial_tape(MEMORY_SIZE as nat).memory,
                output: Seq::empty(),
            },
            initial_tape(MEMORY_SIZE as nat),
        ),
{
}

/// The generated code runs as the interpreter does. Where the structured
/// form of the code of a read-free program, whose instruction stream is the
/// emitted one, runs to its end on a machine that agrees with a tape, the
/// interpreter, from that tape with the same fuel, succeeds and ends on a tape
/// that agrees with where the machine ended: the same memory, the same bytes
/// written, and the cursor equal to local 0 (the function's result) modulo
/// the memory size.
pub proof fn lemma_round_trip(s: Seq<Node>, t: Tape, m: Machine, fuel: nat)
    requires
        !reads_any(s),
        agrees(m, t),
        exec_seq(tree_code_seq(s), m, fuel) is Next,
    ensures
        flatten_seq(tree_code_seq(s)) == lower_seq(s),
        run_seq(s, t, fuel) is Ok,
        agrees(exec_seq(tree_code_seq(s), m, fuel)->Next_0, run_seq(s, t, fuel)->Ok_0.0),
        run_seq(s, t, fuel)->Ok_0.1 == exec_seq(tree_code_seq(s), m, fuel)->Next_1,
{
    lemma_flatten_tree_seq(s);
    lemma_sim_seq(s, t, m, fuel, 0);
}

} // verus!
