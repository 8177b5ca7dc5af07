use vstd::prelude::*;
use vstd::arithmetic::div_mod::{lemma_add_mod_noop_right, lemma_sub_mod_noop_right, lemma_mod_add_multiples_vanish, lemma_small_mod};
use crate::program::{Instruction, Node, nodes, lemma_nodes_index};

verus! {

/// Bytes of memory an interpreter starts with: one page of the module target.
pub const MEMORY_SIZE: usize = 65536;

/// The state a program acts on: memory, the cursor into it, and the bytes
/// written so far.
pub struct Tape {
    pub memory: Seq<u8>,
    pub cursor: int,
    pub output: Seq<u8>,
}

/// Why a run stopped before its end.
#[derive(Debug, Clone, Copy, PartialEq, Eq)]
pub enum EvalError {
    /// The interpreter had already run its program.
    AlreadyRun,
    /// The program reads input, for which no channel exists.
    ReadUnsupported,
    /// The program needed more loop iterations than its step limit allows.
    StepLimit,
}

/// The tape that a run starts from: zeroed memory of `len` bytes, the cursor
/// on cell 0, nothing written.
pub open spec fn initial_tape(len: nat) -> Tape {
    Tape { memory: Seq::new(len, |_i: int| 0u8), cursor: 0, output: Seq::empty() }
}

/// The effect of an instruction that neither loops nor reads. Cursor moves
/// wrap modulo the memory length; cell updates wrap modulo 256.
pub open spec fn apply(n: Node, t: Tape) -> Tape {
    let len = t.memory.len() as int;
    let cell = t.memory[t.cursor];
    match n {
        Node::PtrInc(k) => Tape { cursor: (t.cursor + k) % len, ..t },
        Node::PtrDec(k) => Tape { cursor: (t.cursor - k) % len, ..t },
        Node::ValInc(k) => Tape { memory: t.memory.update(t.cursor, ((cell + k) % 256) as u8), ..t },
        Node::ValDec(k) => Tape { memory: t.memory.update(t.cursor, ((cell - k) % 256) as u8), ..t },
        Node::PutCh => Tape { output: t.output.push(cell), ..t },
        _ => t,
    }
}

/// Runs one node with at most `fuel` loop iterations; the result carries the
/// iterations left.
pub open spec fn run_one(n: Node, t: Tape, fuel: nat) -> Result<(Tape, nat), EvalError>
    decreases fuel, n,
{
    match n {
        Node::GetCh => Err(EvalError::ReadUnsupported),
        Node::Block(body) => run_loop(body, t, fuel),
        _ => Ok((apply(n, t), fuel)),
    }
}

/// Runs a sequence of nodes in order, stopping at the first error.
pub open spec fn run_seq(s: Seq<Node>, t: Tape, fuel: nat) -> Result<(Tape, nat), EvalError>
    decreases fuel, s,
{
    if s.len() == 0 {
        Ok((t, fuel))
    } else {
        match run_one(s[0], t, fuel) {
            Ok((t1, f1)) => if f1 <= fuel {
                run_seq(s.drop_first(), t1, f1)
            } else {
                Ok((t1, f1))
            },
            Err(e) => Err(e),
        }
    }
}

/// Runs a loop: while the current cell is nonzero, one iteration of the body
/// costs one unit of fuel.
pub open spec fn run_loop(body: Seq<Node>, t: Tape, fuel: nat) -> Result<(Tape, nat), EvalError>
    decreases fuel, body,
{
    if t.memory[t.cursor] == 0 {
        Ok((t, fuel))
    } else if fuel == 0 {
        Err(EvalError::StepLimit)
    } else {
        match run_seq(body, t, (fuel - 1) as nat) {
            Ok((t1, f1)) => if f1 < fuel {
                run_loop(body, t1, f1)
            } else {
                Ok((t1, f1))
            },
            Err(e) => Err(e),
        }
    }
}

/// Cell arithmetic and cursor moves wrap: adding 1 to a cell that holds 255
/// leaves 0 there, and moving back 1 from cell 0 lands on the last cell.
pub proof fn lemma_wraparound(t: Tape, fuel: nat)
    requires
        0 <= t.cursor < t.memory.len(),
    ensures
        t.memory[t.cursor] == 255 ==> run_one(Node::ValInc(1), t, fuel) == Ok::<(Tape, nat), EvalError>(
            (Tape { memory: t.memory.update(t.cursor, 0), ..t }, fuel),
        ),
        t.cursor == 0 ==> run_one(Node::PtrDec(1), t, fuel) == Ok::<(Tape, nat), EvalError>(
            (Tape { cursor: t.memory.len() - 1, ..t }, fuel),
        ),
{
    let len = t.memory.len() as int;
    lemma_mod_add_multiples_vanish(-1, len);
    lemma_small_mod((len - 1) as nat, len as nat);
}

/// A loop entered on a zero cell runs its body no time and changes nothing.
pub proof fn lemma_loop_on_zero(body: Seq<Node>, t: Tape, fuel: nat)
    requires
        t.memory[t.cursor] == 0,
    ensures
        run_one(Node::Block(body), t, fuel) == Ok::<(Tape, nat), EvalError>((t, fuel)),
{
}

/// A loop whose body subtracts `k` from a cell holding a multiple `c` of `k`
/// runs its body exactly `c / k` times, each using one unit of fuel, and
/// leaves the cell at 0.
pub proof fn lemma_countdown_loop(k: u8, t: Tape, fuel: nat)
    requires
        0 < k,
        0 <= t.cursor < t.memory.len(),
        t.memory[t.cursor] % k == 0,
        fuel >= t.memory[t.cursor] / k,
    ensures
        run_one(Node::Block(seq![Node::ValDec(k)]), t, fuel) == Ok::<(Tape, nat), EvalError>(
            (Tape { memory: t.memory.update(t.cursor, 0), ..t }, (fuel - t.memory[t.cursor] / k) as nat),
        ),
    decreases t.memory[t.cursor],
{
    let c = t.memory[t.cursor] as int;
    let body = seq![Node::ValDec(k)];
    if c == 0 {
        assert(t.memory.update(t.cursor, 0) =~= t.memory);
    } else {
        let q = c / k as int;
        assert(c == q * k) by (nonlinear_arith)
            requires c % (k as int) == 0, q == c / (k as int), k > 0;
        assert(q >= 1) by (nonlinear_arith)
            requires c == q * k, c > 0, k > 0;
        assert(c >= k) by (nonlinear_arith)
            requires c == q * k, q >= 1, k > 0;
        let t1 = Tape { memory: t.memory.update(t.cursor, (c - k) as u8), ..t };
        assert((c - k) / (k as int) == q - 1 && (c - k) % (k as int) == 0) by (nonlinear_arith)
            requires c == q * k, k > 0, q >= 1;
        assert(body[0] == Node::ValDec(k));
        assert(apply(Node::ValDec(k), t) == t1);
        assert(run_one(body[0], t, (fuel - 1) as nat) == Ok::<(Tape, nat), EvalError>((t1, (fuel - 1) as nat)));
        assert(body.drop_first().len() == 0);
        assert(run_seq(body.drop_first(), t1, (fuel - 1) as nat) == Ok::<(Tape, nat), EvalError>((t1, (fuel - 1) as nat)));
        assert(run_seq(body, t, (fuel - 1) as nat) == Ok::<(Tape, nat), EvalError>((t1, (fuel - 1) as nat)));
        lemma_countdown_loop(k, t1, (fuel - 1) as nat);
        assert(t1.memory.update(t.cursor, 0) =~= t.memory.update(t.cursor, 0));
    }
}

/// A tree-walking interpreter over a zero-initialised memory of
/// [`MEMORY_SIZE`] bytes.
pub struct Interpreter {
    pub program: Vec<Instruction>,
    memory: Vec<u8>,
    ptr: usize,
    output: Vec<u8>,
    steps: u64,
    ran: bool,
}

impl Interpreter {
    /// The interpreter's state as a tape.
    pub closed spec fn tape(&self) -> Tape {
        Tape { memory: self.memory@, cursor: self.ptr as int, output: self.output@ }
    }

    /// Loop iterations the interpreter may still run.
    pub closed spec fn fuel(&self) -> nat {
        self.steps as nat
    }

    /// The program to run.
    pub closed spec fn code(&self) -> Seq<Instruction> {
        self.program@
    }

    pub closed spec fn has_run(&self) -> bool {
        self.ran
    }

    /// The memory keeps its size and the cursor stays inside it; before the
    /// run the tape is the initial one.
    pub closed spec fn wf(&self) -> bool {
        &&& self.memory@.len() == MEMORY_SIZE
        &&& self.ptr < MEMORY_SIZE
        &&& !self.ran ==> self.tape() == initial_tape(MEMORY_SIZE as nat)
    }

    /// An interpreter for `program` whose run may take as many loop iterations
    /// as fit in a `u64`.
    pub fn new(program: Vec<Instruction>) -> (r: Self)
        ensures
            r.wf(),
            !r.has_run(),
            r.code() == program@,
            r.fuel() == u64::MAX,
            r.tape() == initial_tape(MEMORY_SIZE as nat),
    {
        Self::with_step_limit(program, u64::MAX)
    }

    /// An interpreter for `program` whose run stops with
    /// [`EvalError::StepLimit`] past `limit` loop iterations.
    pub fn with_step_limit(program: Vec<Instruction>, limit: u64) -> (r: Self)
        ensures
            r.wf(),
            !r.has_run(),
            r.code() == program@,
            r.fuel() == limit,
            r.tape() == initial_tape(MEMORY_SIZE as nat),
    {
        let memory = vec![0u8; MEMORY_SIZE];
        assert(memory@ =~= initial_tape(MEMORY_SIZE as nat).memory);
        let r = Interpreter { program, memory, ptr: 0, output: Vec::new(), steps: limit, ran: false };
        assert(r.tape() =~= initial_tape(MEMORY_SIZE as nat));
        r
    }

    /// Memory as the run left it.
    pub fn memory(&self) -> (r: &Vec<u8>)
        ensures
            r@ == self.tape().memory,
    {
        &self.memory
    }

    /// Bytes written by the run, in order.
    pub fn output(&self) -> (r: &Vec<u8>)
        ensures
            r@ == self.tape().output,
    {
        &self.output
    }

    /// Where the cursor stands.
    pub fn cursor(&self) -> (r: usize)
        ensures
            r == self.tape().cursor,
    {
        self.ptr
    }

    /// Runs the program once from the initial tape.
    ///
    /// A second call fails with [`EvalError::AlreadyRun`] and changes nothing.
    pub fn eval(&mut self) -> (r: Result<(), EvalError>)
        requires
            old(self).wf(),
        ensures
            final(self).wf(),
            final(self).has_run(),
            final(self).tape().memory.len() == MEMORY_SIZE,
            0 <= final(self).tape().cursor < MEMORY_SIZE,
            final(self).code() == old(self).code(),
            old(self).has_run() ==> r == Err::<(), EvalError>(EvalError::AlreadyRun),
            old(self).has_run() ==> *final(self) == *old(self),
            !old(self).has_run() ==> match run_seq(
                nodes(old(self).code()),
                initial_tape(MEMORY_SIZE as nat),
                old(self).fuel(),
            ) {
                Ok((t, f)) => r is Ok && final(self).tape() == t && final(self).fuel() == f,
                Err(e) => r == Err::<(), EvalError>(e),
            },
    {
        if self.ran {
            return Err(EvalError::AlreadyRun);
        }
        let mut program: Vec<Instruction> = Vec::new();
        std::mem::swap(&mut program, &mut self.program);
        let r = self.eval_vec(&program);
        std::mem::swap(&mut program, &mut self.program);
        self.ran = true;
        r
    }

    fn eval_vec(&mut self, instructions: &Vec<Instruction>) -> (r: Result<(), EvalError>)
        requires
            old(self).memory@.len() == MEMORY_SIZE,
            old(self).ptr < MEMORY_SIZE,
        ensures
            final(self).memory@.len() == MEMORY_SIZE,
            final(self).ptr < MEMORY_SIZE,
            final(self).steps <= old(self).steps,
            final(self).program == old(self).program,
            final(self).ran == old(self).ran,
            match run_seq(nodes(instructions@), old(self).tape(), old(self).fuel()) {
                Ok((t, f)) => r is Ok && final(self).tape() == t && final(self).fuel() == f,
                Err(e) => r == Err::<(), EvalError>(e),
            },
        decreases instructions@,
    {
        let ghost s = nodes(instructions@);
        let ghost t0 = self.tape();
        let ghost f0 = self.fuel();
        let mut i: usize = 0;
        proof {
            lemma_nodes_index(instructions@);
            assert(s.skip(0) =~= s);
        }
        while i < instructions.len()
            invariant
                s == nodes(instructions@),
                s.len() == instructions@.len(),
                t0 == old(self).tape(),
                f0 == old(self).fuel(),
                forall|k: int| 0 <= k < s.len() ==> s[k] == (#[trigger] instructions@[k])@,
                0 <= i <= instructions@.len(),
                self.memory@.len() == MEMORY_SIZE,
                self.ptr < MEMORY_SIZE,
                self.steps <= f0,
                self.program == old(self).program,
                self.ran == old(self).ran,
                run_seq(s, t0, f0) == run_seq(s.skip(i as int), self.tape(), self.fuel()),
            decreases instructions@.len() - i,
        {
            let ghost rest = s.skip(i as int);
            assert(rest.drop_first() =~= s.skip(i + 1));
            assert(rest[0] == instructions@[i as int]@);
            let r = self.eval_single(&instructions[i]);
            if r.is_err() {
                return r;
            }
            i = i + 1;
        }
        assert(s.skip(i as int) =~= Seq::<Node>::empty());
        Ok(())
    }

    fn eval_single(&mut self, instruction: &Instruction) -> (r: Result<(), EvalError>)
        requires
            old(self).memory@.len() == MEMORY_SIZE,
            old(self).ptr < MEMORY_SIZE,
        ensures
            final(self).memory@.len() == MEMORY_SIZE,
            final(self).ptr < MEMORY_SIZE,
            final(self).steps <= old(self).steps,
            final(self).program == old(self).program,
            final(self).ran == old(self).ran,
            match run_one(instruction@, old(self).tape(), old(self).fuel()) {
                Ok((t, f)) => r is Ok && final(self).tape() == t && final(self).fuel() == f,
                Err(e) => r == Err::<(), EvalError>(e),
            },
        decreases instruction,
    {
        let len = MEMORY_SIZE;
        match instruction {
            Instruction::PtrInc(n) => {
                let k = *n % len;
                let s = self.ptr + k;
                self.ptr = if s >= len { s - len } else { s };
                proof {
                    lemma_add_mod_noop_right(old(self).ptr as int, *n as int, len as int);
                }
            },
            Instruction::PtrDec(n) => {
                let k = *n % len;
                self.ptr = if self.ptr >= k { self.ptr - k } else { self.ptr + len - k };
                proof {
                    lemma_sub_mod_noop_right(old(self).ptr as int, *n as int, len as int);
                }
            },
            Instruction::ValInc(n) => {
                let cell = self.memory[self.ptr];
                self.memory.set(self.ptr, cell.wrapping_add(*n));
            },
            Instruction::ValDec(n) => {
                let cell = self.memory[self.ptr];
                self.memory.set(self.ptr, cell.wrapping_sub(*n));
            },
            Instruction::PutCh => {
                let cell = self.memory[self.ptr];
                self.output.push(cell);
            },
            Instruction::GetCh => {
                return Err(EvalError::ReadUnsupported);
            },
            Instruction::Block(body) => {
                let ghost b = nodes(body@);
                let ghost t0 = self.tape();
                let ghost f0 = self.fuel();
                assert(decreases_to!(*instruction => *body));
                assert(decreases_to!(*instruction => body@));
                while self.memory[self.ptr] != 0
                    invariant
                        b == nodes(body@),
                        t0 == old(self).tape(),
                        f0 == old(self).fuel(),
                        instruction@ == Node::Block(b),
                        decreases_to!(*instruction => body@),
                        self.memory@.len() == MEMORY_SIZE,
                        self.ptr < MEMORY_SIZE,
                        self.steps <= f0,
                        self.program == old(self).program,
                        self.ran == old(self).ran,
                        run_loop(b, t0, f0) == run_loop(b, self.tape(), self.fuel()),
                    decreases self.steps,
                {
                    if self.steps == 0 {
                        return Err(EvalError::StepLimit);
                    }
                    self.steps = self.steps - 1;
                    let r = self.eval_vec(body);
                    if r.is_err() {
                        return r;
                    }
                }
            },
        }
        Ok(())
    }
}

} // verus!
