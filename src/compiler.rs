use vstd::prelude::*;
use crate::program::{Instruction, Node, nodes, lemma_nodes_index, FunctionBody, FunctionDecl, Program, ValType};
use crate::wasm::{ImportKind, types_size, imports_size, exports_size, bodies_size, WasmOp, code_of, module_image, types_of, imports_of, functions_of, exports_of, bodies_of, new_body, new_type_section, add_func_type, new_import_section, import_memory, import_function, new_function_section, add_function, new_export_section, export_function, new_code_section, add_body, encode_module, emit_loop, emit_if, emit_br, emit_end, emit_return, emit_local_get, emit_local_set, emit_i32_const, emit_i32_add, emit_i32_sub, emit_i32_load8_u, emit_i32_store8, emit_call};

verus! {

/// Why a program cannot be compiled.
#[derive(Debug, Clone, Copy, PartialEq, Eq)]
pub enum CompileError {
    /// The program reads input, for which the module has no channel.
    UnsupportedRead,
}

/// The `i32` constant that a count stands for: the count modulo 2^32, in
/// two's complement.
pub open spec fn const_of(k: int) -> i32 {
    let m = k % 0x1_0000_0000;
    if m < 0x8000_0000 {
        m as i32
    } else {
        (m - 0x1_0000_0000) as i32
    }
}

/// Whether a tree reads input anywhere.
pub open spec fn reads(n: Node) -> bool
    decreases n,
{
    match n {
        Node::GetCh => true,
        Node::Block(body) => reads_any(body),
        _ => false,
    }
}

/// Whether any tree of a sequence reads input.
pub open spec fn reads_any(s: Seq<Node>) -> bool
    decreases s,
{
    if s.len() == 0 {
        false
    } else {
        reads_any(s.drop_last()) || reads(s.last())
    }
}

/// The code of one tree. Local 0 holds the cursor; function 0 writes a byte.
/// A loop becomes a `loop` holding an `if` on the current cell whose body
/// ends by branching back to the `loop`.
pub open spec fn lower(n: Node) -> Seq<WasmOp>
    decreases n,
{
    match n {
        Node::PtrInc(k) => seq![
            WasmOp::LocalGet(0),
            WasmOp::I32Const(const_of(k as int)),
            WasmOp::I32Add,
            WasmOp::LocalSet(0),
        ],
        Node::PtrDec(k) => seq![
            WasmOp::LocalGet(0),
            WasmOp::I32Const(const_of(k as int)),
            WasmOp::I32Sub,
            WasmOp::LocalSet(0),
        ],
        Node::ValInc(k) => seq![
            WasmOp::LocalGet(0),
            WasmOp::LocalGet(0),
            WasmOp::I32Load8U,
            WasmOp::I32Const(k as i32),
            WasmOp::I32Add,
            WasmOp::I32Store8,
        ],
        Node::ValDec(k) => seq![
            WasmOp::LocalGet(0),
            WasmOp::LocalGet(0),
            WasmOp::I32Load8U,
            WasmOp::I32Const(k as i32),
            WasmOp::I32Sub,
            WasmOp::I32Store8,
        ],
        Node::PutCh => seq![WasmOp::LocalGet(0), WasmOp::I32Load8U, WasmOp::Call(0)],
        Node::GetCh => Seq::empty(),
        Node::Block(body) => seq![WasmOp::Loop, WasmOp::LocalGet(0), WasmOp::I32Load8U, WasmOp::If]
            + lower_seq(body) + seq![WasmOp::Br(1), WasmOp::End, WasmOp::End],
    }
}

/// The code of a sequence of trees, one after the other.
pub open spec fn lower_seq(s: Seq<Node>) -> Seq<WasmOp>
    decreases s,
{
    if s.len() == 0 {
        Seq::empty()
    } else {
        lower_seq(s.drop_last()) + lower(s.last())
    }
}

/// The body of a defined function: its code, then the cursor returned.
pub open spec fn function_code(body: Seq<Node>) -> Seq<WasmOp> {
    lower_seq(body) + seq![WasmOp::LocalGet(0), WasmOp::Return, WasmOp::End]
}

/// Whether a declared function is defined by a tree that reads input.
pub open spec fn decl_reads(f: FunctionDecl) -> bool {
    f.body matches FunctionBody::Body(b) && reads_any(nodes(b@))
}

/// The type entries of the first `n` declarations: one each, in order.
pub open spec fn types_for(fs: Seq<FunctionDecl>, n: nat) -> Seq<(Seq<ValType>, Seq<ValType>)> {
    Seq::new(n, |i: int| (fs[i].signature.params@, fs[i].signature.results@))
}

/// The imports of the first `n` declarations: the host's memory of one page,
/// then each imported function with its declaration index as type index.
pub open spec fn imports_for(fs: Seq<FunctionDecl>, n: nat) -> Seq<(Seq<char>, Seq<char>, ImportKind)>
    decreases n,
{
    if n == 0 {
        seq![("env"@, "memory"@, ImportKind::Memory(1))]
    } else {
        let i = (n - 1) as nat;
        let prev = imports_for(fs, i);
        if fs[i as int].body is Import {
            prev.push((fs[i as int].module@, fs[i as int].name@, ImportKind::Function(i as u32)))
        } else {
            prev
        }
    }
}

/// The function section entries of the first `n` declarations: the index of
/// each defined function, whose type has the same index.
pub open spec fn functions_for(fs: Seq<FunctionDecl>, n: nat) -> Seq<u32>
    decreases n,
{
    if n == 0 {
        Seq::empty()
    } else {
        let i = (n - 1) as nat;
        let prev = functions_for(fs, i);
        if fs[i as int].body is Body {
            prev.push(i as u32)
        } else {
            prev
        }
    }
}

/// The exports of the first `n` declarations: each defined function under its
/// own name and index.
pub open spec fn exports_for(fs: Seq<FunctionDecl>, n: nat) -> Seq<(Seq<char>, u32)>
    decreases n,
{
    if n == 0 {
        Seq::empty()
    } else {
        let i = (n - 1) as nat;
        let prev = exports_for(fs, i);
        if fs[i as int].body is Body {
            prev.push((fs[i as int].name@, i as u32))
        } else {
            prev
        }
    }
}

/// The code bodies of the first `n` declarations, one per defined function.
pub open spec fn bodies_for(fs: Seq<FunctionDecl>, n: nat) -> Seq<Seq<WasmOp>>
    decreases n,
{
    if n == 0 {
        Seq::empty()
    } else {
        let i = (n - 1) as nat;
        let prev = bodies_for(fs, i);
        match fs[i as int].body {
            FunctionBody::Body(b) => prev.push(function_code(nodes(b@))),
            FunctionBody::Import => prev,
        }
    }
}

/// The module that a program compiles to.
pub open spec fn module_of(fs: Seq<FunctionDecl>) -> Seq<u8> {
    let n = fs.len();
    module_image(types_for(fs, n), imports_for(fs, n), functions_for(fs, n), exports_for(fs, n), bodies_for(fs, n))
}

/// More bytes than one declaration adds to the sections of the module.
pub open spec fn decl_size(f: FunctionDecl) -> int {
    let code: int = match f.body {
        FunctionBody::Body(b) => 12int + 6 * function_code(nodes(b@)).len(),
        FunctionBody::Import => 0,
    };
    11int + f.signature.params@.len() + f.signature.results@.len() + 22 + 4 * (f.module@.len()
        + f.name@.len()) + 5 + 11 + 4 * f.name@.len() + code
}

/// More bytes than the first `n` declarations add to the module.
pub open spec fn program_size(fs: Seq<FunctionDecl>, n: nat) -> int
    decreases n,
{
    if n == 0 {
        0
    } else {
        program_size(fs, (n - 1) as nat) + decl_size(fs[n - 1])
    }
}

/// Whether a program's names and code fit the limits of the binary format.
pub open spec fn fits_format(fs: Seq<FunctionDecl>) -> bool {
    &&& fs.len() < u32::MAX
    &&& program_size(fs, fs.len()) + 58 < 0xFFFF_0000
    &&& forall|i: int| 0 <= i < fs.len() ==> {
        &&& (#[trigger] fs[i]).module@.len() < 0x4000_0000
        &&& fs[i].name@.len() < 0x4000_0000
        &&& fs[i].signature.params@.len() <= u32::MAX
        &&& fs[i].signature.results@.len() <= u32::MAX
        &&& fs[i].body matches FunctionBody::Body(b) ==> function_code(nodes(b@)).len() < 0x1000_0000
    }
}

proof fn lemma_lower_seq_push(s: Seq<Node>, n: Node)
    ensures
        lower_seq(s.push(n)) == lower_seq(s) + lower(n),
        reads_any(s.push(n)) == (reads_any(s) || reads(n)),
{
    assert(s.push(n).drop_last() =~= s);
}

/// The `i32` constant for a pointer count.
fn count_const(k: usize) -> (r: i32)
    ensures
        r == const_of(k as int),
{
    let m: u64 = (k as u64) % 0x1_0000_0000;
    if m < 0x8000_0000 {
        m as i32
    } else {
        (m as i64 - 0x1_0000_0000) as i32
    }
}

/// Appends the code of `instructions` to `f`; fails, with `f` in some state,
/// where they read input.
fn generate_body(f: &mut wasm_encoder::Function, instructions: &Vec<Instruction>) -> (r: Result<
    (),
    CompileError,
>)
    requires
        code_of(*old(f)).len() + lower_seq(nodes(instructions@)).len() < 0x1000_0000,
    ensures
        r is Err <==> reads_any(nodes(instructions@)),
        r is Ok ==> code_of(*final(f)) == code_of(*old(f)) + lower_seq(nodes(instructions@)),
        r is Ok ==> code_of(*final(f)).len() < 0x1000_0000,
    decreases instructions@,
{
    let ghost s = nodes(instructions@);
    let ghost base = code_of(*f);
    proof {
        lemma_nodes_index(instructions@);
        lemma_lower_seq_prefix(s, 0);
        assert(s.take(0) =~= Seq::<Node>::empty());
        assert(base + lower_seq(s.take(0)) =~= base);
    }
    let mut i: usize = 0;
    while i < instructions.len()
        invariant
            s == nodes(instructions@),
            s.len() == instructions@.len(),
            forall|k: int| 0 <= k < s.len() ==> s[k] == (#[trigger] instructions@[k])@,
            base == code_of(*old(f)),
            base.len() + lower_seq(s).len() < 0x1000_0000,
            0 <= i <= instructions@.len(),
            code_of(*f) == base + lower_seq(s.take(i as int)),
            !reads_any(s.take(i as int)),
        decreases instructions@.len() - i,
    {
        let ghost before = code_of(*f);
        let ghost node = s[i as int];
        proof {
            assert(s.take(i + 1) =~= s.take(i as int).push(node));
            lemma_lower_seq_push(s.take(i as int), node);
            lemma_lower_seq_prefix(s, i + 1);
        }
        match &instructions[i] {
            Instruction::Block(body) => {
                proof {
                    assert(decreases_to!(instructions@ => instructions@[i as int]));
                    assert(decreases_to!(instructions@[i as int] => body@));
                    assert(lower(node) == seq![WasmOp::Loop, WasmOp::LocalGet(0), WasmOp::I32Load8U, WasmOp::If]
                        + lower_seq(nodes(body@)) + seq![WasmOp::Br(1), WasmOp::End, WasmOp::End]);
                }
                emit_loop(f);
                emit_local_get(f, 0);
                emit_i32_load8_u(f);
                emit_if(f);
                let r = generate_body(f, body);
                if r.is_err() {
                    proof {
                        lemma_reads_any_prefix(s, i + 1);
                    }
                    return r;
                }
                emit_br(f, 1);
                emit_end(f);
                emit_end(f);
                assert(code_of(*f) =~= before + lower(node));
            },
            Instruction::PtrInc(k) => {
                emit_local_get(f, 0);
                emit_i32_const(f, count_const(*k));
                emit_i32_add(f);
                emit_local_set(f, 0);
                assert(code_of(*f) =~= before + lower(node));
            },
            Instruction::PtrDec(k) => {
                emit_local_get(f, 0);
                emit_i32_const(f, count_const(*k));
                emit_i32_sub(f);
                emit_local_set(f, 0);
                assert(code_of(*f) =~= before + lower(node));
            },
            Instruction::ValInc(k) => {
                emit_local_get(f, 0);
                emit_local_get(f, 0);
                emit_i32_load8_u(f);
                emit_i32_const(f, *k as i32);
                emit_i32_add(f);
                emit_i32_store8(f);
                assert(code_of(*f) =~= before + lower(node));
            },
            Instruction::ValDec(k) => {
                emit_local_get(f, 0);
                emit_local_get(f, 0);
                emit_i32_load8_u(f);
                emit_i32_const(f, *k as i32);
                emit_i32_sub(f);
                emit_i32_store8(f);
                assert(code_of(*f) =~= before + lower(node));
            },
            Instruction::PutCh => {
                emit_local_get(f, 0);
                emit_i32_load8_u(f);
                emit_call(f, 0);
                assert(code_of(*f) =~= before + lower(node));
            },
            Instruction::GetCh => {
                proof {
                    lemma_reads_any_prefix(s, i + 1);
                }
                return Err(CompileError::UnsupportedRead);
            },
        }
        i = i + 1;
    }
    assert(s.take(i as int) =~= s);
    Ok(())
}

/// A prefix's code is no longer than the whole.
proof fn lemma_lower_seq_prefix(s: Seq<Node>, n: int)
    requires
        0 <= n <= s.len(),
    ensures
        lower_seq(s.take(n)).len() <= lower_seq(s).len(),
    decreases s.len() - n,
{
    if n < s.len() {
        lemma_lower_seq_prefix(s, n + 1);
        assert(s.take(n + 1).drop_last() =~= s.take(n));
    } else {
        assert(s.take(n) =~= s);
    }
}

/// A sequence reads input where one of its prefixes does.
proof fn lemma_reads_any_prefix(s: Seq<Node>, n: int)
    requires
        0 <= n <= s.len(),
        reads_any(s.take(n)),
    ensures
        reads_any(s),
    decreases s.len() - n,
{
    if n < s.len() {
        assert(s.take(n + 1).drop_last() =~= s.take(n));
        lemma_reads_any_prefix(s, n + 1);
    } else {
        assert(s.take(n) =~= s);
    }
}

proof fn lemma_section_lens(fs: Seq<FunctionDecl>, n: nat)
    requires
        n <= fs.len(),
    ensures
        imports_for(fs, n).len() <= n + 1,
        functions_for(fs, n).len() <= n,
        exports_for(fs, n).len() <= n,
        bodies_for(fs, n).len() <= n,
        types_size(types_for(fs, n)) <= program_size(fs, n),
        imports_size(imports_for(fs, n)) <= program_size(fs, n) + 58,
        5 * functions_for(fs, n).len() <= program_size(fs, n),
        exports_size(exports_for(fs, n)) <= program_size(fs, n),
        bodies_size(bodies_for(fs, n)) <= program_size(fs, n),
        0 <= program_size(fs, n),
    decreases n,
{
    if n > 0 {
        let i = (n - 1) as nat;
        lemma_section_lens(fs, i);
        assert(types_for(fs, n).drop_last() =~= types_for(fs, i));
        if fs[i as int].body is Import {
            assert(imports_for(fs, n).drop_last() =~= imports_for(fs, i));
        } else {
            assert(exports_for(fs, n).drop_last() =~= exports_for(fs, i));
            assert(bodies_for(fs, n).drop_last() =~= bodies_for(fs, i));
        }
    } else {
        reveal_strlit("env");
        reveal_strlit("memory");
        let base = imports_for(fs, 0);
        assert(base.drop_last() =~= Seq::<(Seq<char>, Seq<char>, ImportKind)>::empty());
        assert("env"@.len() == 3 && "memory"@.len() == 6);
        assert(imports_size(base.drop_last()) == 0);
        assert(base.last() == ("env"@, "memory"@, ImportKind::Memory(1)));
        assert(imports_size(base) == 58);
        assert(types_for(fs, 0) =~= Seq::<(Seq<ValType>, Seq<ValType>)>::empty());
    }
}

/// Assembles the module of a program.
pub struct Compiler<'a> {
    pub program: &'a Program,
    types: wasm_encoder::TypeSection,
    imports: wasm_encoder::ImportSection,
    functions: wasm_encoder::FunctionSection,
    exports: wasm_encoder::ExportSection,
    codes: wasm_encoder::CodeSection,
}

impl<'a> Compiler<'a> {
    /// The declarations being compiled.
    pub closed spec fn source(&self) -> Seq<FunctionDecl> {
        self.program.functions@
    }

    pub fn new(program: &'a Program) -> (r: Self)
        ensures
            r.source() == program.functions@,
    {
        Compiler {
            program,
            types: new_type_section(),
            imports: new_import_section(),
            functions: new_function_section(),
            exports: new_export_section(),
            codes: new_code_section(),
        }
    }

    /// The binary module of the program: a type per declaration, the host's
    /// memory `env`.`memory` of one page and the imported functions, then the
    /// defined functions, their exports and their code.
    ///
    /// Fails, with no module, where a defined function reads input.
    ///
    /// In the module the cursor is a 32-bit local that wraps modulo 2^32 and
    /// is returned as an `i32`; the interpreter wraps its cursor modulo
    /// [`crate::interpreter::MEMORY_SIZE`], the size of the one page. The two
    /// cursors agree modulo that size: moving back from cell 0 gives the last
    /// cell in the interpreter but -1 in the module, whose next access outside
    /// the page traps.
    pub fn compile(&mut self) -> (r: Result<Vec<u8>, CompileError>)
        requires
            fits_format(old(self).source()),
        ensures
            final(self).source() == old(self).source(),
            r is Err <==> exists|i: int|
                0 <= i < old(self).source().len() && decl_reads(#[trigger] old(self).source()[i]),
            r is Err ==> r == Err::<Vec<u8>, CompileError>(CompileError::UnsupportedRead),
            r matches Ok(bytes) ==> bytes@ == module_of(old(self).source()),
    {
        let program = self.program;
        let ghost fs = program.functions@;
        self.types = new_type_section();
        self.imports = new_import_section();
        self.functions = new_function_section();
        self.exports = new_export_section();
        self.codes = new_code_section();
        proof {
            reveal_strlit("env");
            reveal_strlit("memory");
        }
        import_memory(&mut self.imports, "env", "memory", 1);
        let mut i: usize = 0;
        while i < program.functions.len()
            invariant
                fs == program.functions@,
                fs == self.source(),
                fs == old(self).source(),
                fits_format(fs),
                0 <= i <= fs.len(),
                types_of(self.types) == types_for(fs, i as nat),
                imports_of(self.imports) == imports_for(fs, i as nat),
                functions_of(self.functions) == functions_for(fs, i as nat),
                exports_of(self.exports) == exports_for(fs, i as nat),
                bodies_of(self.codes) == bodies_for(fs, i as nat),
                forall|j: int| 0 <= j < i ==> !decl_reads(#[trigger] fs[j]),
            decreases fs.len() - i,
        {
            let function = &program.functions[i];
            let idx = i as u32;
            proof {
                lemma_section_lens(fs, i as nat);
                assert(types_for(fs, (i + 1) as nat) =~= types_for(fs, i as nat).push(
                    (fs[i as int].signature.params@, fs[i as int].signature.results@),
                ));
            }
            add_func_type(&mut self.types, &function.signature.params, &function.signature.results);
            match &function.body {
                FunctionBody::Import => {
                    import_function(&mut self.imports, function.module.as_str(), function.name.as_str(), idx);
                },
                FunctionBody::Body(b) => {
                    add_function(&mut self.functions, idx);
                    export_function(&mut self.exports, function.name.as_str(), idx);
                    let mut f = new_body();
                    let r = generate_body(&mut f, b);
                    if r.is_err() {
                        assert(decl_reads(fs[i as int]));
                        return Err(CompileError::UnsupportedRead);
                    }
                    emit_local_get(&mut f, 0);
                    emit_return(&mut f);
                    emit_end(&mut f);
                    assert(code_of(f) =~= function_code(nodes(b@)));
                    add_body(&mut self.codes, &f);
                },
            }
            i = i + 1;
        }
        proof {
            lemma_section_lens(fs, fs.len());
        }
        Ok(encode_module(&self.types, &self.imports, &self.functions, &self.exports, &self.codes))
    }
}

} // verus!
