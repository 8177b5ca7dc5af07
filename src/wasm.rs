use vstd::prelude::*;
use crate::program::ValType;

verus! {

/// One instruction of the stack machine, as the code generator emits it.
/// Blocks have no result; loads and stores use offset 0, alignment 1 and
/// memory 0.
#[derive(Debug, Clone, Copy, PartialEq, Eq)]
pub enum WasmOp {
    Loop,
    If,
    Br(u32),
    End,
    Return,
    LocalGet(u32),
    LocalSet(u32),
    I32Const(i32),
    I32Add,
    I32Sub,
    I32Load8U,
    I32Store8,
    Call(u32),
}

/// What an import provides.
#[derive(Debug, Clone, Copy, PartialEq, Eq)]
pub enum ImportKind {
    /// A 32-bit, unshared memory of at least this many pages, with no maximum.
    Memory(u64),
    /// A function of this type index.
    Function(u32),
}

#[verifier::external_type_specification]
#[verifier::external_body]
pub struct ExFunction(wasm_encoder::Function);

#[verifier::external_type_specification]
#[verifier::external_body]
pub struct ExTypeSection(wasm_encoder::TypeSection);

#[verifier::external_type_specification]
#[verifier::external_body]
pub struct ExImportSection(wasm_encoder::ImportSection);

#[verifier::external_type_specification]
#[verifier::external_body]
pub struct ExFunctionSection(wasm_encoder::FunctionSection);

#[verifier::external_type_specification]
#[verifier::external_body]
pub struct ExExportSection(wasm_encoder::ExportSection);

#[verifier::external_type_specification]
#[verifier::external_body]
pub struct ExCodeSection(wasm_encoder::CodeSection);

/// The instructions written into a function body so far, after its locals.
/// Every body that this library builds has one `i32` local.
pub uninterp spec fn code_of(f: wasm_encoder::Function) -> Seq<WasmOp>;

/// The function types of a type section: parameters and results.
pub uninterp spec fn types_of(s: wasm_encoder::TypeSection) -> Seq<(Seq<ValType>, Seq<ValType>)>;

/// The imports of an import section: module, name and what is imported.
pub uninterp spec fn imports_of(s: wasm_encoder::ImportSection) -> Seq<
    (Seq<char>, Seq<char>, ImportKind),
>;

/// The type indices of a function section.
pub uninterp spec fn functions_of(s: wasm_encoder::FunctionSection) -> Seq<u32>;

/// The function exports of an export section: name and function index.
pub uninterp spec fn exports_of(s: wasm_encoder::ExportSection) -> Seq<(Seq<char>, u32)>;

/// The function bodies of a code section, each with one `i32` local.
pub uninterp spec fn bodies_of(s: wasm_encoder::CodeSection) -> Seq<Seq<WasmOp>>;

/// The binary module made of these five sections, in this order.
pub uninterp spec fn module_image(
    types: Seq<(Seq<ValType>, Seq<ValType>)>,
    imports: Seq<(Seq<char>, Seq<char>, ImportKind)>,
    functions: Seq<u32>,
    exports: Seq<(Seq<char>, u32)>,
    bodies: Seq<Seq<WasmOp>>,
) -> Seq<u8>;

/// More bytes than the entries of a type section take.
pub open spec fn types_size(t: Seq<(Seq<ValType>, Seq<ValType>)>) -> int
    decreases t.len(),
{
    if t.len() == 0 {
        0
    } else {
        types_size(t.drop_last()) + 11 + t.last().0.len() + t.last().1.len()
    }
}

/// More bytes than the entries of an import section take.
pub open spec fn imports_size(t: Seq<(Seq<char>, Seq<char>, ImportKind)>) -> int
    decreases t.len(),
{
    if t.len() == 0 {
        0
    } else {
        imports_size(t.drop_last()) + 22 + 4 * (t.last().0.len() + t.last().1.len())
    }
}

/// More bytes than the entries of an export section take.
pub open spec fn exports_size(t: Seq<(Seq<char>, u32)>) -> int
    decreases t.len(),
{
    if t.len() == 0 {
        0
    } else {
        exports_size(t.drop_last()) + 11 + 4 * t.last().0.len()
    }
}

/// More bytes than the bodies of a code section take: one local, and at most
/// six bytes an instruction.
pub open spec fn bodies_size(t: Seq<Seq<WasmOp>>) -> int
    decreases t.len(),
{
    if t.len() == 0 {
        0
    } else {
        bodies_size(t.drop_last()) + 12 + 6 * t.last().len()
    }
}

/// Relies on wasm_encoder::Function::new: an empty body with one `i32` local.
#[verifier::external_body]
pub(crate) fn new_body() -> (r: wasm_encoder::Function)
    ensures
        code_of(r) == Seq::<WasmOp>::empty(),
{
    wasm_encoder::Function::new([(1u32, wasm_encoder::ValType::I32)])
}

/// Relies on wasm_encoder::InstructionSink::loop_: appends `loop` with no result.
#[verifier::external_body]
pub(crate) fn emit_loop(f: &mut wasm_encoder::Function)
    ensures
        code_of(*final(f)) == code_of(*old(f)).push(WasmOp::Loop),
{
    f.instructions().loop_(wasm_encoder::BlockType::Empty);
}

/// Relies on wasm_encoder::InstructionSink::if_: appends `if` with no result.
#[verifier::external_body]
pub(crate) fn emit_if(f: &mut wasm_encoder::Function)
    ensures
        code_of(*final(f)) == code_of(*old(f)).push(WasmOp::If),
{
    f.instructions().if_(wasm_encoder::BlockType::Empty);
}

/// Relies on wasm_encoder::InstructionSink::br: appends `br depth`.
#[verifier::external_body]
pub(crate) fn emit_br(f: &mut wasm_encoder::Function, depth: u32)
    ensures
        code_of(*final(f)) == code_of(*old(f)).push(WasmOp::Br(depth)),
{
    f.instructions().br(depth);
}

/// Relies on wasm_encoder::InstructionSink::end: appends `end`.
#[verifier::external_body]
pub(crate) fn emit_end(f: &mut wasm_encoder::Function)
    ensures
        code_of(*final(f)) == code_of(*old(f)).push(WasmOp::End),
{
    f.instructions().end();
}

/// Relies on wasm_encoder::InstructionSink::return_: appends `return`.
#[verifier::external_body]
pub(crate) fn emit_return(f: &mut wasm_encoder::Function)
    ensures
        code_of(*final(f)) == code_of(*old(f)).push(WasmOp::Return),
{
    f.instructions().return_();
}

/// Relies on wasm_encoder::InstructionSink::local_get: appends `local.get idx`.
#[verifier::external_body]
pub(crate) fn emit_local_get(f: &mut wasm_encoder::Function, idx: u32)
    ensures
        code_of(*final(f)) == code_of(*old(f)).push(WasmOp::LocalGet(idx)),
{
    f.instructions().local_get(idx);
}

/// Relies on wasm_encoder::InstructionSink::local_set: appends `local.set idx`.
#[verifier::external_body]
pub(crate) fn emit_local_set(f: &mut wasm_encoder::Function, idx: u32)
    ensures
        code_of(*final(f)) == code_of(*old(f)).push(WasmOp::LocalSet(idx)),
{
    f.instructions().local_set(idx);
}

/// Relies on wasm_encoder::InstructionSink::i32_const: appends `i32.const v`.
#[verifier::external_body]
pub(crate) fn emit_i32_const(f: &mut wasm_encoder::Function, v: i32)
    ensures
        code_of(*final(f)) == code_of(*old(f)).push(WasmOp::I32Const(v)),
{
    f.instructions().i32_const(v);
}

/// Relies on wasm_encoder::InstructionSink::i32_add: appends `i32.add`.
#[verifier::external_body]
pub(crate) fn emit_i32_add(f: &mut wasm_encoder::Function)
    ensures
        code_of(*final(f)) == code_of(*old(f)).push(WasmOp::I32Add),
{
    f.instructions().i32_add();
}

/// Relies on wasm_encoder::InstructionSink::i32_sub: appends `i32.sub`.
#[verifier::external_body]
pub(crate) fn emit_i32_sub(f: &mut wasm_encoder::Function)
    ensures
        code_of(*final(f)) == code_of(*old(f)).push(WasmOp::I32Sub),
{
    f.instructions().i32_sub();
}

/// Relies on wasm_encoder::InstructionSink::i32_load8_u: appends
/// `i32.load8_u` at offset 0, alignment 1, memory 0.
#[verifier::external_body]
pub(crate) fn emit_i32_load8_u(f: &mut wasm_encoder::Function)
    ensures
        code_of(*final(f)) == code_of(*old(f)).push(WasmOp::I32Load8U),
{
    f.instructions().i32_load8_u(wasm_encoder::MemArg { offset: 0, align: 0, memory_index: 0 });
}

/// Relies on wasm_encoder::InstructionSink::i32_store8: appends `i32.store8`
/// at offset 0, alignment 1, memory 0.
#[verifier::external_body]
pub(crate) fn emit_i32_store8(f: &mut wasm_encoder::Function)
    ensures
        code_of(*final(f)) == code_of(*old(f)).push(WasmOp::I32Store8),
{
    f.instructions().i32_store8(wasm_encoder::MemArg { offset: 0, align: 0, memory_index: 0 });
}

/// Relies on wasm_encoder::InstructionSink::call: appends `call idx`.
#[verifier::external_body]
pub(crate) fn emit_call(f: &mut wasm_encoder::Function, idx: u32)
    ensures
        code_of(*final(f)) == code_of(*old(f)).push(WasmOp::Call(idx)),
{
    f.instructions().call(idx);
}

/// Relies on wasm_encoder::TypeSection::new: no types.
#[verifier::external_body]
pub(crate) fn new_type_section() -> (r: wasm_encoder::TypeSection)
    ensures
        types_of(r) == Seq::<(Seq<ValType>, Seq<ValType>)>::empty(),
{
    wasm_encoder::TypeSection::new()
}

/// Relies on wasm_encoder::CoreTypeEncoder::function: appends one function type.
#[verifier::external_body]
pub(crate) fn add_func_type(s: &mut wasm_encoder::TypeSection, params: &Vec<ValType>, results: &Vec<ValType>)
    requires
        types_of(*old(s)).len() < u32::MAX,
        params@.len() <= u32::MAX,
        results@.len() <= u32::MAX,
    ensures
        types_of(*final(s)) == types_of(*old(s)).push((params@, results@)),
{
    let conv = |v: &ValType| match v {
        ValType::I32 => wasm_encoder::ValType::I32,
        ValType::I64 => wasm_encoder::ValType::I64,
    };
    s.ty().function(params.iter().map(conv), results.iter().map(conv));
}

/// Relies on wasm_encoder::ImportSection::new: no imports.
#[verifier::external_body]
pub(crate) fn new_import_section() -> (r: wasm_encoder::ImportSection)
    ensures
        imports_of(r) == Seq::<(Seq<char>, Seq<char>, ImportKind)>::empty(),
{
    wasm_encoder::ImportSection::new()
}

/// Relies on wasm_encoder::ImportSection::import with a MemoryType: appends
/// the import of a 32-bit, unshared memory of at least `min_pages` pages with
/// no maximum.
#[verifier::external_body]
pub(crate) fn import_memory(s: &mut wasm_encoder::ImportSection, module: &str, name: &str, min_pages: u64)
    requires
        imports_of(*old(s)).len() < u32::MAX,
        module@.len() < 0x4000_0000,
        name@.len() < 0x4000_0000,
    ensures
        imports_of(*final(s)) == imports_of(*old(s)).push((module@, name@, ImportKind::Memory(min_pages))),
{
    let ty = wasm_encoder::MemoryType { minimum: min_pages, maximum: None, memory64: false, shared: false, page_size_log2: None };
    s.import(module, name, ty);
}

/// Relies on wasm_encoder::ImportSection::import with EntityType::Function:
/// appends the import of a function of type `type_index`.
#[verifier::external_body]
pub(crate) fn import_function(s: &mut wasm_encoder::ImportSection, module: &str, name: &str, type_index: u32)
    requires
        imports_of(*old(s)).len() < u32::MAX,
        module@.len() < 0x4000_0000,
        name@.len() < 0x4000_0000,
    ensures
        imports_of(*final(s)) == imports_of(*old(s)).push((module@, name@, ImportKind::Function(type_index))),
{
    s.import(module, name, wasm_encoder::EntityType::Function(type_index));
}

/// Relies on wasm_encoder::FunctionSection::new: no functions.
#[verifier::external_body]
pub(crate) fn new_function_section() -> (r: wasm_encoder::FunctionSection)
    ensures
        functions_of(r) == Seq::<u32>::empty(),
{
    wasm_encoder::FunctionSection::new()
}

/// Relies on wasm_encoder::FunctionSection::function: appends a type index.
#[verifier::external_body]
pub(crate) fn add_function(s: &mut wasm_encoder::FunctionSection, type_index: u32)
    requires
        functions_of(*old(s)).len() < u32::MAX,
    ensures
        functions_of(*final(s)) == functions_of(*old(s)).push(type_index),
{
    s.function(type_index);
}

/// Relies on wasm_encoder::ExportSection::new: no exports.
#[verifier::external_body]
pub(crate) fn new_export_section() -> (r: wasm_encoder::ExportSection)
    ensures
        exports_of(r) == Seq::<(Seq<char>, u32)>::empty(),
{
    wasm_encoder::ExportSection::new()
}

/// Relies on wasm_encoder::ExportSection::export with ExportKind::Func:
/// appends the export of function `index` under `name`.
#[verifier::external_body]
pub(crate) fn export_function(s: &mut wasm_encoder::ExportSection, name: &str, index: u32)
    requires
        exports_of(*old(s)).len() < u32::MAX,
        name@.len() < 0x4000_0000,
    ensures
        exports_of(*final(s)) == exports_of(*old(s)).push((name@, index)),
{
    s.export(name, wasm_encoder::ExportKind::Func, index);
}

/// Relies on wasm_encoder::CodeSection::new: no bodies.
#[verifier::external_body]
pub(crate) fn new_code_section() -> (r: wasm_encoder::CodeSection)
    ensures
        bodies_of(r) == Seq::<Seq<WasmOp>>::empty(),
{
    wasm_encoder::CodeSection::new()
}

/// Relies on wasm_encoder::CodeSection::function: appends a function body.
#[verifier::external_body]
pub(crate) fn add_body(s: &mut wasm_encoder::CodeSection, f: &wasm_encoder::Function)
    requires
        bodies_of(*old(s)).len() < u32::MAX,
        code_of(*f).len() < 0x1000_0000,
    ensures
        bodies_of(*final(s)) == bodies_of(*old(s)).push(code_of(*f)),
{
    s.function(f);
}

/// Relies on wasm_encoder::Module: a new module, the five sections added in
/// the order of the parameters, and `finish`. Adding a section panics where
/// its size does not fit in a `u32`.
#[verifier::external_body]
pub(crate) fn encode_module(
    types: &wasm_encoder::TypeSection,
    imports: &wasm_encoder::ImportSection,
    functions: &wasm_encoder::FunctionSection,
    exports: &wasm_encoder::ExportSection,
    bodies: &wasm_encoder::CodeSection,
) -> (r: Vec<u8>)
    requires
        types_size(types_of(*types)) < 0xFFFF_0000,
        imports_size(imports_of(*imports)) < 0xFFFF_0000,
        5 * functions_of(*functions).len() < 0xFFFF_0000,
        exports_size(exports_of(*exports)) < 0xFFFF_0000,
        bodies_size(bodies_of(*bodies)) < 0xFFFF_0000,
    ensures
        r@ == module_image(
            types_of(*types),
            imports_of(*imports),
            functions_of(*functions),
            exports_of(*exports),
            bodies_of(*bodies),
        ),
{
    let mut module = wasm_encoder::Module::new();
    module.section(types).section(imports).section(functions).section(exports).section(bodies);
    module.finish()
}

} // verus!
