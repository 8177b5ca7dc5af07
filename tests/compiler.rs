use bfwasm::compiler::{CompileError, Compiler};
use bfwasm::interpreter::Interpreter;
use bfwasm::parser::parse;
use bfwasm::program::{FunctionBody, FunctionDecl, Program, ValType};
use bfwasm::tokenizer::tokenize;
use wasmi::{Caller, Engine, Linker, Memory, MemoryType, Module, Store};

fn compile_alone(name: &str, source: &str) -> Vec<u8> {
    let mut program = Program::new();
    program.add_function(FunctionDecl::from_source(name, source));
    let mut compiler = Compiler::new(&program);
    compiler.compile().unwrap()
}

fn compile_with_putch(name: &str, source: &str) -> Vec<u8> {
    let mut program = Program::new();
    program.add_function(FunctionDecl::import("env", "putch").unwrap());
    program.add_function(FunctionDecl::from_source(name, source));
    let mut compiler = Compiler::new(&program);
    compiler.compile().unwrap()
}

/// Runs the exported function and returns the first bytes of memory, the
/// returned cursor and the bytes passed to `putch`.
fn run_wasm(wasm: &[u8], fn_name: &str, window: usize) -> (Vec<u8>, i32, Vec<u8>) {
    let engine = Engine::default();
    let module = Module::new(&engine, wasm).unwrap();
    let mut store = Store::new(&engine, Vec::<u8>::new());
    let memory = Memory::new(&mut store, MemoryType::new(1, None)).unwrap();
    let mut linker = Linker::<Vec<u8>>::new(&engine);
    linker.define("env", "memory", memory).unwrap();
    linker
        .func_wrap("env", "putch", |mut caller: Caller<'_, Vec<u8>>, x: i32| {
            caller.data_mut().push(x as u8);
        })
        .unwrap();
    let instance = linker.instantiate_and_start(&mut store, &module).unwrap();
    let f = instance.get_typed_func::<(), i32>(&store, fn_name).unwrap();
    let result = f.call(&mut store, ()).unwrap();
    let mem = memory.data(&store)[0..window].to_vec();
    (mem, result, store.data().clone())
}

#[test]
fn test_ptr() {
    let wasm = compile_alone("ptr", ">>>>>>>>>>>>>>>>");
    let (_, result, _) = run_wasm(&wasm, "ptr", 10);
    assert_eq!(result, 16);
}

#[test]
fn test_val() {
    let wasm = compile_alone("val", "+++++");
    let (mem, result, _) = run_wasm(&wasm, "val", 10);
    assert_eq!(result, 0);
    assert_eq!(mem, [5, 0, 0, 0, 0, 0, 0, 0, 0, 0]);
}

#[test]
fn test_ptr_val() {
    let wasm = compile_alone("ptr_val", "+>++>+++>++++>+");
    let (mem, result, _) = run_wasm(&wasm, "ptr_val", 10);
    assert_eq!(result, 4);
    assert_eq!(mem, [1, 2, 3, 4, 1, 0, 0, 0, 0, 0]);
}

#[test]
fn test_loop() {
    let wasm = compile_alone("loop", "+[->++>+++<<]");
    let (mem, result, _) = run_wasm(&wasm, "loop", 10);
    assert_eq!(result, 0);
    assert_eq!(mem, [0, 2, 3, 0, 0, 0, 0, 0, 0, 0]);
}

#[test]
fn test_loop_inner() {
    let wasm = compile_alone("loop_inner", "+[->+[->+>++>+++>++++<<<<]<]");
    let (mem, result, _) = run_wasm(&wasm, "loop_inner", 10);
    assert_eq!(result, 0);
    assert_eq!(mem, [0, 0, 1, 2, 3, 4, 0, 0, 0, 0]);
}

fn assert_same_as_interpreter(source: &str) {
    let wasm = compile_with_putch("main", source);
    let (mem, result, written) = run_wasm(&wasm, "main", 16);
    let mut interpreter = Interpreter::new(parse(&tokenize(source)));
    assert_eq!(interpreter.eval(), Ok(()));
    assert_eq!(mem, interpreter.memory()[0..16].to_vec());
    assert_eq!(result as usize, interpreter.cursor());
    assert_eq!(written, *interpreter.output());
}

#[test]
fn module_matches_interpreter_on_write_scenario() {
    assert_same_as_interpreter("+++>++<.");
    let wasm = compile_with_putch("main", "+++>++<.");
    let (mem, result, written) = run_wasm(&wasm, "main", 4);
    assert_eq!(written, vec![3]);
    assert_eq!(mem, [3, 2, 0, 0]);
    assert_eq!(result, 0);
}

#[test]
fn module_matches_interpreter_on_loops() {
    assert_same_as_interpreter("+++[>++<-]");
    assert_same_as_interpreter("++[>+[>+<-]<-]");
    assert_same_as_interpreter("+++++[.-]");
    assert_same_as_interpreter("[.]>+.");
    assert_same_as_interpreter("-.+.");
}

#[test]
fn module_runs_nested_loop_scenario() {
    let wasm = compile_with_putch("main", "++[>+[>+<-]<-]");
    let (mem, result, _) = run_wasm(&wasm, "main", 4);
    assert_eq!(mem, [0, 0, 2, 0]);
    assert_eq!(result, 0);
}

#[test]
fn module_cell_arithmetic_wraps() {
    let plus: String = std::iter::repeat('+').take(300).collect();
    assert_same_as_interpreter(&plus);
    let wasm = compile_alone("wrap", &plus);
    let (mem, _, _) = run_wasm(&wasm, "wrap", 1);
    assert_eq!(mem, [44]);
}

#[test]
fn compile_refuses_read() {
    let mut program = Program::new();
    program.add_function(FunctionDecl::import("env", "putch").unwrap());
    program.add_function(FunctionDecl::from_source("main", "+[,]"));
    let mut compiler = Compiler::new(&program);
    assert_eq!(compiler.compile(), Err(CompileError::UnsupportedRead));
}

#[test]
fn compile_twice_gives_the_same_module() {
    let mut program = Program::new();
    program.add_function(FunctionDecl::from_source("main", "+>+"));
    let mut compiler = Compiler::new(&program);
    let first = compiler.compile().unwrap();
    let second = compiler.compile().unwrap();
    assert_eq!(first, second);
    assert_eq!(&first[0..4], b"\0asm");
}

#[test]
fn declarations_keep_their_shape() {
    let import = FunctionDecl::import("env", "putch").unwrap();
    assert_eq!(import.module, "env");
    assert_eq!(import.name, "putch");
    assert_eq!(import.signature.params, vec![ValType::I32]);
    assert!(import.signature.results.is_empty());
    assert!(matches!(import.body, FunctionBody::Import));

    let defined = FunctionDecl::from_source("hello", "+ comment >");
    assert_eq!(defined.module, "");
    assert_eq!(defined.name, "hello");
    assert!(defined.signature.params.is_empty());
    assert_eq!(defined.signature.results, vec![ValType::I32]);
    match defined.body {
        FunctionBody::Body(b) => assert_eq!(b.len(), 2),
        FunctionBody::Import => panic!("expected a body"),
    }
}

#[test]
fn program_keeps_declaration_order() {
    let mut program = Program::new();
    assert!(program.functions.is_empty());
    program.add_function(FunctionDecl::import("env", "putch").unwrap());
    program.add_function(FunctionDecl::from_source("main", "+"));
    assert_eq!(program.functions.len(), 2);
    assert_eq!(program.functions[0].name, "putch");
    assert_eq!(program.functions[1].name, "main");
}
