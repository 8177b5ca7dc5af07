use bfwasm::parser::parse;
use bfwasm::program::Instruction;

fn chars(s: &str) -> Vec<char> {
    s.chars().collect::<Vec<char>>()
}

#[test]
fn test_parse_expr() {
    let input = ">>,".chars().collect::<Vec<char>>();
    assert_eq!(parse(&input), vec![Instruction::PtrInc(2), Instruction::GetCh]);
}

#[test]
fn test_parse_expr_with_blocks() {
    let input = ">>,[.]-".chars().collect::<Vec<char>>();
    assert_eq!(
        parse(&input),
        vec![
            Instruction::PtrInc(2),
            Instruction::GetCh,
            Instruction::Block(vec![Instruction::PutCh]),
            Instruction::ValDec(1)
        ]
    );
}

#[test]
fn runs_fold_into_one_counted_instruction() {
    assert_eq!(parse(&chars(">>>>>")), vec![Instruction::PtrInc(5)]);
    assert_eq!(parse(&chars("<<<")), vec![Instruction::PtrDec(3)]);
    assert_eq!(parse(&chars("+")), vec![Instruction::ValInc(1)]);
    assert_eq!(parse(&chars("----")), vec![Instruction::ValDec(4)]);
}

#[test]
fn runs_of_different_symbols_stay_apart() {
    assert_eq!(
        parse(&chars("++-->><<")),
        vec![
            Instruction::ValInc(2),
            Instruction::ValDec(2),
            Instruction::PtrInc(2),
            Instruction::PtrDec(2)
        ]
    );
}

#[test]
fn cell_runs_longer_than_a_byte_wrap() {
    let plus: Vec<char> = std::iter::repeat('+').take(300).collect();
    assert_eq!(parse(&plus), vec![Instruction::ValInc(44)]);
    let minus: Vec<char> = std::iter::repeat('-').take(256).collect();
    assert_eq!(parse(&minus), vec![Instruction::ValDec(0)]);
    let right: Vec<char> = std::iter::repeat('>').take(300).collect();
    assert_eq!(parse(&right), vec![Instruction::PtrInc(300)]);
}

#[test]
fn nested_loops_nest() {
    assert_eq!(
        parse(&chars("++[>+[>+<-]<-]")),
        vec![
            Instruction::ValInc(2),
            Instruction::Block(vec![
                Instruction::PtrInc(1),
                Instruction::ValInc(1),
                Instruction::Block(vec![
                    Instruction::PtrInc(1),
                    Instruction::ValInc(1),
                    Instruction::PtrDec(1),
                    Instruction::ValDec(1)
                ]),
                Instruction::PtrDec(1),
                Instruction::ValDec(1)
            ])
        ]
    );
}

#[test]
fn open_loop_is_closed_at_end_of_input() {
    assert_eq!(parse(&chars("[+")), vec![Instruction::Block(vec![Instruction::ValInc(1)])]);
    assert_eq!(parse(&chars("[")), vec![Instruction::Block(vec![])]);
}

#[test]
fn stray_close_ends_the_program() {
    assert_eq!(parse(&chars("+]+")), vec![Instruction::ValInc(1)]);
    assert_eq!(parse(&chars("]")), Vec::<Instruction>::new());
}

#[test]
fn empty_input_parses_to_nothing() {
    assert_eq!(parse(&[]), Vec::<Instruction>::new());
}
