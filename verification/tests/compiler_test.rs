use oxython::bytecode::OpCode;
use oxython::compiler::{check_spans, comprehension_result_name, Compiler, Constant, Lexeme, Token};

fn lexeme(token: Token, start: usize, end: usize) -> Lexeme {
    Lexeme { token, start, end }
}

fn b(op: OpCode) -> u8 {
    op as u8
}

/// Walks the code instruction by instruction: every instruction starts with
/// a valid opcode and the walk ends exactly at the end.
fn is_whole(code: &[u8]) -> bool {
    let mut i = 0;
    while i < code.len() {
        match OpCode::try_from_byte(code[i]) {
            Some(op) => i += 1 + op.operand_width(),
            None => return false,
        }
    }
    i == code.len()
}

/// Every jump leads to the start of an instruction or to the end of the code.
fn jumps_land(code: &[u8]) -> bool {
    let mut starts = Vec::new();
    let mut i = 0;
    while i < code.len() {
        starts.push(i);
        match OpCode::try_from_byte(code[i]) {
            Some(op) => i += 1 + op.operand_width(),
            None => return false,
        }
    }
    starts.push(code.len());
    for &p in &starts {
        if p >= code.len() {
            continue;
        }
        let op = OpCode::try_from_byte(code[p]).unwrap();
        if op.operand_width() != 2 {
            continue;
        }
        let offset = ((code[p + 1] as usize) << 8) | code[p + 2] as usize;
        let target = match op {
            OpCode::OpJump | OpCode::OpJumpIfFalse | OpCode::OpIterNext => Some(p + 3 + offset),
            OpCode::OpLoop => (p + 3).checked_sub(offset),
            _ => continue,
        };
        match target {
            Some(t) if starts.contains(&t) => {}
            _ => return false,
        }
    }
    true
}

#[test]
fn empty_program_compiles_to_return() {
    let chunk = Compiler::compile("", &Vec::new()).expect("chunk");
    assert_eq!(chunk.code, vec![b(OpCode::OpReturn)]);
    assert!(chunk.constants.is_empty());
}

#[test]
fn stray_semicolons_compile_to_return() {
    let source = ";;;";
    let tokens = vec![
        lexeme(Token::Semicolon, 0, 1),
        lexeme(Token::Semicolon, 1, 2),
        lexeme(Token::Semicolon, 2, 3),
    ];
    let chunk = Compiler::compile(source, &tokens).expect("chunk");
    assert_eq!(chunk.code, vec![b(OpCode::OpReturn)]);
}

#[test]
fn addition_statement_emits_add_and_pop() {
    let source = "1 + 2";
    let tokens = vec![
        lexeme(Token::Integer(1), 0, 1),
        lexeme(Token::Plus, 2, 3),
        lexeme(Token::Integer(2), 4, 5),
    ];
    let chunk = Compiler::compile(source, &tokens).expect("chunk");
    assert_eq!(
        chunk.code,
        vec![
            b(OpCode::OpConstant),
            0,
            b(OpCode::OpConstant),
            1,
            b(OpCode::OpAdd),
            b(OpCode::OpPop),
            b(OpCode::OpReturn)
        ]
    );
    assert!(matches!(chunk.constants[0], Constant::Integer(1)));
    assert!(matches!(chunk.constants[1], Constant::Integer(2)));
}

#[test]
fn assignment_defines_global() {
    let source = "a = 10";
    let tokens = vec![
        lexeme(Token::Identifier("a".to_string()), 0, 1),
        lexeme(Token::Assign, 2, 3),
        lexeme(Token::Integer(10), 4, 6),
    ];
    let chunk = Compiler::compile(source, &tokens).expect("chunk");
    assert_eq!(
        chunk.code,
        vec![
            b(OpCode::OpConstant),
            1,
            b(OpCode::OpDefineGlobal),
            0,
            b(OpCode::OpReturn)
        ]
    );
    assert!(matches!(&chunk.constants[0], Constant::String(s) if s == "a"));
    assert!(matches!(chunk.constants[1], Constant::Integer(10)));
}

#[test]
fn invalid_token_fails_compilation() {
    let source = "@";
    let tokens = vec![lexeme(Token::Invalid, 0, 1)];
    assert!(Compiler::compile(source, &tokens).is_none());
}

#[test]
fn spans_outside_source_are_refused() {
    let tokens = vec![lexeme(Token::Integer(1), 0, 5)];
    assert!(!check_spans("1", &tokens));
    assert!(Compiler::compile("1", &tokens).is_none());
    let overlapping = vec![lexeme(Token::Integer(1), 0, 2), lexeme(Token::Plus, 1, 2)];
    assert!(!check_spans("1+", &overlapping));
}

#[test]
fn comprehension_result_names_count_up() {
    assert_eq!(comprehension_result_name(0), "__list_comp_result_0");
    assert_eq!(comprehension_result_name(42), "__list_comp_result_42");
}

#[test]
fn function_definition_compiles_to_prototype_constant() {
    // def add(a, b): return a + b
    let source = "def add(a, b): return a + b";
    let tokens = vec![
        lexeme(Token::Def, 0, 3),
        lexeme(Token::Identifier("add".to_string()), 4, 7),
        lexeme(Token::LParen, 7, 8),
        lexeme(Token::Identifier("a".to_string()), 8, 9),
        lexeme(Token::Comma, 9, 10),
        lexeme(Token::Identifier("b".to_string()), 11, 12),
        lexeme(Token::RParen, 12, 13),
        lexeme(Token::Colon, 13, 14),
        lexeme(Token::Return, 15, 21),
        lexeme(Token::Identifier("a".to_string()), 22, 23),
        lexeme(Token::Plus, 24, 25),
        lexeme(Token::Identifier("b".to_string()), 26, 27),
    ];
    let chunk = Compiler::compile(source, &tokens).expect("chunk");
    assert_eq!(
        chunk.code,
        vec![
            b(OpCode::OpMakeFunction),
            0,
            b(OpCode::OpDefineGlobal),
            1,
            b(OpCode::OpReturn)
        ]
    );
    match &chunk.constants[0] {
        Constant::Function(prototype) => {
            assert_eq!(prototype.name, "add");
            assert_eq!(prototype.arity, 2);
            assert_eq!(
                prototype.chunk.code,
                vec![
                    b(OpCode::OpGetLocal),
                    1,
                    b(OpCode::OpGetLocal),
                    2,
                    b(OpCode::OpAdd),
                    b(OpCode::OpReturn)
                ]
            );
            assert!(is_whole(&prototype.chunk.code));
        }
        _ => panic!("expected a function prototype"),
    }
    assert!(matches!(&chunk.constants[1], Constant::String(s) if s == "add"));
    assert!(is_whole(&chunk.code));
}

#[test]
fn while_loop_with_break_patches_jumps() {
    // while True:\n    break
    let source = "while True:\n    break";
    let tokens = vec![
        lexeme(Token::While, 0, 5),
        lexeme(Token::True, 6, 10),
        lexeme(Token::Colon, 10, 11),
        lexeme(Token::Break, 16, 21),
    ];
    let chunk = Compiler::compile(source, &tokens).expect("chunk");
    assert!(is_whole(&chunk.code));
    assert_eq!(
        chunk.code,
        vec![
            b(OpCode::OpConstant),
            0,
            b(OpCode::OpJumpIfFalse),
            0,
            7,
            b(OpCode::OpPop),
            b(OpCode::OpJump),
            0,
            4,
            b(OpCode::OpLoop),
            0,
            12,
            b(OpCode::OpPop),
            b(OpCode::OpReturn)
        ]
    );
}

#[test]
fn return_outside_function_is_an_error() {
    let source = "return 1";
    let tokens = vec![lexeme(Token::Return, 0, 6), lexeme(Token::Integer(1), 7, 8)];
    assert!(Compiler::compile(source, &tokens).is_none());
}

#[test]
fn list_literal_becomes_one_constant() {
    let source = "[1, 'a']";
    let tokens = vec![
        lexeme(Token::LBracket, 0, 1),
        lexeme(Token::Integer(1), 1, 2),
        lexeme(Token::Comma, 2, 3),
        lexeme(Token::String("a".to_string()), 4, 7),
        lexeme(Token::RBracket, 7, 8),
    ];
    let chunk = Compiler::compile(source, &tokens).expect("chunk");
    assert_eq!(
        chunk.code,
        vec![b(OpCode::OpConstant), 0, b(OpCode::OpPop), b(OpCode::OpReturn)]
    );
    match &chunk.constants[0] {
        Constant::List(items) => {
            assert_eq!(items.len(), 2);
            assert!(matches!(items[0], Constant::Integer(1)));
            assert!(matches!(&items[1], Constant::String(s) if s == "a"));
        }
        _ => panic!("expected a list constant"),
    }
}

#[test]
fn comprehension_with_filter_has_landing_jumps() {
    let source = "[x for x in [1, 2] if x]";
    let tokens = vec![
        lexeme(Token::LBracket, 0, 1),
        lexeme(Token::Identifier("x".to_string()), 1, 2),
        lexeme(Token::For, 3, 6),
        lexeme(Token::Identifier("x".to_string()), 7, 8),
        lexeme(Token::In, 9, 11),
        lexeme(Token::LBracket, 12, 13),
        lexeme(Token::Integer(1), 13, 14),
        lexeme(Token::Comma, 14, 15),
        lexeme(Token::Integer(2), 16, 17),
        lexeme(Token::RBracket, 17, 18),
        lexeme(Token::If, 19, 21),
        lexeme(Token::Identifier("x".to_string()), 22, 23),
        lexeme(Token::RBracket, 23, 24),
    ];
    let chunk = Compiler::compile(source, &tokens).expect("chunk");
    assert!(is_whole(&chunk.code));
    assert!(jumps_land(&chunk.code));
    assert!(chunk.code.contains(&b(OpCode::OpIterNext)));
    assert!(chunk.code.contains(&b(OpCode::OpLoop)));
    assert_eq!(*chunk.code.last().unwrap(), b(OpCode::OpReturn));
}

#[test]
fn for_loop_has_landing_jumps() {
    let source = "for i in [1]:\n    print(i)";
    let tokens = vec![
        lexeme(Token::For, 0, 3),
        lexeme(Token::Identifier("i".to_string()), 4, 5),
        lexeme(Token::In, 6, 8),
        lexeme(Token::LBracket, 9, 10),
        lexeme(Token::Integer(1), 10, 11),
        lexeme(Token::RBracket, 11, 12),
        lexeme(Token::Colon, 12, 13),
        lexeme(Token::Print, 18, 23),
        lexeme(Token::LParen, 23, 24),
        lexeme(Token::Identifier("i".to_string()), 24, 25),
        lexeme(Token::RParen, 25, 26),
    ];
    let chunk = Compiler::compile(source, &tokens).expect("chunk");
    assert!(is_whole(&chunk.code));
    assert!(jumps_land(&chunk.code));
    assert!(chunk.code.contains(&b(OpCode::OpLoop)));
}

#[test]
fn while_loop_jumps_land() {
    let source = "while True:\n    break";
    let tokens = vec![
        lexeme(Token::While, 0, 5),
        lexeme(Token::True, 6, 10),
        lexeme(Token::Colon, 10, 11),
        lexeme(Token::Break, 16, 21),
    ];
    let chunk = Compiler::compile(source, &tokens).expect("chunk");
    assert!(jumps_land(&chunk.code));
}
