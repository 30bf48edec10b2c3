use oxython::bytecode::OpCode;
use oxython::compiler::{Chunk, Compiler, Constant, Lexeme, Token};

/// A small tokenizer for the tests: keywords, names, integers, floats,
/// quoted strings and the operators of the language; any other character
/// becomes an `Invalid` token.
fn lex(source: &str) -> Vec<Lexeme> {
    let bytes = source.as_bytes();
    let mut tokens = Vec::new();
    let mut i = 0;
    while i < bytes.len() {
        let c = bytes[i];
        if c == b' ' || c == b'\t' || c == b'\n' || c == b'\r' {
            i += 1;
            continue;
        }
        let start = i;
        let token = if c.is_ascii_alphabetic() || c == b'_' {
            while i < bytes.len() && (bytes[i].is_ascii_alphanumeric() || bytes[i] == b'_') {
                i += 1;
            }
            match &source[start..i] {
                "print" => Token::Print,
                "for" => Token::For,
                "while" => Token::While,
                "if" => Token::If,
                "else" => Token::Else,
                "def" => Token::Def,
                "return" => Token::Return,
                "break" => Token::Break,
                "nonlocal" => Token::Nonlocal,
                "True" => Token::True,
                "False" => Token::False,
                "in" => Token::In,
                name => Token::Identifier(name.to_string()),
            }
        } else if c.is_ascii_digit() {
            while i < bytes.len() && bytes[i].is_ascii_digit() {
                i += 1;
            }
            if i + 1 < bytes.len() && bytes[i] == b'.' && bytes[i + 1].is_ascii_digit() {
                i += 1;
                while i < bytes.len() && bytes[i].is_ascii_digit() {
                    i += 1;
                }
                Token::Float(source[start..i].parse::<f64>().unwrap().to_bits())
            } else {
                Token::Integer(source[start..i].parse::<i64>().unwrap())
            }
        } else if c == b'\'' || c == b'"' {
            i += 1;
            while i < bytes.len() && bytes[i] != c {
                i += 1;
            }
            i += 1;
            Token::String(source[start + 1..i - 1].to_string())
        } else {
            let two = if i + 1 < bytes.len() { &source[i..i + 2] } else { "" };
            let (token, width) = match two {
                "==" => (Token::EqualEqual, 2),
                "+=" => (Token::PlusEqual, 2),
                "*=" => (Token::StarEqual, 2),
                _ => (
                    match c {
                        b'=' => Token::Assign,
                        b'+' => Token::Plus,
                        b'-' => Token::Minus,
                        b'*' => Token::Star,
                        b'/' => Token::Slash,
                        b'%' => Token::Percent,
                        b'<' => Token::Less,
                        b';' => Token::Semicolon,
                        b',' => Token::Comma,
                        b'.' => Token::Dot,
                        b'(' => Token::LParen,
                        b')' => Token::RParen,
                        b'[' => Token::LBracket,
                        b']' => Token::RBracket,
                        b'{' => Token::LBrace,
                        b'}' => Token::RBrace,
                        b':' => Token::Colon,
                        _ => Token::Invalid,
                    },
                    1,
                ),
            };
            i += width;
            token
        };
        tokens.push(Lexeme { token, start, end: i });
    }
    tokens
}

fn compile(source: &str) -> Option<Chunk> {
    let tokens = lex(source);
    Compiler::compile(source, &tokens)
}

/// The opcodes of the code, instruction by instruction.
fn opcodes(chunk: &Chunk) -> Vec<OpCode> {
    let mut ops = Vec::new();
    let mut i = 0;
    while i < chunk.code.len() {
        let op = OpCode::try_from_byte(chunk.code[i]).expect("valid opcode");
        ops.push(op);
        i += 1 + op.operand_width();
    }
    ops
}

#[test]
fn compile_handles_stray_semicolons() {
    let chunk = compile(";;;").expect("Expected chunk");
    assert_eq!(opcodes(&chunk), vec![OpCode::OpReturn]);
}

#[test]
fn compile_skips_unknown_tokens() {
    assert!(compile("@").is_none());
}

#[test]
fn compile_fails_on_several_unknown_tokens() {
    assert!(compile("@ @ @").is_none());
}

#[test]
fn compile_emits_add_and_pop_for_expression_statement() {
    let chunk = compile("1 + 2").expect("Expected chunk");
    assert_eq!(
        opcodes(&chunk),
        vec![OpCode::OpConstant, OpCode::OpConstant, OpCode::OpAdd, OpCode::OpPop, OpCode::OpReturn]
    );
    assert!(matches!(chunk.constants[0], Constant::Integer(1)));
    assert!(matches!(chunk.constants[1], Constant::Integer(2)));
}

#[test]
fn compile_folds_operators_left_to_right() {
    let chunk = compile("1 + 2 * 3").expect("Expected chunk");
    assert_eq!(
        chunk.code,
        vec![
            OpCode::OpConstant as u8,
            0,
            OpCode::OpConstant as u8,
            1,
            OpCode::OpAdd as u8,
            OpCode::OpConstant as u8,
            2,
            OpCode::OpMultiply as u8,
            OpCode::OpPop as u8,
            OpCode::OpReturn as u8
        ]
    );
}

#[test]
fn compile_function_definition_emits_function_object() {
    let chunk = compile("def add(a, b): return a + b").expect("Expected chunk");
    assert!(chunk
        .constants
        .iter()
        .any(|value| matches!(value, Constant::Function(func) if func.name == "add" && func.arity == 2)));
    assert!(opcodes(&chunk).contains(&OpCode::OpDefineGlobal));
}

#[test]
fn compile_refuses_function_without_body() {
    assert!(compile("def f():").is_none());
}

#[test]
fn compile_refuses_return_outside_function() {
    assert!(compile("return 1").is_none());
}

#[test]
fn compile_handles_index_add_assign() {
    let source = "counts = {'a': 1}; counts['a'] += 2";
    let chunk = compile(source).expect("Expected chunk");
    let ops = opcodes(&chunk);
    assert!(ops.iter().any(|op| matches!(op, OpCode::OpSetIndex)));
    assert!(ops.iter().any(|op| matches!(op, OpCode::OpAdd)));
    assert!(ops.iter().any(|op| matches!(op, OpCode::OpSwap)));
}

#[test]
fn compile_handles_unary_minus() {
    let chunk = compile("print(-5)").expect("Expected chunk");
    let ops = opcodes(&chunk);
    assert!(ops.iter().any(|op| matches!(op, OpCode::OpSubtract)));
    assert!(compile("-").is_none());
    assert!(compile("-@").is_none());
}

#[test]
fn compile_errors_on_invalid_append_on_indexed_value() {
    assert!(compile("items = [[1, 2]]; items[0].append(3)").is_none());
}

#[test]
fn compile_errors_on_unknown_method() {
    assert!(compile("items = [1, 2]; items.unknown()").is_none());
}

#[test]
fn compile_successful_returns_chunk_with_return() {
    let chunk = compile("x = 1").expect("Expected chunk");
    assert!(chunk.code.last() == Some(&(OpCode::OpReturn as u8)));
}

#[test]
fn compile_top_level_assignment_defines_global_after_value() {
    let chunk = compile("x = 1 + 2").expect("Expected chunk");
    assert_eq!(
        chunk.code,
        vec![
            OpCode::OpConstant as u8,
            1,
            OpCode::OpConstant as u8,
            2,
            OpCode::OpAdd as u8,
            OpCode::OpDefineGlobal as u8,
            0,
            OpCode::OpReturn as u8
        ]
    );
    assert!(matches!(&chunk.constants[0], Constant::String(s) if s == "x"));
}

#[test]
fn compile_list_comprehension_loops_and_reads_result() {
    let chunk = compile("[i * 2 for i in [1, 2]]").expect("Expected chunk");
    let ops = opcodes(&chunk);
    assert!(ops.contains(&OpCode::OpIterNext));
    assert!(ops.contains(&OpCode::OpLoop));
    assert_eq!(ops[ops.len() - 3], OpCode::OpGetGlobal);
    assert_eq!(ops[ops.len() - 2], OpCode::OpPop);
}

#[test]
fn compile_function_with_inline_expression_body() {
    let chunk = compile("def f(): 1 + 2").expect("Expected chunk");
    match &chunk.constants[0] {
        Constant::Function(func) => {
            assert_eq!(func.name, "f");
            assert_eq!(func.arity, 0);
            assert_eq!(*func.chunk.code.last().unwrap(), OpCode::OpReturn as u8);
        }
        _ => panic!("expected a function prototype"),
    }
    assert_eq!(
        chunk.code,
        vec![
            OpCode::OpMakeFunction as u8,
            0,
            OpCode::OpDefineGlobal as u8,
            1,
            OpCode::OpReturn as u8
        ]
    );
}

#[test]
fn compile_handles_print_with_multiple_arguments() {
    let chunk = compile("print('a', 'b')").expect("Expected chunk");
    assert_eq!(
        opcodes(&chunk),
        vec![
            OpCode::OpConstant,
            OpCode::OpPrintSpaced,
            OpCode::OpConstant,
            OpCode::OpPrint,
            OpCode::OpPrintln,
            OpCode::OpReturn
        ]
    );
    assert_eq!(chunk.constants.len(), 2);
    assert!(matches!(&chunk.constants[0], Constant::String(s) if s == "a"));
    assert!(matches!(&chunk.constants[1], Constant::String(s) if s == "b"));
}

#[test]
fn compile_identifier_expression_uses_get_global() {
    let chunk = compile("foo").expect("Expected chunk");
    assert_eq!(
        chunk.code,
        vec![OpCode::OpGetGlobal as u8, 0, OpCode::OpPop as u8, OpCode::OpReturn as u8]
    );
}

#[test]
fn compile_handles_dict_literal_with_duplicate_keys() {
    let chunk = compile("{'a': 1, 'a': 2}").expect("Expected chunk");
    if let Constant::Dict(entries) = &chunk.constants[0] {
        assert_eq!(entries.len(), 1);
        assert!(matches!(entries[0].1, Constant::Integer(2)));
    } else {
        panic!("Expected dict constant");
    }
}

#[test]
fn compile_errors_on_malformed_unary_minus() {
    assert!(compile("-").is_none());
}

#[test]
fn compile_method_calls_emit_their_instruction() {
    let lower = compile("'Ab'.lower()").expect("Expected chunk");
    assert_eq!(
        lower.code,
        vec![
            OpCode::OpConstant as u8,
            0,
            OpCode::OpStrLower as u8,
            OpCode::OpPop as u8,
            OpCode::OpReturn as u8
        ]
    );
    let alnum = compile("'Ab'.isalnum()").expect("Expected chunk");
    assert_eq!(alnum.code[2], OpCode::OpStrIsAlnum as u8);
}

#[test]
fn compile_call_and_index_emit_their_instruction() {
    let call = compile("f(1)").expect("Expected chunk");
    assert_eq!(
        call.code,
        vec![
            OpCode::OpGetGlobal as u8,
            0,
            OpCode::OpConstant as u8,
            1,
            OpCode::OpCall as u8,
            1,
            OpCode::OpPop as u8,
            OpCode::OpReturn as u8
        ]
    );
    let index = compile("items[0]").expect("Expected chunk");
    assert_eq!(
        index.code,
        vec![
            OpCode::OpGetGlobal as u8,
            0,
            OpCode::OpConstant as u8,
            1,
            OpCode::OpIndex as u8,
            OpCode::OpPop as u8,
            OpCode::OpReturn as u8
        ]
    );
}

#[test]
fn compile_add_assign_loads_computes_and_stores() {
    let chunk = compile("x += 2").expect("Expected chunk");
    assert_eq!(
        chunk.code,
        vec![
            OpCode::OpGetGlobal as u8,
            0,
            OpCode::OpConstant as u8,
            1,
            OpCode::OpAdd as u8,
            OpCode::OpSetGlobal as u8,
            0,
            OpCode::OpPop as u8,
            OpCode::OpReturn as u8
        ]
    );
    let times = compile("x *= 2").expect("Expected chunk");
    assert_eq!(times.code[4], OpCode::OpMultiply as u8);
}

#[test]
fn compile_append_on_global_stores_list_back() {
    let chunk = compile("items.append(3)").expect("Expected chunk");
    assert_eq!(
        chunk.code,
        vec![
            OpCode::OpGetGlobal as u8,
            0,
            OpCode::OpConstant as u8,
            1,
            OpCode::OpAppend as u8,
            OpCode::OpSetGlobal as u8,
            0,
            OpCode::OpPop as u8,
            OpCode::OpReturn as u8
        ]
    );
}

#[test]
fn compile_function_body_is_compiled_into_the_prototype() {
    let chunk = compile("def f(): 1 + 2").expect("Expected chunk");
    match &chunk.constants[0] {
        Constant::Function(func) => {
            assert_eq!(
                func.chunk.code,
                vec![
                    OpCode::OpConstant as u8,
                    0,
                    OpCode::OpConstant as u8,
                    1,
                    OpCode::OpAdd as u8,
                    OpCode::OpPop as u8,
                    OpCode::OpReturn as u8
                ]
            );
            assert!(matches!(func.chunk.constants[0], Constant::Integer(1)));
            assert!(matches!(func.chunk.constants[1], Constant::Integer(2)));
        }
        _ => panic!("expected a function prototype"),
    }
}

#[test]
fn compile_negation_subtracts_from_zero() {
    let chunk = compile("print(-5)").expect("Expected chunk");
    assert_eq!(
        chunk.code,
        vec![
            OpCode::OpConstant as u8,
            0,
            OpCode::OpConstant as u8,
            1,
            OpCode::OpSubtract as u8,
            OpCode::OpPrint as u8,
            OpCode::OpPrintln as u8,
            OpCode::OpReturn as u8
        ]
    );
    assert!(matches!(chunk.constants[0], Constant::Integer(0)));
    assert!(matches!(chunk.constants[1], Constant::Integer(5)));
}

#[test]
fn compile_comprehension_with_filter_tests_before_appending() {
    let chunk = compile("[x for x in [1, 2] if x]").expect("Expected chunk");
    let ops = opcodes(&chunk);
    let jump = ops.iter().position(|op| *op == OpCode::OpJumpIfFalse).expect("filter jump");
    let append = ops.iter().position(|op| *op == OpCode::OpAppend).expect("append");
    assert!(jump < append);
}

#[test]
fn compile_function_with_parameters_and_inline_body() {
    let chunk = compile("def add(a, b): 1 + 2").expect("Expected chunk");
    match &chunk.constants[0] {
        Constant::Function(func) => {
            assert_eq!(func.name, "add");
            assert_eq!(func.arity, 2);
        }
        _ => panic!("expected a function prototype"),
    }
}
