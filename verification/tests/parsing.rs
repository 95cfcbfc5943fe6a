use brainfuck::parser::Error;
use brainfuck::parser::Instruction;
use brainfuck::parser::Parser;

#[test]
fn parse_single_increment() {
    let prog = Parser::new(b"+".to_vec()).parse().unwrap();
    assert_eq!(prog, vec![Instruction::IncrementValue]);
}

#[test]
fn parse_loop_with_body() {
    let prog = Parser::new(b"[+]".to_vec()).parse().unwrap();
    assert_eq!(prog, vec![Instruction::Loop(vec![Instruction::IncrementValue])]);
}

#[test]
fn parse_ignores_comment_bytes() {
    let with_comments = Parser::new(b"a+b".to_vec()).parse().unwrap();
    let bare = Parser::new(b"+".to_vec()).parse().unwrap();
    assert_eq!(with_comments, bare);
}

#[test]
fn parse_ignores_comment_bytes_inside_loops() {
    let with_comments = Parser::new(b"x[ a + b ]y".to_vec()).parse().unwrap();
    let bare = Parser::new(b"[+]".to_vec()).parse().unwrap();
    assert_eq!(with_comments, bare);
}

#[test]
fn parse_unterminated_loop_fails() {
    let err = Parser::new(b"[".to_vec()).parse().unwrap_err();
    assert_eq!(err, Error::UnexpectedEof);
}

#[test]
fn parse_unmatched_close_bracket_fails() {
    let err = Parser::new(b"]".to_vec()).parse().unwrap_err();
    assert_eq!(err, Error::UnexpectedChar(b']'));
}

#[test]
fn parse_nested_unterminated_loop_fails() {
    let err = Parser::new(b"[[]".to_vec()).parse().unwrap_err();
    assert_eq!(err, Error::UnexpectedEof);
}

#[test]
fn parse_trailing_close_bracket_fails() {
    let err = Parser::new(b"[]]".to_vec()).parse().unwrap_err();
    assert_eq!(err, Error::UnexpectedChar(b']'));
}

#[test]
fn parse_empty_source() {
    let prog = Parser::new(Vec::new()).parse().unwrap();
    assert_eq!(prog, Vec::new());
}

#[test]
fn parse_all_leaf_commands() {
    let prog = Parser::new(b"><+-.,".to_vec()).parse().unwrap();
    assert_eq!(
        prog,
        vec![
            Instruction::IncrementPtr,
            Instruction::DecrementPtr,
            Instruction::IncrementValue,
            Instruction::DecrementValue,
            Instruction::Output,
            Instruction::Input,
        ]
    );
}

#[test]
fn parse_nested_loops() {
    let prog = Parser::new(b"[[-]>]".to_vec()).parse().unwrap();
    assert_eq!(
        prog,
        vec![Instruction::Loop(vec![
            Instruction::Loop(vec![Instruction::DecrementValue]),
            Instruction::IncrementPtr,
        ])]
    );
}
