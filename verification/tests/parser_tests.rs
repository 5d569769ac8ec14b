use rust_whitespace::Instruction;
use rust_whitespace::Token;
use rust_whitespace::parser::ParseErrorKind;
use rust_whitespace::parser::encode_number;
use rust_whitespace::parser::next_token;
use rust_whitespace::parser::parse;

#[test]
fn test_lex_simple() {
    let input = "  \t\n";
    let src = input.as_bytes();
    let mut pos: usize = 0;
    assert_eq!(Some(Token::Space), next_token(src, &mut pos));
    assert_eq!(Some(Token::Space), next_token(src, &mut pos));
    assert_eq!(Some(Token::Tab), next_token(src, &mut pos));
    assert_eq!(Some(Token::LineFeed), next_token(src, &mut pos));
    assert_eq!(None, next_token(src, &mut pos));
    assert_eq!(None, next_token(src, &mut pos));
}

#[test]
fn test_lex_skips_comments() {
    let plain = "  \t\n";
    let noisy = "a b! c\txyz\nq";
    let mut tokens_plain = Vec::new();
    let mut pos: usize = 0;
    while let Some(t) = next_token(plain.as_bytes(), &mut pos) {
        tokens_plain.push(t);
    }
    let mut tokens_noisy = Vec::new();
    let mut pos2: usize = 0;
    while let Some(t) = next_token(noisy.as_bytes(), &mut pos2) {
        tokens_noisy.push(t);
    }
    assert_eq!(tokens_plain, tokens_noisy);
}

#[test]
fn test_parse_hello_world() {
    let codes: [i64; 12] = [9, 83, 27, 27, 123, 13, 1, 119, 123, 39, 27, 19];
    let mut source: Vec<u8> = Vec::new();
    for c in codes.iter() {
        source.push(32);
        source.push(32);
        source.extend_from_slice(&encode_number(*c));
        source.extend_from_slice(&[9, 10, 32, 32]);
    }
    source.extend_from_slice(&[10, 10, 10]);
    let program = parse(&source);
    assert_eq!(
        Ok(vec![
            Instruction::PushNrOnStack(9),
            Instruction::OutputChar,
            Instruction::PushNrOnStack(83),
            Instruction::OutputChar,
            Instruction::PushNrOnStack(27),
            Instruction::OutputChar,
            Instruction::PushNrOnStack(27),
            Instruction::OutputChar,
            Instruction::PushNrOnStack(123),
            Instruction::OutputChar,
            Instruction::PushNrOnStack(13),
            Instruction::OutputChar,
            Instruction::PushNrOnStack(1),
            Instruction::OutputChar,
            Instruction::PushNrOnStack(119),
            Instruction::OutputChar,
            Instruction::PushNrOnStack(123),
            Instruction::OutputChar,
            Instruction::PushNrOnStack(39),
            Instruction::OutputChar,
            Instruction::PushNrOnStack(27),
            Instruction::OutputChar,
            Instruction::PushNrOnStack(19),
            Instruction::OutputChar,
            Instruction::End,
        ]),
        program
    );
}

#[test]
fn test_number_round_trip() {
    let samples: [i64; 10] = [
        0,
        1,
        -1,
        42,
        -42,
        4611686018427387904,
        4611686018427387903,
        -4611686018427387904,
        i64::MAX,
        i64::MIN,
    ];
    for n in samples.iter() {
        let mut source: Vec<u8> = Vec::new();
        source.push(32);
        source.push(32);
        source.extend_from_slice(&encode_number(*n));
        source.extend_from_slice(&[10, 10, 10]);
        let program = parse(&source).unwrap();
        assert_eq!(
            vec![Instruction::PushNrOnStack(*n), Instruction::End],
            program
        );
    }
}

#[test]
fn test_encode_number_exact_bytes() {
    // 3 is two one-bits, least significant first: space sign, tab, tab,
    // line-feed terminator
    assert_eq!(vec![32u8, 9, 9, 10], encode_number(3));
    // -5 is 101 in binary: tab sign, then bits 1,0,1 least significant first
    assert_eq!(vec![9u8, 9, 32, 9, 10], encode_number(-5));
    // zero has an empty bit string
    assert_eq!(vec![32u8, 10], encode_number(0));
}

#[test]
fn test_parse_empty_and_comments() {
    assert_eq!(Ok(vec![]), parse(b""));
    assert_eq!(Ok(vec![]), parse(b"no-control-characters-at-all!"));
}

#[test]
fn test_parse_unexpected_eof() {
    // a lone space starts a stack instruction and then runs out
    let r = parse(b" ");
    assert!(r.is_err());
    assert_eq!(ParseErrorKind::UnexpectedEof, r.unwrap_err().kind);
    // a push whose number literal has no terminator
    let r2 = parse(b"  \t\t");
    assert!(r2.is_err());
    assert_eq!(ParseErrorKind::UnexpectedEof, r2.unwrap_err().kind);
}

#[test]
fn test_parse_unknown_instruction() {
    // space, tab, tab matches no stack instruction
    let r = parse(b" \t\t");
    assert!(r.is_err());
    assert_eq!(ParseErrorKind::UnknownInstruction, r.unwrap_err().kind);
    // tab, tab selects the heap category and line feed matches nothing there
    let r2 = parse(b"\t\t\n");
    assert!(r2.is_err());
    assert_eq!(ParseErrorKind::UnknownInstruction, r2.unwrap_err().kind);
}

#[test]
fn test_parse_each_category() {
    // arithmetic: tab space then space space is an addition
    assert_eq!(Ok(vec![Instruction::Addition]), parse(b"\t   "));
    assert_eq!(Ok(vec![Instruction::Modulo]), parse(b"\t \t\t"));
    // heap: tab tab then space stores, tab retrieves
    assert_eq!(Ok(vec![Instruction::StoreInHeap]), parse(b"\t\t "));
    assert_eq!(Ok(vec![Instruction::RetreiveFomHeap]), parse(b"\t\t\t"));
    // io: tab line-feed then space space writes a character
    assert_eq!(Ok(vec![Instruction::OutputChar]), parse(b"\t\n  "));
    assert_eq!(Ok(vec![Instruction::ReadNum]), parse(b"\t\n\t\t"));
    // flow control: line-feed tab line-feed returns
    assert_eq!(Ok(vec![Instruction::Ret]), parse(b"\n\t\n"));
    // stack: space line-feed space duplicates the top
    assert_eq!(Ok(vec![Instruction::DuplicateTopStack]), parse(b" \n "));
    // a label literal after a mark: label 2 is sign, bits 0,1, terminator
    assert_eq!(
        Ok(vec![Instruction::MarkLocation(2)]),
        parse(b"\n    \t\n")
    );
}
