use brvm::compiler::{compile, number_texts};
use brvm::lexer::tokenize;
use brvm::parser::parse;
use brvm::lexer::Token;
use brvm::value::{f64_bits_of_count, AddPlan, Value};
use brvm::vm::{execute, is_truthy, ArithOp, Effect, Reply, Vm};

/// Binds every numeric literal spelling of the token stream to the bit
/// pattern of the double it denotes.
fn bind_numbers(tokens: &Vec<brvm::lexer::Token>) -> Vec<(String, u64)> {
    let texts = number_texts(tokens);
    let mut numbers: Vec<(String, u64)> = Vec::new();
    for t in &texts {
        let bits = t.parse::<f64>().unwrap().to_bits();
        numbers.push((t.clone(), bits));
    }
    numbers
}

fn build(src: &str) -> Result<Vec<u8>, String> {
    let tokens = tokenize(src, "test.br").map_err(|e| e.message)?;
    let numbers = bind_numbers(&tokens);
    let program = parse(tokens, "test.br").map_err(|e| e.message)?;
    compile(program, &numbers)
}

/// Runs a loaded machine to completion, performing the double arithmetic,
/// rendering, parsing and input reads it requests.
fn drive(vm: &mut Vm, inputs: &[&str]) -> Result<Vec<String>, String> {
    let mut out: Vec<String> = Vec::new();
    let mut next_input = 0usize;
    let mut reply: Option<Reply> = None;
    let mut steps = 0u64;
    loop {
        steps += 1;
        if steps > 1_000_000 {
            return Err("step limit exceeded".to_string());
        }
        match vm.step(reply.take()) {
            Err(e) => return Err(e.message),
            Ok(Effect::Running) => {}
            Ok(Effect::Halted) => break,
            Ok(Effect::Wrote { text }) => out.push(text),
            Ok(Effect::NeedArith { op, a, b }) => {
                let x = f64::from_bits(a);
                let y = f64::from_bits(b);
                let r = match op {
                    ArithOp::Add => x + y,
                    ArithOp::Sub => x - y,
                    ArithOp::Mul => x * y,
                    ArithOp::Div => x / y,
                };
                reply = Some(Reply::Bits(r.to_bits()));
            }
            Ok(Effect::NeedText { bits }) => {
                reply = Some(Reply::Text(format!("{}", f64::from_bits(bits))));
            }
            Ok(Effect::NeedParsed { text }) => {
                reply = Some(Reply::Parsed(text.parse::<f64>().ok().map(|x| x.to_bits())));
            }
            Ok(Effect::NeedLine) => {
                let line = if next_input < inputs.len() { inputs[next_input] } else { "" };
                next_input += 1;
                reply = Some(Reply::Line(line.to_string()));
            }
        }
    }
    Ok(out)
}

fn run(src: &str, inputs: &[&str]) -> Result<Vec<String>, String> {
    let bytes = build(src)?;
    let mut vm = execute(&bytes).map_err(|e| e.message)?;
    drive(&mut vm, inputs)
}

// ---------------------------------------------------------------------------
// End-to-end scenarios
// ---------------------------------------------------------------------------

#[test]
fn addition_prints_five() {
    let out = run("LOCK IN FANUMTAX aura FR 2 \u{1F480} 3 SAY aura ITS OVER", &[]).unwrap();
    assert_eq!(out, vec!["5".to_string()]);
}

#[test]
fn while_loop_counts() {
    let out = run(
        "LOCK IN FANUMTAX aura FR 0 SKIBIDI aura \u{1F62D} 3 SAY aura FANUMTAX aura FR aura \u{1F480} 1 RIZZUP ITS OVER",
        &[],
    )
    .unwrap();
    assert_eq!(out, vec!["0".to_string(), "1".to_string(), "2".to_string()]);
}

#[test]
fn string_concatenation() {
    let out = run("LOCK IN FANUMTAX aura FR \"ab\" \u{1F480} \"cd\" SAY aura ITS OVER", &[])
        .unwrap();
    assert_eq!(out, vec!["abcd".to_string()]);
}

#[test]
fn user_function_call() {
    let out = run(
        "TRALALERO dbl(x) FANUMTAX y FR x \u{1F480} x RETREAT y TRALALA LOCK IN SAY RING YAS dbl(21) ITS OVER",
        &[],
    )
    .unwrap();
    assert_eq!(out, vec!["42".to_string()]);
}

#[test]
fn division_by_zero_fails() {
    let err = run("LOCK IN FANUMTAX aura FR 1 \u{1F6A1} 0 ITS OVER", &[]).unwrap_err();
    assert!(err.contains("division by zero"));
}

#[test]
fn if_else_takes_else_branch() {
    let out = run("LOCK IN ONGOD 0 SAY \"a\" NO CAP SAY \"b\" DEADASS ITS OVER", &[]).unwrap();
    assert_eq!(out, vec!["b".to_string()]);
}

#[test]
fn transform_parses_decimal() {
    let out = run("LOCK IN SAY TRANSFORM(\"3.5\") ITS OVER", &[]).unwrap();
    assert_eq!(out, vec!["3.5".to_string()]);
}

#[test]
fn rizzed_counts_scalars_not_bytes() {
    let out = run("LOCK IN SAY RIZZED(\"h\u{e9}llo\") ITS OVER", &[]).unwrap();
    assert_eq!(out, vec!["5".to_string()]);
}

#[test]
fn touchy_reads_input() {
    let out = run("LOCK IN SAY TOUCHY() ITS OVER", &["hi there"]).unwrap();
    assert_eq!(out, vec!["hi there".to_string()]);
}

#[test]
fn deterministic_output_over_inputs() {
    let src = "LOCK IN FANUMTAX aura FR TOUCHY() SAY aura \u{1F480} \"!\" SAY TOUCHY() ITS OVER";
    let a = run(src, &["x", "y"]).unwrap();
    let b = run(src, &["x", "y"]).unwrap();
    assert_eq!(a, b);
    assert_eq!(a, vec!["x!".to_string(), "y".to_string()]);
}

#[test]
fn string_number_coercion_both_sides() {
    let out = run("LOCK IN SAY \"n=\" \u{1F480} 2 SAY 2 \u{1F480} \"=n\" ITS OVER", &[]).unwrap();
    assert_eq!(out, vec!["n=2".to_string(), "2=n".to_string()]);
}

#[test]
fn precedence_multiplication_binds_tighter() {
    let out = run("LOCK IN SAY 1 \u{1F480} 2 \u{1F60F} 3 SAY 8 \u{1F62D} 4 \u{1F62D} 2 ITS OVER", &[])
        .unwrap();
    assert_eq!(out, vec!["7".to_string(), "2".to_string()]);
}

#[test]
fn comments_and_escapes() {
    let out = run(
        "LOCK IN \u{1F595} nothing here\n SAY \"a\\nb\\t\\\"\\\\\" ITS OVER",
        &[],
    )
    .unwrap();
    assert_eq!(out, vec!["a\nb\t\"\\".to_string()]);
}

#[test]
fn while_inside_function_body() {
    let out = run(
        "TRALALERO count(x) FANUMTAX i FR 0 SKIBIDI i \u{1F62D} x FANUMTAX i FR i \u{1F480} 1 RIZZUP RETREAT i TRALALA LOCK IN SAY RING YAS count(3) ITS OVER",
        &[],
    )
    .unwrap();
    assert_eq!(out, vec!["3".to_string()]);
}

#[test]
fn retreat_in_main_fails_at_runtime() {
    let err = run("LOCK IN RETREAT 1 ITS OVER", &[]).unwrap_err();
    assert!(err.contains("return outside of function"));
}

#[test]
fn default_return_is_empty_string() {
    let out = run(
        "TRALALERO noop() FANUMTAX z FR 1 TRALALA LOCK IN SAY \"got \" \u{1F480} RING YAS noop() ITS OVER",
        &[],
    )
    .unwrap();
    assert_eq!(out, vec!["got ".to_string()]);
}

#[test]
fn value_stack_empty_after_main() {
    let bytes = build("LOCK IN FANUMTAX aura FR 1 SAY aura ITS OVER").unwrap();
    let mut vm = execute(&bytes).unwrap();
    drive(&mut vm, &[]).unwrap();
    assert!(vm.stack.is_empty());
    assert!(vm.call_stack.is_empty());
}

// ---------------------------------------------------------------------------
// Compile-time errors
// ---------------------------------------------------------------------------

#[test]
fn unknown_braincell_in_main() {
    let err = build("LOCK IN FANUMTAX bogus FR 1 ITS OVER").unwrap_err();
    assert!(err.contains("unknown braincell: bogus"));
}

#[test]
fn undefined_function_call() {
    let err = build("LOCK IN SAY RING YAS nosuch(1) ITS OVER").unwrap_err();
    assert!(err.contains("undefined function: nosuch"));
}

#[test]
fn transform_requires_argument() {
    let err = build("LOCK IN SAY TRANSFORM() ITS OVER").unwrap_err();
    assert!(err.contains("TRANSFORM requires argument"));
}

#[test]
fn transform_of_bad_text_fails() {
    let err = run("LOCK IN SAY TRANSFORM(\"zzz\") ITS OVER", &[]).unwrap_err();
    assert!(err.contains("TRANSFORM: invalid number string"));
}

#[test]
fn lexer_rejects_stray_character() {
    let e = tokenize("LOCK IN # ITS OVER", "f.br").unwrap_err();
    assert!(e.message.contains("unexpected character: #"));
}

#[test]
fn lexer_rejects_unterminated_string() {
    let e = tokenize("LOCK IN SAY \"oops ITS OVER", "f.br").unwrap_err();
    assert!(e.message.contains("unterminated string"));
}

#[test]
fn lexer_rejects_unknown_escape() {
    let e = tokenize("LOCK IN SAY \"a\\qb\" ITS OVER", "f.br").unwrap_err();
    assert!(e.message.contains("unknown escape sequence"));
}

#[test]
fn parser_requires_main_block() {
    let toks = tokenize("SAY 1", "f.br").unwrap();
    let e = parse(toks, "f.br").unwrap_err();
    assert!(e.message.contains("program must start with LOCK IN"));
}

#[test]
fn parser_rejects_trailing_tokens() {
    let toks = tokenize("LOCK IN ITS OVER SAY", "f.br").unwrap();
    let e = parse(toks, "f.br").unwrap_err();
    assert!(e.message.contains("unexpected token after ITS OVER"));
}

// ---------------------------------------------------------------------------
// Artifact shape
// ---------------------------------------------------------------------------

#[test]
fn constant_pool_interns_by_bit_pattern() {
    let bytes = build(
        "LOCK IN FANUMTAX aura FR 1.0 FANUMTAX peak FR 1.00 FANUMTAX goon FR \"a\" FANUMTAX mog FR \"a\" FANUMTAX npc FR 0.5 ITS OVER",
    )
    .unwrap();
    let vm = execute(&bytes).unwrap();
    let mut ones = 0;
    let mut halves = 0;
    let mut a_strings = 0;
    for c in &vm.constants {
        match c {
            Value::Num(b) => {
                if *b == 1f64.to_bits() {
                    ones += 1;
                }
                if *b == 0.5f64.to_bits() {
                    halves += 1;
                }
            }
            Value::Str(s) => {
                if s == "a" {
                    a_strings += 1;
                }
            }
        }
    }
    assert_eq!(ones, 1);
    assert_eq!(halves, 1);
    assert_eq!(a_strings, 1);
}

#[test]
fn function_table_in_declaration_order() {
    let bytes = build(
        "TRALALERO f(x) RETREAT x TRALALA TRALALERO g(x, y) RETREAT x TRALALA LOCK IN SAY RING YAS f(1) ITS OVER",
    )
    .unwrap();
    let vm = execute(&bytes).unwrap();
    assert_eq!(vm.functions.len(), 2);
    assert_eq!(vm.functions[0].arity, 1);
    assert_eq!(vm.functions[1].arity, 2);
    match &vm.constants[vm.functions[0].name_const_idx as usize] {
        Value::Str(s) => assert_eq!(s, "f"),
        _ => panic!("function name entry is not a string"),
    }
    match &vm.constants[vm.functions[1].name_const_idx as usize] {
        Value::Str(s) => assert_eq!(s, "g"),
        _ => panic!("function name entry is not a string"),
    }
    let code_len = vm.code.len() as u32;
    assert!(vm.functions[0].code_offset < code_len);
    assert!(vm.functions[1].code_offset < code_len);
    assert!(vm.functions[0].code_offset < vm.functions[1].code_offset);
}

#[test]
fn local_count_covers_params_and_assigned_names() {
    let bytes = build(
        "TRALALERO f(a, b) FANUMTAX c FR a FANUMTAX c FR b RETREAT c TRALALA LOCK IN SAY RING YAS f(1, 2) ITS OVER",
    )
    .unwrap();
    let vm = execute(&bytes).unwrap();
    assert_eq!(vm.functions[0].arity, 2);
    assert_eq!(vm.functions[0].local_count, 3);
    assert!(vm.functions[0].local_count >= vm.functions[0].arity);
}

#[test]
fn loader_rejects_bad_magic() {
    let e = execute(b"XXXX").unwrap_err();
    assert!(e.message.contains("invalid bytecode file"));
}

#[test]
fn loader_rejects_truncated_artifact() {
    let bytes = build("LOCK IN SAY 1 ITS OVER").unwrap();
    let e = execute(&bytes[..bytes.len() - 3]).unwrap_err();
    assert!(e.message.contains("invalid code data"));
}

#[test]
fn out_of_range_jump_target_fails() {
    // Hand-build an artifact whose only instruction jumps past the end.
    let mut art: Vec<u8> = Vec::new();
    art.extend_from_slice(b"BRBC");
    art.extend_from_slice(&4u16.to_le_bytes());
    art.extend_from_slice(&0u16.to_le_bytes());
    art.extend_from_slice(&0u32.to_le_bytes()); // constants
    art.extend_from_slice(&0u32.to_le_bytes()); // functions
    art.extend_from_slice(&5u32.to_le_bytes()); // code size
    art.push(0x0b);
    art.extend_from_slice(&99u32.to_le_bytes());
    let mut vm = execute(&art).unwrap();
    let err = drive(&mut vm, &[]).unwrap_err();
    assert!(err.contains("jump target out of bounds"));
}

// ---------------------------------------------------------------------------
// Value model
// ---------------------------------------------------------------------------

#[test]
fn count_bits_match_hardware_conversion() {
    for n in [0u64, 1, 2, 3, 5, 7, 12, 100, 1023, 4096, (1 << 52) - 1, 1 << 52, (1 << 53) - 1,
        1 << 53, (1 << 53) + 1, (1 << 53) + 3, 123_456_789_012_345_678, u64::MAX, u64::MAX - 1]
    {
        assert_eq!(f64_bits_of_count(n), (n as f64).to_bits(), "count {n}");
    }
}

#[test]
fn division_rejects_both_zero_signs() {
    let one = Value::Num(1f64.to_bits());
    assert!(one.div(&Value::Num(0f64.to_bits())).is_err());
    assert!(one.div(&Value::Num((-0f64).to_bits())).is_err());
    assert!(one.div(&Value::Num(f64::NAN.to_bits())).is_ok());
    let err = one.div(&Value::Str("x".to_string())).unwrap_err();
    assert_eq!(err, "division requires both operands to be numbers");
}

#[test]
fn subtraction_requires_numbers() {
    let err = Value::Str("a".to_string()).sub(&Value::Num(0)).unwrap_err();
    assert_eq!(err, "subtraction requires both operands to be numbers");
    let err = Value::Num(0).mul(&Value::Str("a".to_string())).unwrap_err();
    assert_eq!(err, "multiplication requires both operands to be numbers");
}

#[test]
fn addition_plans_cover_all_shapes() {
    let n = Value::Num(2f64.to_bits());
    let s = Value::Str("x".to_string());
    assert!(matches!(n.add(&n), AddPlan::Bits { .. }));
    assert!(matches!(s.add(&s), AddPlan::Joined(_)));
    assert!(matches!(n.add(&s), AddPlan::FmtLeft { .. }));
    assert!(matches!(s.add(&n), AddPlan::FmtRight { .. }));
}

#[test]
fn truthiness_of_values() {
    assert!(!is_truthy(&Value::Num(0f64.to_bits())));
    assert!(!is_truthy(&Value::Num((-0f64).to_bits())));
    assert!(is_truthy(&Value::Num(f64::NAN.to_bits())));
    assert!(is_truthy(&Value::Num(2f64.to_bits())));
    assert!(!is_truthy(&Value::Str(String::new())));
    assert!(is_truthy(&Value::Str(" ".to_string())));
}

#[test]
fn non_ascii_string_constants_round_trip() {
    let out = run("LOCK IN SAY \"caf\u{e9} \u{2603}\" ITS OVER", &[]).unwrap();
    assert_eq!(out, vec!["caf\u{e9} \u{2603}".to_string()]);
}

#[test]
fn number_texts_lists_literal_spellings() {
    let toks = tokenize("LOCK IN SAY 1.5 \u{1F480} 2 ITS OVER", "f.br").unwrap();
    let texts = number_texts(&toks);
    assert_eq!(texts, vec!["1.5".to_string(), "2".to_string()]);
}

// ---------------------------------------------------------------------------
// Machine-level edges
// ---------------------------------------------------------------------------

fn artifact(consts: &[(u8, Vec<u8>)], funcs: &[(u32, u16, u16, u32)], code: &[u8]) -> Vec<u8> {
    let mut art: Vec<u8> = Vec::new();
    art.extend_from_slice(b"BRBC");
    art.extend_from_slice(&4u16.to_le_bytes());
    art.extend_from_slice(&0u16.to_le_bytes());
    art.extend_from_slice(&(consts.len() as u32).to_le_bytes());
    for (tag, payload) in consts {
        art.push(*tag);
        art.extend_from_slice(payload);
    }
    art.extend_from_slice(&(funcs.len() as u32).to_le_bytes());
    for (name_idx, arity, locals, offset) in funcs {
        art.extend_from_slice(&name_idx.to_le_bytes());
        art.extend_from_slice(&arity.to_le_bytes());
        art.extend_from_slice(&locals.to_le_bytes());
        art.extend_from_slice(&offset.to_le_bytes());
    }
    art.extend_from_slice(&(code.len() as u32).to_le_bytes());
    art.extend_from_slice(code);
    art
}

fn str_const(text: &str) -> (u8, Vec<u8>) {
    let mut payload = (text.len() as u32).to_le_bytes().to_vec();
    payload.extend_from_slice(text.as_bytes());
    (2, payload)
}

#[test]
fn version_three_artifact_loads_without_function_table() {
    let mut art: Vec<u8> = Vec::new();
    art.extend_from_slice(b"BRBC");
    art.extend_from_slice(&3u16.to_le_bytes());
    art.extend_from_slice(&0u16.to_le_bytes());
    art.extend_from_slice(&0u32.to_le_bytes()); // constants
    art.extend_from_slice(&1u32.to_le_bytes()); // code size
    art.push(0x01);
    let mut vm = execute(&art).unwrap();
    assert!(vm.functions.is_empty());
    assert_eq!(drive(&mut vm, &[]).unwrap(), Vec::<String>::new());
}

#[test]
fn self_recursion_overflows_the_call_stack() {
    // A function whose body calls its own index, which no source program
    // can produce: the call stack cap must stop it.
    let main_code: &[u8] = &[0x0d, 2, 0, 0, 0, 0x01];
    let mut code = main_code.to_vec();
    code.extend_from_slice(&[0x0d, 2, 0, 0, 0]); // function body at offset 6
    let art = artifact(&[str_const("f")], &[(0, 0, 0, 6)], &code);
    let mut vm = execute(&art).unwrap();
    let err = drive(&mut vm, &[]).unwrap_err();
    assert!(err.contains("call stack overflow"));
}

#[test]
fn unknown_opcode_is_reported_in_hex() {
    let art = artifact(&[], &[], &[0xff]);
    let mut vm = execute(&art).unwrap();
    let err = drive(&mut vm, &[]).unwrap_err();
    assert!(err.contains("unknown opcode: 0xff"));
}

#[test]
fn constant_index_out_of_bounds() {
    let art = artifact(&[], &[], &[0x02, 9, 0, 0, 0]);
    let mut vm = execute(&art).unwrap();
    let err = drive(&mut vm, &[]).unwrap_err();
    assert!(err.contains("constant index out of bounds"));
}

#[test]
fn reading_an_unset_braincell_fails() {
    let err = run("LOCK IN SAY peak ITS OVER", &[]).unwrap_err();
    assert!(err.contains("unset braincell: peak"));
}

#[test]
fn self_call_is_undefined_at_compile_time() {
    // A function cannot call itself: its name is only recorded once its
    // body is fully lowered.
    let err = build("TRALALERO f(x) RETREAT RING YAS f(x) TRALALA LOCK IN SAY 1 ITS OVER")
        .unwrap_err();
    assert!(err.contains("undefined function: f"));
}

#[test]
fn diddle_copies_like_assignment() {
    let out = run(
        "LOCK IN FANUMTAX aura FR 3 DIDDLE peak FR aura \u{1F60F} 2 SAY peak ITS OVER",
        &[],
    )
    .unwrap();
    assert_eq!(out, vec!["6".to_string()]);
}

#[test]
fn nested_if_inside_while() {
    let out = run(
        "LOCK IN FANUMTAX aura FR 0 SKIBIDI aura \u{1F62D} 4 ONGOD aura \u{1F60F} aura \u{1F62D} aura SAY aura NO CAP SAY \"z\" DEADASS FANUMTAX aura FR aura \u{1F480} 1 RIZZUP ITS OVER",
        &[],
    )
    .unwrap();
    assert_eq!(
        out,
        vec!["z".to_string(), "z".to_string(), "2".to_string(), "3".to_string()]
    );
}

#[test]
fn lexer_token_kinds() {
    let toks = tokenize("LOCK IN FANUMTAX aura FR 1.5 \u{1F480} \"hi\" ro ITS OVER", "f.br")
        .unwrap();
    assert!(matches!(toks[0], Token::Lock));
    assert!(matches!(toks[1], Token::In));
    assert!(matches!(toks[2], Token::Fanumtax));
    assert!(matches!(toks[3], Token::Braincell(0)));
    assert!(matches!(toks[4], Token::Fr));
    assert!(matches!(&toks[5], Token::Num(t) if t == "1.5"));
    assert!(matches!(toks[6], Token::Add));
    assert!(matches!(&toks[7], Token::Str(t) if t == "hi"));
    assert!(matches!(&toks[8], Token::Identifier(t) if t == "ro"));
    assert!(matches!(toks[9], Token::Its));
    assert!(matches!(toks[10], Token::Over));
    assert!(matches!(toks[11], Token::Eof));
    assert_eq!(toks.len(), 12);
}
