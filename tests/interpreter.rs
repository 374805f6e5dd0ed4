use rusty_lambda::codec::{decode, get_byte_iter, ByteVisitor, DecodeError, Extractor, PrintVisitor};
use rusty_lambda::evaluator::{Evaluator, Flow};
use rusty_lambda::repl::{parse_command, repl_step, ReplAction, ReplCommand, ReplEvent, StepsArg};
use rusty_lambda::executor::{chars_of, Executor};
use rusty_lambda::expr::{Allocator, ExprRef, UnpackedExpr};
use rusty_lambda::messages::{CompilerMessage, LineNumber, Offset};
use rusty_lambda::parser::parse_integer_literal;
use rusty_lambda::printer::{Printer, VariableStyle};
use rusty_lambda::term::Term;
use rusty_lambda::transform::{Replace, Shift};
use std::sync::atomic::{AtomicBool, Ordering};

const PLUS: &str = "plus = \\m n f x. m f (n f x);";

fn var(i: u64) -> Term {
    Term::Variable(i)
}

fn lam(b: Term) -> Term {
    Term::Lambda(Box::new(b))
}

fn app(l: Term, r: Term) -> Term {
    Term::Eval(Box::new(l), Box::new(r))
}

fn church(n: u64) -> Term {
    let mut body = var(1);
    for _ in 0..n {
        body = app(var(2), body);
    }
    lam(lam(body))
}

fn expression(executor: &mut Executor, code: &str) -> ExprRef {
    executor.load_expression(code).expect("expression should load")
}

fn text_bits(executor: &Executor, h: ExprRef, zero: &str, one: &str) -> String {
    let mut out = String::new();
    PrintVisitor::new(zero, one).visit(&executor.arena, h, &mut out);
    out
}

fn bits_of(text: &str) -> Vec<bool> {
    text.chars().map(|c| c == '1').collect()
}

#[test]
fn identity_applied_to_variable() {
    let mut ex = Executor::new();
    ex.load_code("y = \\a.a;").unwrap();
    let e = expression(&mut ex, "(\\x.x) y");
    let r = ex.evaluate(e, 1000).unwrap();
    assert_eq!(ex.to_text(r, false), "\\a.a");
}

#[test]
fn church_two_plus_three() {
    let mut ex = Executor::new();
    ex.load_code(PLUS).unwrap();
    let e = expression(&mut ex, "plus 2 3");
    let r = ex.evaluate(e, 1000).unwrap();
    let five = expression(&mut ex, "5");
    assert_eq!(ex.arena.to_term(r), ex.arena.to_term(five));
    assert_eq!(ex.arena.to_term(r), church(5));
    assert_eq!(ex.to_text(r, false), "\\f.\\x.(f (f (f (f (f x)))))");
}

#[test]
fn church_addition_up_to_twenty() {
    let mut ex = Executor::new();
    ex.load_code(PLUS).unwrap();
    for a in 0..=20u64 {
        for b in 0..=20u64 {
            let e = expression(&mut ex, &format!("plus {a} {b}"));
            let mark = ex.mark();
            let r = ex.evaluate(e, 10_000).unwrap();
            assert_eq!(ex.arena.to_term(r), church(a + b), "{a} + {b}");
            ex.release_to(mark);
        }
    }
}

#[test]
fn blc_of_identity() {
    let mut ex = Executor::new();
    let id = expression(&mut ex, "\\x.x");
    assert_eq!(text_bits(&ex, id, "0", "1"), "0010");
    let mut bytes = ByteVisitor::new();
    bytes.visit(&ex.arena, id);
    assert_eq!(bytes.into_bytes(), vec![0x20u8]);
}

#[test]
fn blc_round_trip_of_s_combinator() {
    let mut ex = Executor::new();
    let s = expression(&mut ex, "\\x.\\y.\\z.(x z) (y z)");
    let expected = lam(lam(lam(app(app(var(3), var(1)), app(var(2), var(1))))));
    assert_eq!(ex.arena.to_term(s), expected);
    let text = text_bits(&ex, s, "0", "1");
    let bits = bits_of(&text);
    let mut arena = Allocator::new();
    let back = decode(&mut arena, &bits).unwrap();
    assert_eq!(arena.to_term(back), expected);
    assert_eq!(rusty_lambda::printer::to_text(&arena, back, false), "\\x1.\\x2.\\x3.((x1 x3) (x2 x3))");

    let mut packer = ByteVisitor::new();
    packer.visit(&ex.arena, s);
    let bytes = packer.into_bytes();
    let unpacked = get_byte_iter(&bytes);
    assert_eq!(unpacked.len(), 8 * bytes.len());
    let mut arena2 = Allocator::new();
    let back2 = decode(&mut arena2, &unpacked).unwrap();
    assert_eq!(arena2.to_term(back2), expected);
}

#[test]
fn cancellation_interrupts_omega() {
    let mut ex = Executor::new();
    let omega = expression(&mut ex, "(\\x. x x) (\\x. x x)");
    let mut evaluator = Evaluator::new();
    let (next, changed) = evaluator.step(&mut ex.arena, omega).unwrap();
    assert!(changed);
    assert_eq!(ex.arena.to_term(next), ex.arena.to_term(omega));
    let abort = AtomicBool::new(false);
    abort.store(true, Ordering::Relaxed);
    let mut again = Evaluator::new();
    assert_eq!(again.evaluate_with_abort(&mut ex.arena, next, &abort), None);
    assert_eq!(again.steps, 0);
    assert_eq!(ex.evaluate_with_abort(omega, &abort), None);
}

#[test]
fn omega_runs_out_of_steps() {
    let mut ex = Executor::new();
    let omega = expression(&mut ex, "(\\x. x x) (\\x. x x)");
    assert_eq!(ex.evaluate(omega, 50), None);
}

#[test]
fn evaluation_without_abort_finishes() {
    let mut ex = Executor::new();
    ex.load_code(PLUS).unwrap();
    let e = expression(&mut ex, "plus 1 1");
    let abort = AtomicBool::new(false);
    let r = ex.evaluate_with_abort(e, &abort).unwrap();
    assert_eq!(ex.arena.to_term(r), church(2));
}

#[test]
fn shadowing_warning() {
    let mut ex = Executor::new();
    ex.load_code("f = \\x. \\x. x;").unwrap();
    let msgs = &ex.messages().messages;
    assert_eq!(msgs.len(), 1);
    assert!(msgs[0].is_warning());
    assert!(!msgs[0].is_error());
    assert_eq!(msgs[0].message(), "parameter x shadows outer parameter of the same name");
    assert_eq!(msgs[0].line_number(), Some(LineNumber::new_with_offset(1, 9)));
    assert!(!ex.messages().has_errors());

    ex.load_code("a = \\u.u; b = \\v.\\w.v;").unwrap();
    let e = expression(&mut ex, "f a b");
    let r = ex.evaluate(e, 1000).unwrap();
    let b = ex.get_global(&"b".to_string()).unwrap();
    assert_eq!(ex.arena.to_term(r), ex.arena.to_term(b));
}

#[test]
fn shadowing_a_global_warns() {
    let mut ex = Executor::new();
    ex.load_code("x = \\a.a;\ng = \\x.x;").unwrap();
    let msgs = &ex.messages().messages;
    assert_eq!(msgs.len(), 1);
    assert_eq!(msgs[0].message(), "parameter x shadows variable of the same name");
    assert_eq!(msgs[0].line_number(), Some(LineNumber::new_with_offset(2, 5)));
}

#[test]
fn unknown_name_is_an_error() {
    let mut ex = Executor::new();
    assert!(ex.load_code("f = \\x. y;").is_err());
    let msgs = &ex.messages().messages;
    assert_eq!(msgs.len(), 1);
    assert!(msgs[0].is_error());
    assert_eq!(msgs[0].message(), "unknown term: y");
}

#[test]
fn duplicate_global_is_an_error() {
    let mut ex = Executor::new();
    assert!(ex.load_code("f = \\x.x;\nf = \\y.y;").is_err());
    let msgs = &ex.messages().messages;
    assert_eq!(msgs.len(), 1);
    assert_eq!(msgs[0].message(), "duplicate variable f");
    assert_eq!(msgs[0].line_number(), Some(LineNumber::new_with_offset(2, 0)));
}

#[test]
fn syntax_error_is_reported() {
    let mut ex = Executor::new();
    assert!(ex.load_code("f = (\\x.x;").is_err());
    assert!(ex.messages().has_errors());
    assert!(ex.load_code("f = \\x.x ?;").is_err());
    assert!(ex.load_expression("\\.x").is_err());
}

#[test]
fn program_returns_expression_statements() {
    let mut ex = Executor::new();
    let exprs = ex.load_code("id = \\x.x; # identity\nid id; id;\n").unwrap();
    assert_eq!(exprs.len(), 2);
    let r = ex.evaluate(exprs[0], 100).unwrap();
    assert_eq!(ex.to_text(r, false), "\\x.x");
}

#[test]
fn statement_without_semicolon() {
    let mut ex = Executor::new();
    assert_eq!(ex.load_statement("k = \\a b. a").unwrap(), None);
    let e = ex.load_statement("k k").unwrap().unwrap();
    let r = ex.evaluate(e, 100).unwrap();
    assert_eq!(ex.arena.to_term(r), lam(lam(lam(var(2)))));
}

#[test]
fn integer_literals() {
    let digits = |s: &str| s.chars().collect::<Vec<char>>();
    assert_eq!(parse_integer_literal(&digits("1_000")), Some(1000));
    assert_eq!(parse_integer_literal(&digits("42")), Some(42));
    assert_eq!(parse_integer_literal(&digits("___")), None);
    assert_eq!(parse_integer_literal(&digits("18446744073709551615")), Some(u64::MAX));
    assert_eq!(parse_integer_literal(&digits("18446744073709551616")), None);
    let mut ex = Executor::new();
    let three = expression(&mut ex, "0_3");
    assert_eq!(ex.arena.to_term(three), church(3));
    let zero = expression(&mut ex, "0");
    assert_eq!(ex.arena.to_term(zero), church(0));
}

#[test]
fn printer_primes_and_styles() {
    let mut ex = Executor::new();
    let e = expression(&mut ex, "\\x.\\x.\\y. x y");
    assert_eq!(ex.to_text(e, false), "\\x.\\x′.\\y.(x′ y)");
    assert_eq!(ex.to_text(e, true), "λx.λx′.λy.(x′ y)");
    let mut out = String::new();
    Printer::new(VariableStyle::Index, false).visit(&ex.arena, e, &mut out);
    assert_eq!(out, "\\x.\\x′.\\y.(2 1)");
    let mut neg = String::new();
    Printer::new(VariableStyle::NegativeIndex, false).visit(&ex.arena, e, &mut neg);
    assert_eq!(neg, "\\x.\\x′.\\y.(-2 -1)");
}

#[test]
fn printer_shows_free_index() {
    let mut arena = Allocator::new();
    let name = arena.intern("x".to_string());
    let free = arena.new_term(3);
    let l = arena.new_lambda(name, free);
    assert_eq!(rusty_lambda::printer::to_text(&arena, l, false), "\\x.3");
}

#[test]
fn decode_errors() {
    let mut arena = Allocator::new();
    assert_eq!(decode(&mut arena, &bits_of("00")), Err(DecodeError::UnexpectedEnd));
    assert_eq!(decode(&mut arena, &bits_of("0")), Err(DecodeError::UnexpectedEnd));
    assert_eq!(decode(&mut arena, &bits_of("0011")), Err(DecodeError::UnexpectedEnd));
    assert_eq!(
        decode(&mut arena, &bits_of("00110")),
        Err(DecodeError::InvalidIndex { index: 2, depth: 1 })
    );
    assert_eq!(decode(&mut arena, &bits_of("10")), Err(DecodeError::InvalidIndex { index: 1, depth: 0 }));
    let ok = decode(&mut arena, &bits_of("0010")).unwrap();
    assert_eq!(arena.to_term(ok), lam(var(1)));
}

#[test]
fn text_alphabets() {
    let mut ex = Executor::new();
    let k = expression(&mut ex, "\\a.\\b.a (b a)");
    let expected = ex.arena.to_term(k);
    for (zero, one) in [("0", "1"), ("a", "b"), ("ab", "ba"), ("\u{ffa0}", "\u{3164}"), ("zz", "o")] {
        let text = text_bits(&ex, k, zero, one);
        let mut extractor = Extractor::new(&chars_of(zero), &chars_of(one), &chars_of(&format!("  {text}\n")));
        let bits = extractor.bits();
        let mut arena = Allocator::new();
        let back = decode(&mut arena, &bits).unwrap();
        assert_eq!(arena.to_term(back), expected, "{zero} {one}");
    }
}

#[test]
fn extractor_prefers_one_on_tie() {
    let mut extractor = Extractor::new(&chars_of("a"), &chars_of("aa"), &chars_of("aa"));
    assert_eq!(extractor.next(), Some(true));
    assert_eq!(extractor.next(), None);
}

#[test]
fn bytes_to_bits() {
    let bits = get_byte_iter(&vec![0x20u8, 0x81]);
    let expected = bits_of("0010000010000001");
    assert_eq!(bits, expected);
}

#[test]
fn shift_identity_and_overflow() {
    let mut ex = Executor::new();
    let e = expression(&mut ex, "\\x. x");
    assert_eq!(Shift::new(1, 5).visit(&mut ex.arena, e), Some(e));
    let mut arena = Allocator::new();
    let v = arena.new_term(3);
    let shifted = Shift::new(1, 2).visit(&mut arena, v).unwrap();
    assert_eq!(arena.to_term(shifted), var(5));
    assert_eq!(Shift::new(4, 2).visit(&mut arena, v), Some(v));
    assert_eq!(Shift::new(1, -3).visit(&mut arena, v), None);
    let big = arena.new_term(0x7fff_ffff_ffff_ffff);
    assert_eq!(Shift::new(1, 1).visit(&mut arena, big), None);
}

#[test]
fn shift_composition_example() {
    let mut arena = Allocator::new();
    let n = arena.intern("x".to_string());
    let v2 = arena.new_term(2);
    let v1 = arena.new_term(1);
    let body = arena.new_eval(v2, v1);
    let l = arena.new_lambda(n, body);
    let once = Shift::new(1, 3).visit(&mut arena, l).unwrap();
    let twice = Shift::new(1, 4).visit(&mut arena, once).unwrap();
    let direct = Shift::new(1, 7).visit(&mut arena, l).unwrap();
    assert_eq!(arena.to_term(twice), arena.to_term(direct));
    assert_eq!(arena.to_term(direct), lam(app(var(9), var(1))));
}

#[test]
fn substitute_identity_and_replacement() {
    let mut arena = Allocator::new();
    let n = arena.intern("x".to_string());
    let v1 = arena.new_term(1);
    let closed = arena.new_lambda(n, v1);
    let replacement = arena.new_term(7);
    let mut replace = Replace::new(&arena, replacement);
    assert_eq!(replace.visit(&mut arena, closed), Some(closed));
    let v2 = arena.new_term(2);
    let body = arena.new_eval(v2, v1);
    let l = arena.new_lambda(n, body);
    let mut replace = Replace::new(&arena, replacement);
    let r = replace.visit(&mut arena, l).unwrap();
    assert_eq!(arena.to_term(r), lam(app(var(8), var(1))));
}

#[test]
fn beta_of_closed_terms_is_closed() {
    let mut ex = Executor::new();
    let e = expression(&mut ex, "(\\f.\\x. f (f x)) (\\y.y)");
    let r = ex.evaluate(e, 100).unwrap();
    assert_eq!(ex.arena.to_term(r), lam(var(1)));
}

#[test]
fn normal_form_is_a_fixpoint() {
    let mut ex = Executor::new();
    ex.load_code(PLUS).unwrap();
    let e = expression(&mut ex, "plus 2 2");
    let n = ex.evaluate(e, 1000).unwrap();
    let again = ex.evaluate(n, 1000).unwrap();
    assert_eq!(again, n);
    let mut evaluator = Evaluator::new();
    assert_eq!(evaluator.step(&mut ex.arena, n), Some((n, false)));
}

#[test]
fn release_keeps_globals() {
    let mut ex = Executor::new();
    ex.load_code(PLUS).unwrap();
    let e = expression(&mut ex, "plus 3 4");
    let mark = ex.mark();
    let r = ex.evaluate(e, 1000).unwrap();
    assert_eq!(ex.arena.to_term(r), church(7));
    ex.release_to(mark);
    assert_eq!(ex.mark(), mark);
    let again = ex.evaluate(e, 1000).unwrap();
    assert_eq!(ex.arena.to_term(again), church(7));
}

#[test]
fn unpack_shapes() {
    let mut arena = Allocator::new();
    let n = arena.intern("p".to_string());
    let v = arena.new_term(1);
    let l = arena.new_lambda(n, v);
    let a = arena.new_eval(l, v);
    assert_eq!(v.unpack(&arena), UnpackedExpr::Term { de_bruijn_index: 1 });
    assert_eq!(l.unpack(&arena), UnpackedExpr::Lambda { parameter_name: n, body: v });
    assert_eq!(a.unpack(&arena), UnpackedExpr::Eval { left: l, right: v });
    assert_eq!(arena.name(n), "p");
}

#[test]
fn line_numbers_and_offsets() {
    assert_eq!(LineNumber::new(4).to_string(), "4");
    assert_eq!(LineNumber::new_with_offset(12, 3).to_string(), "12:3");
    assert_eq!(Offset::from(5usize), Offset(5));
    assert_eq!(usize::from(Offset(9)), 9);
    let m = CompilerMessage::Error { message: "boom".to_string(), line_number: None };
    assert!(m.is_error());
    assert_eq!(m.line_number(), None);
}

#[test]
fn repl_commands() {
    assert_eq!(parse_command(":e"), ReplCommand::Exit);
    assert_eq!(parse_command("  :quit  "), ReplCommand::Exit);
    assert_eq!(parse_command(":he"), ReplCommand::Help);
    assert_eq!(parse_command(":step"), ReplCommand::Steps(StepsArg::Show));
    assert_eq!(parse_command(":steps on"), ReplCommand::Steps(StepsArg::On));
    assert_eq!(parse_command(":st 0"), ReplCommand::Steps(StepsArg::Off));
    assert_eq!(parse_command(":steps on off"), ReplCommand::Steps(StepsArg::Invalid));
    assert_eq!(parse_command(":al"), ReplCommand::All);
    assert_eq!(parse_command(":print  \\x. x  "), ReplCommand::Print("\\x. x".to_string()));
    assert_eq!(parse_command(":lo file.lc"), ReplCommand::Load("file.lc".to_string()));
    assert_eq!(parse_command(":x"), ReplCommand::Code(":x".to_string()));
    assert_eq!(parse_command(":exits"), ReplCommand::Code(":exits".to_string()));
    assert_eq!(parse_command("id id"), ReplCommand::Code("id id".to_string()));
}

#[test]
fn repl_events() {
    assert_eq!(repl_step(false, &ReplEvent::Interrupted), (true, ReplAction::Hint));
    assert_eq!(repl_step(true, &ReplEvent::Interrupted), (true, ReplAction::Exit));
    assert_eq!(repl_step(true, &ReplEvent::Eof), (false, ReplAction::Exit));
    assert_eq!(repl_step(true, &ReplEvent::Line("   ".to_string())), (false, ReplAction::Skip));
    assert_eq!(
        repl_step(true, &ReplEvent::Line(":h".to_string())),
        (false, ReplAction::Run(ReplCommand::Help))
    );
}

#[test]
fn advance_respects_abort_flag() {
    let mut ex = Executor::new();
    let omega = expression(&mut ex, "(\\x. x x) (\\x. x x)");
    let mut evaluator = Evaluator::new();
    let before = ex.mark();
    assert_eq!(evaluator.advance(&mut ex.arena, omega, true), Flow::Stop(None));
    assert_eq!(ex.mark(), before);
    assert_eq!(evaluator.steps, 0);
    match evaluator.advance(&mut ex.arena, omega, false) {
        Flow::Continue(next) => assert_eq!(ex.arena.to_term(next), ex.arena.to_term(omega)),
        other => panic!("unexpected {other:?}"),
    }
    let id = expression(&mut ex, "\\x.x");
    assert_eq!(evaluator.advance(&mut ex.arena, id, false), Flow::Stop(Some(id)));
}

#[test]
fn build_number_names() {
    let mut ex = Executor::new();
    let three = expression(&mut ex, "3");
    assert_eq!(ex.to_text(three, false), "\\f.\\x.(f (f (f x)))");
    assert_eq!(ex.symbols.numbers.len(), 4);
}
