use pkbot::aggregator::{AstContext, Builtin, RuntimeValue};
use pkbot::ast::{CommandAstBody, CommandAstNode, Node, TokenStream};
use pkbot::error::Error;
use pkbot::interpretor::{assign_outputs, reduce_outputs, Program, ProgramOutput, ProgramStatus};
use pkbot::lexer::{chars_of, tokenize, Token};
use pkbot::runtime::{AssignSide, CallTarget, ProgramRuntime};

fn kinds(text: &str) -> Vec<Token> {
    tokenize(&chars_of(text)).iter().map(|l| l.token).collect()
}

#[test]
fn lexer_tokens() {
    assert_eq!(
        kinds("let x = 1.5e3 | \"a\\n\" ; y.z => .. , ( ) { } -4 7"),
        vec![
            Token::Keyword,
            Token::Ident,
            Token::Assign,
            Token::LiteralFloat,
            Token::Pipe,
            Token::LiteralString,
            Token::Comma,
            Token::Ident,
            Token::Deref,
            Token::Ident,
            Token::Fn,
            Token::Join,
            Token::Separator,
            Token::GroupOpen,
            Token::GroupClose,
            Token::BraceOpen,
            Token::BraceClose,
            Token::LiteralInteger,
            Token::LiteralInteger,
        ]
    );
    assert_eq!(kinds("letter"), vec![Token::Ident]);
    assert_eq!(kinds("NOW-1h"), vec![Token::Ident]);
    assert_eq!(kinds(".5 3e2 4e"), vec![Token::LiteralFloat, Token::LiteralFloat, Token::LiteralInteger, Token::Ident]);
    assert_eq!(kinds("/ \"open"), vec![Token::Error, Token::Error, Token::Ident]);
    assert!(Token::LiteralString.is_literal());
    assert!(!Token::Ident.is_literal());
}

#[test]
fn lexeme_spans_and_text() {
    let lx = TokenStream::new("  echo  hi");
    assert_eq!(lx.len(), 2);
    assert_eq!(lx.span(0), (2, 6));
    assert_eq!(lx.slice(0), "echo");
    assert_eq!(lx.slice(1), "hi");
}

fn ident_name(n: &Node) -> String {
    match &n.0.content {
        CommandAstBody::Ident { span } => span.clone(),
        other => panic!("not an identifier: {:?}", other),
    }
}

#[test]
fn parse_declaration_and_call() {
    let lx = TokenStream::new("let x = 1 ; x");
    let (root, end) = CommandAstNode::parse(&lx, 0, false).unwrap();
    assert_eq!(end, lx.len());
    assert_eq!(root.0.content, CommandAstBody::Comma);
    let assign = root.0.left.as_ref().unwrap();
    assert_eq!(assign.0.content, CommandAstBody::Assignation);
    let declare = assign.0.left.as_ref().unwrap();
    assert_eq!(declare.0.content, CommandAstBody::Declare);
    assert_eq!(ident_name(declare.0.left.as_ref().unwrap()), "x");
    match &assign.0.right.as_ref().unwrap().0.content {
        CommandAstBody::Literal { token, value } => {
            assert_eq!(*token, Token::LiteralInteger);
            assert_eq!(value, "1");
        }
        other => panic!("not a literal: {:?}", other),
    }
    let call = root.0.right.as_ref().unwrap();
    assert_eq!(call.0.content, CommandAstBody::Call);
    assert_eq!(ident_name(call.0.right.as_ref().unwrap()), "x");
}

#[test]
fn parse_pipe_call_arguments_and_closure() {
    let lx = TokenStream::new("ls(a.b, 2) | f");
    let (root, _) = CommandAstNode::parse(&lx, 0, false).unwrap();
    assert_eq!(root.0.content, CommandAstBody::Pipe);
    let call = root.0.left.as_ref().unwrap();
    let args = call.0.left.as_ref().unwrap();
    assert_eq!(args.0.content, CommandAstBody::CallArguments);
    let first = args.0.right.as_ref().unwrap();
    assert_eq!(ident_name(first), "a");
    assert_eq!(ident_name(first.0.left.as_ref().unwrap()), "b");
    let lx = TokenStream::new("f = (p) => { echo }");
    let (root, _) = CommandAstNode::parse(&lx, 0, false).unwrap();
    let closure = root.0.right.as_ref().unwrap();
    assert_eq!(closure.0.content, CommandAstBody::Closure);
    assert_eq!(closure.0.left.as_ref().unwrap().0.content, CommandAstBody::FnArguments);
    assert_eq!(closure.0.right.as_ref().unwrap().0.content, CommandAstBody::Block);
}

#[test]
fn parse_errors() {
    let parse = |t: &str| CommandAstNode::parse(&TokenStream::new(t), 0, false).map(|_| ());
    assert_eq!(parse(""), Err(Error::NoData));
    assert!(matches!(parse("echo hello"), Err(Error::Parsing(..))));
    assert!(matches!(parse("ls |"), Err(Error::Parsing(..))));
    assert!(matches!(parse("let = 1"), Err(Error::Parsing(..))));
    assert!(matches!(parse("ls(a) = 1"), Err(Error::Parsing(..))));
    assert!(matches!(parse("ls /"), Err(Error::Parsing(..))));
    assert!(matches!(parse("ls }"), Err(Error::Parsing(..))));
}

#[test]
fn scope_resolution() {
    let program = Program::new("let x = 1 ; { y = 2 ; x }").err();
    assert_eq!(program, Some(Error::ReferenceNotFound("y".to_string())));
    let program = Program::new("let x = 1 ; x").unwrap();
    assert_eq!(program.status, ProgramStatus::Unset);
    let call = program.root.0.right.as_ref().unwrap();
    let target = call.0.right.as_ref().unwrap();
    assert_eq!(target.0.meta.reference_to, Some(1));
    let declared = program.root.0.left.as_ref().unwrap().0.left.as_ref().unwrap().0.left.as_ref().unwrap();
    assert_eq!(declared.0.meta.reference_to, Some(1));
    assert_eq!(Program::new("nothing").err(), Some(Error::ReferenceNotFound("nothing".to_string())));
}

#[test]
fn builtins_resolve_in_main_scope() {
    let program = Program::new("echo ; ls").unwrap();
    let echo = program.root.0.left.as_ref().unwrap();
    assert_eq!(echo.0.right.as_ref().unwrap().0.meta.reference_to, Some(1));
    assert_eq!(
        ProgramRuntime::call_target(&program.context, echo),
        Ok(CallTarget::Native(Builtin::Echo))
    );
    assert_eq!(program.context.scoop_get(1, "ls"), Some(&RuntimeValue::NativeProcedure(Builtin::Ls)));
    assert_eq!(program.context.scoop_get(1, "missing"), None);
}

#[test]
fn closures_are_procedures() {
    let mut program = Program::new("let f = 0 ; f").unwrap();
    let lx = TokenStream::new("(p) => { echo }");
    let (closure, _) = CommandAstNode::parse(&lx, 0, false).unwrap();
    program.context.scoop_set(1, "f", RuntimeValue::Procedure(closure)).unwrap();
    let call = program.root.0.right.as_ref().unwrap();
    match ProgramRuntime::call_target(&program.context, call).unwrap() {
        CallTarget::Procedure(Some(body)) => assert_eq!(body.0.content, CommandAstBody::Call),
        other => panic!("not a procedure: {:?}", other),
    }
}

#[test]
fn nested_blocks_get_child_scopes() {
    let program = Program::new("let x = 1 ; { x }").unwrap();
    let block_call = program.root.0.right.as_ref().unwrap();
    assert_eq!(block_call.0.meta.scoop, 1);
    let lx = TokenStream::new("f = (a) => { x }");
    let (root, _) = CommandAstNode::parse(&lx, 0, false).unwrap();
    let mut context = AstContext::empty();
    let main = context.create_scoop(None);
    let root = context.aggregate_scoop(root, main);
    let block = root.0.right.as_ref().unwrap().0.right.as_ref().unwrap();
    assert_eq!(block.0.meta.scoop, 2);
    assert_eq!(block.0.left.as_ref().unwrap().0.meta.scoop, 2);
}

#[test]
fn scope_and_memory_cells() {
    let mut context = AstContext::empty();
    let main = context.create_scoop(None);
    let child = context.create_scoop(Some(main));
    assert_eq!((main, child), (1, 2));
    let r = context.scoop_set(2, "v", RuntimeValue::String("a".to_string())).unwrap();
    let again = context.scoop_set(2, "v", RuntimeValue::String("b".to_string())).unwrap();
    assert_eq!(r, again);
    assert_eq!(context.memory_get(r), Some(&RuntimeValue::String("b".to_string())));
    assert_eq!(context.scoop_get(1, "v"), None);
    assert_eq!(context.scoop_set(9, "v", RuntimeValue::Undefined), Err(Error::ScoopNotFound(9)));
    context.memory_set(77, RuntimeValue::Number("1.5".to_string()));
    assert_eq!(context.memory_get(77), Some(&RuntimeValue::Number("1.5".to_string())));
}

fn json(s: &str) -> ProgramOutput {
    ProgramOutput::json(RuntimeValue::String(s.to_string()))
}

#[test]
fn assignment_reduction() {
    assert_eq!(reduce_outputs(vec![]), RuntimeValue::Undefined);
    assert_eq!(
        reduce_outputs(vec![ProgramOutput::Text { message: "t".to_string() }]),
        RuntimeValue::Undefined
    );
    assert_eq!(
        reduce_outputs(vec![
            json("world"),
            ProgramOutput::Exit { message: None, status: ProgramStatus::Success },
        ]),
        RuntimeValue::String("world".to_string())
    );
    assert_eq!(
        reduce_outputs(vec![json("a"), ProgramOutput::Text { message: "x".to_string() }, json("b")]),
        RuntimeValue::Array(vec![
            RuntimeValue::String("a".to_string()),
            RuntimeValue::String("b".to_string()),
        ])
    );
}

#[test]
fn assigned_value_reads_back() {
    let mut program = Program::new("let x = 0 ; x").unwrap();
    let value = reduce_outputs(vec![json("world")]);
    program.context.scoop_set(1, "x", value).unwrap();
    assert_eq!(program.context.scoop_get(1, "x"), Some(&RuntimeValue::String("world".to_string())));
}

#[test]
fn consecutive_names_need_a_dot() {
    let lx = TokenStream::new("a.b c");
    match CommandAstNode::parse_ident(&lx, 0) {
        Err(Error::Parsing(_, start, end)) => assert_eq!((start, end), (4, 5)),
        other => panic!("expected a parse error, got {:?}", other.map(|(_, p)| p)),
    }
    let lx = TokenStream::new("a.b.c");
    let (n, p) = CommandAstNode::parse_ident(&lx, 0).unwrap();
    assert_eq!(p, 5);
    assert_eq!(ident_name(&n), "a");
    let b = n.0.left.as_ref().unwrap();
    assert_eq!(ident_name(b), "b");
    assert_eq!(ident_name(b.0.left.as_ref().unwrap()), "c");
}

#[test]
fn nearest_scope_wins() {
    let program = Program::new("let x = 1 ; f = () => { let x = 2 ; x } ; x").err();
    assert_eq!(program, Some(Error::ReferenceNotFound("f".to_string())));
    let program = Program::new("let f = 0 ; f = () => { let x = 2 ; x }").unwrap();
    let closure = program.root.0.right.as_ref().unwrap().0.right.as_ref().unwrap();
    let block = closure.0.right.as_ref().unwrap();
    let inner = block.0.left.as_ref().unwrap();
    let call = inner.0.right.as_ref().unwrap();
    let target = call.0.right.as_ref().unwrap();
    assert_eq!(target.0.meta.reference_to, Some(block.0.meta.scoop));
    assert_eq!(block.0.meta.scoop, 2);
}

#[test]
fn echo_output_assigns_nothing() {
    // An assignment keeps only structured payloads: text lines such as those
    // `echo` writes leave the name undefined.
    let mut program = Program::new("let x = 0 ; x").unwrap();
    let outputs = vec![
        ProgramOutput::Text { message: "world".to_string() },
        ProgramOutput::Exit { message: None, status: ProgramStatus::Success },
    ];
    let cell = assign_outputs(&mut program.context, 1, "x", outputs).unwrap();
    assert_eq!(program.context.memory_get(cell), Some(&RuntimeValue::Undefined));
    let cell = assign_outputs(&mut program.context, 1, "x", vec![json("world")]).unwrap();
    assert_eq!(program.context.memory_get(cell), Some(&RuntimeValue::String("world".to_string())));
    assert_eq!(assign_outputs(&mut program.context, 7, "x", vec![]), Err(Error::ScoopNotFound(7)));
}

#[test]
fn program_errors_by_kind() {
    assert_eq!(Program::new("").err(), Some(Error::NoData));
    assert!(matches!(Program::new("ls |").err(), Some(Error::Parsing(..))));
    assert_eq!(Program::new("y = 1").err(), Some(Error::ReferenceNotFound("y".to_string())));
}

#[test]
fn call_arguments_and_assignment_plans() {
    let lx = TokenStream::new("ls(a, \"x y\", 3)");
    let (call, _) = CommandAstNode::parse(&lx, 0, false).unwrap();
    assert_eq!(
        ProgramRuntime::call_arguments(&call),
        vec!["a".to_string(), "x y".to_string(), "3".to_string()]
    );
    let program = Program::new("let f = (p) => { echo } ; let x = ls").unwrap();
    let Node(root) = program.root;
    let first = root.left.unwrap();
    match ProgramRuntime::assignation_plan(first) {
        Some((name, scope, AssignSide::Procedure(c))) => {
            assert_eq!((name.as_str(), scope), ("f", 1));
            assert_eq!(c.0.content, CommandAstBody::Closure);
        }
        other => panic!("expected a procedure, got {:?}", other.map(|p| p.0)),
    }
    match ProgramRuntime::assignation_plan(root.right.unwrap()) {
        Some((name, _, AssignSide::Evaluate(rhs))) => {
            assert_eq!(name, "x");
            assert_eq!(rhs.0.content, CommandAstBody::Call);
        }
        other => panic!("expected an evaluation, got {:?}", other.map(|p| p.0)),
    }
}
