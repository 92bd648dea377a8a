use change_to_rule::analysis::{after_analysis, AnalysedCrate};
use change_to_rule::codemap::{CodeMap, FileMap, FileName};
use change_to_rule::hir::{Body, Def, Expr, Generics, Item, Node, Path, Ty};
use change_to_rule::session::{Session, Version};
use change_to_rule::span::{Span, SyntaxContext};
use change_to_rule::token::{Delimiter, TokenStream, TokenTree};

/// Reads the little of the language that the tests are written in. All expressions have one type.
struct Reader<'a> {
    source: &'a str,
    pos: usize,
    start_pos: u32,
    ty: &'a str,
    has_params: bool,
    functions: Vec<(String, Vec<String>)>,
    bodies: usize,
}

impl<'a> Reader<'a> {
    fn rest(&self) -> &'a str {
        &self.source[self.pos..]
    }

    fn skip_space(&mut self) {
        while self.rest().starts_with(|c: char| c.is_whitespace()) {
            self.pos += 1;
        }
    }

    fn eat(&mut self, text: &str) -> bool {
        let found = self.rest().trim_start().strip_prefix(text);
        if let Some(rest) = found {
            self.pos = self.source.len() - rest.len();
        }
        found.is_some()
    }

    fn expect(&mut self, text: &str) {
        assert!(self.eat(text), "expected {} at {}", text, self.rest());
    }

    fn word(&mut self) -> &'a str {
        self.skip_space();
        let rest = self.rest();
        let end = rest
            .find(|c: char| !c.is_alphanumeric() && c != '_')
            .unwrap_or(rest.len());
        self.pos += end;
        &rest[..end]
    }

    fn position(&self, pos: usize) -> u32 {
        self.start_pos + pos as u32
    }

    fn span(&self, from: usize) -> Span {
        Span::new(self.position(from), self.position(self.pos), SyntaxContext::Root)
    }

    fn make(&self, span: Span, is_call: bool, children: Vec<Node>) -> Expr {
        let ty = Ty { text: self.ty.to_owned(), has_params: self.has_params };
        Expr { span, ty, is_call, children }
    }

    fn body(&mut self, value: Expr) -> Node {
        self.bodies += 1;
        Node::Body(Body { id: self.bodies, children: vec![Node::Expr(value)] })
    }

    fn skip_balanced(&mut self, open: char, close: char) {
        let mut depth = 0;
        for (i, c) in self.rest().char_indices() {
            if c == open {
                depth += 1;
            } else if c == close {
                depth -= 1;
                if depth == 0 {
                    self.pos += i + 1;
                    return;
                }
            }
        }
        panic!("{} is not closed", open);
    }

    fn items(&mut self, path: &[String]) -> Vec<Node> {
        let mut items = Vec::new();
        loop {
            self.skip_space();
            if self.rest().is_empty() || self.rest().starts_with('}') {
                return items;
            }
            self.eat("pub ");
            if self.eat("mod ") {
                let name = self.word().to_owned();
                let mut children = Vec::new();
                if !self.eat(";") {
                    self.expect("{");
                    let mut inner = path.to_vec();
                    inner.push(name);
                    children = self.items(&inner);
                    self.expect("}");
                }
                items.push(Node::Item(Item { generics: None, children }));
            } else if self.eat("use ") {
                self.pos += self.rest().find(';').unwrap() + 1;
                items.push(Node::Item(Item { generics: None, children: Vec::new() }));
            } else {
                self.expect("fn ");
                items.push(self.function(path));
            }
        }
    }

    fn function(&mut self, path: &[String]) -> Node {
        let name = self.word().to_owned();
        let mut full_path = path.to_vec();
        full_path.push(name.clone());
        self.functions.push((name, full_path));
        let from = self.pos;
        if self.rest().starts_with('<') {
            self.skip_balanced('<', '>');
        }
        let generics_span = self.span(from);
        self.skip_balanced('(', ')');
        let mut where_predicates = Vec::new();
        let signature_end = self.pos + self.rest().find('{').unwrap();
        if let Some(at) = self.source[self.pos..signature_end].find("where ") {
            let lo = self.pos + at + "where ".len();
            let hi = lo + self.source[lo..signature_end].trim_end().len();
            where_predicates.push(Span::new(
                self.position(lo),
                self.position(hi),
                SyntaxContext::Root,
            ));
        }
        self.pos = signature_end;
        let block = self.block();
        let children = vec![self.body(block)];
        let generics = Some(Generics { span: generics_span, where_predicates });
        Node::Item(Item { generics, children })
    }

    fn block(&mut self) -> Expr {
        self.skip_space();
        let from = self.pos;
        self.expect("{");
        let mut children = Vec::new();
        while !self.eat("}") {
            children.push(Node::Expr(self.expr()));
            self.eat(";");
        }
        self.make(self.span(from), false, children)
    }

    fn expr(&mut self) -> Expr {
        let left = self.sum();
        self.operators(left, &["<"], Reader::sum)
    }

    fn sum(&mut self) -> Expr {
        let left = self.product();
        self.operators(left, &["+", "-"], Reader::product)
    }

    fn product(&mut self) -> Expr {
        let left = self.operand();
        self.operators(left, &["*"], Reader::operand)
    }

    fn operators(&mut self, left: Expr, signs: &[&str], operand: fn(&mut Self) -> Expr) -> Expr {
        let mut left = left;
        while signs.iter().any(|sign| self.eat(sign)) {
            let right = operand(self);
            let span = Span::new(left.span.lo, right.span.hi, SyntaxContext::Root);
            left = self.make(span, false, vec![Node::Expr(left), Node::Expr(right)]);
        }
        left
    }

    fn operand(&mut self) -> Expr {
        self.skip_space();
        let from = self.pos;
        if self.eat("!") {
            let inner = self.operand();
            return self.make(self.span(from), false, vec![Node::Expr(inner)]);
        }
        if self.eat("||") {
            let value = self.expr();
            let children = vec![self.body(value)];
            return self.make(self.span(from), false, children);
        }
        if self.rest().starts_with('{') {
            return self.block();
        }
        if self.eat("if ") {
            let condition = Node::Expr(self.expr());
            let yes = Node::Expr(self.block());
            self.expect("else");
            let no = Node::Expr(self.block());
            return self.make(self.span(from), false, vec![condition, yes, no]);
        }
        if self.eat("(") {
            let children = self.arguments();
            return self.make(self.span(from), false, children);
        }
        let word = self.word();
        assert!(!word.is_empty(), "no expression at {}", self.rest());
        if self.eat("!(") {
            self.expect("\"{}\",");
            let children = self.arguments();
            let site = Box::new(self.span(from));
            let ctxt = SyntaxContext::Expansion(Some(site));
            let span = Span::new(self.position(from), self.position(self.pos), ctxt);
            return self.make(span, false, children);
        }
        let value = self.named(word, from);
        if self.rest().starts_with('(') {
            self.expect("(");
            let mut children = vec![Node::Expr(value)];
            children.extend(self.arguments());
            return self.make(self.span(from), true, children);
        }
        value
    }

    fn arguments(&mut self) -> Vec<Node> {
        let mut arguments = Vec::new();
        while !self.eat(")") {
            arguments.push(Node::Expr(self.expr()));
            self.eat(",");
        }
        arguments
    }

    fn named(&mut self, word: &str, from: usize) -> Expr {
        let is_literal = word == "true" || word == "false" || word.starts_with(char::is_numeric);
        let mut children = Vec::new();
        if !is_literal {
            let path = match self.functions.iter().find(|f| f.0 == word) {
                Some(f) => {
                    Path { def: Def::Fn, components: f.1.clone(), children: Vec::new() }
                }
                None => Path { def: Def::Other, components: Vec::new(), children: Vec::new() },
            };
            children.push(Node::Path(path));
        }
        self.make(self.span(from), false, children)
    }
}

fn read_items(source: &str, start_pos: u32, ty: &str, has_params: bool) -> Vec<Node> {
    let mut reader = Reader {
        source,
        pos: 0,
        start_pos,
        ty,
        has_params,
        functions: Vec::new(),
        bodies: 0,
    };
    reader.items(&[]);
    reader.pos = 0;
    reader.items(&[])
}

fn token_trees(text: &mut &str, close: Option<char>) -> TokenStream {
    let mut trees = Vec::new();
    loop {
        *text = text.trim_start();
        let c = match text.chars().next() {
            None => return TokenStream { trees },
            Some(c) => c,
        };
        if Some(c) == close {
            *text = &text[1..];
            return TokenStream { trees };
        }
        let group = match c {
            '(' => Some((Delimiter::Paren, ')')),
            '[' => Some((Delimiter::Bracket, ']')),
            '{' => Some((Delimiter::Brace, '}')),
            _ => None,
        };
        if let Some((delimiter, close)) = group {
            *text = &text[1..];
            trees.push(TokenTree::Delimited(delimiter, token_trees(text, Some(close))));
        } else {
            let end = if c.is_alphanumeric() {
                text.find(|c: char| !c.is_alphanumeric()).unwrap_or(text.len())
            } else {
                c.len_utf8()
            };
            trees.push(TokenTree::Token(text[..end].to_owned()));
            *text = &text[end..];
        }
    }
}

fn lex(text: &str) -> TokenStream {
    let mut rest = text;
    token_trees(&mut rest, None)
}

/// Compiles and analyses whichever version the session asks for until it has a rule.
fn run<F: Fn(&str) -> AnalysedCrate>(
    file_name: &str,
    original: &str,
    modified: &str,
    command_count: usize,
    compile: F,
) -> Result<String, String> {
    let mut session =
        match Session::start(file_name, modified.to_owned(), original, command_count) {
            Err(e) => return Err(e.message().to_owned()),
            Ok(session) => session,
        };
    loop {
        let krate = compile(match session.version {
            Version::Modified => modified,
            Version::Original(_) => original,
        });
        if let Err(e) = after_analysis(&krate, &lex, &mut session.state) {
            return Err(e.message().to_owned());
        }
        match session.compiled() {
            Err(e) => return Err(e.message().to_owned()),
            Ok(Some(rule)) => return Ok(rule),
            Ok(None) => {}
        }
    }
}

fn named(path: &str, start_pos: u32, source: &str) -> FileMap {
    FileMap::new(FileName::Real(path.to_owned()), start_pos, source.to_owned())
}

fn one_line(rule: &str) -> String {
    rule.lines().map(str::trim).collect::<Vec<_>>().join("")
}

fn crate_of(source: &str, ty: &str, has_params: bool) -> AnalysedCrate {
    AnalysedCrate {
        codemap: CodeMap { files: vec![named("lib.rs", 0, source)] },
        nodes: read_items(source, 0, ty, has_params),
    }
}

fn check_typed(
    common: &str,
    left: &str,
    right: &str,
    ty: &str,
    has_params: bool,
    expected_rule: &str,
) {
    let left = common.to_owned() + "\n" + left;
    let right = common.to_owned() + "\n" + right;
    let rule = run("lib.rs", &left, &right, 1, |source| crate_of(source, ty, has_params));
    assert_eq!(rule, Ok(one_line(expected_rule)));
}

fn check_determine_rule(common: &str, left: &str, right: &str, expected_rule: &str) {
    check_typed(common, left, right, "i32", false, expected_rule);
}

#[test]
fn change_in_separate_file() {
    let rule = run(
        "foo.rs",
        "fn bar() -> bool {false}",
        "fn bar() -> bool {!true}",
        1,
        |source| {
            let root = "mod foo;";
            let start_pos = root.len() as u32 + 1;
            AnalysedCrate {
                codemap: CodeMap {
                    files: vec![
                        named("lib.rs", 0, root),
                        named("foo.rs", start_pos, source),
                    ],
                },
                nodes: vec![Node::Item(Item {
                    generics: None,
                    children: read_items(source, start_pos, "bool", false),
                })],
            }
        },
    );
    assert_eq!(rule, Ok("fn r1() {replace!(false => !true);}".to_owned()));
}

#[test]
fn determine_rule_basic() {
    check_determine_rule(
        r#"pub fn bar(x: i32) -> i32 {x}
               pub fn baz(x: i32) -> i32 {x}"#,
        "fn foo(a: i32, b: i32) -> i32 {if a < b {bar(a * 2 + 1)} else {b}}",
        "fn foo(a: i32, b: i32) -> i32 {if a < b {baz(a * 2)} else {b}}",
        "use ::bar; use ::baz; fn r1(p0: i32) {replace!(bar(p0 + 1) => baz(p0));}",
    );
}

#[test]
fn swap_order() {
    check_determine_rule(
        r#"pub fn bar() -> (i32, usize) {(1, 2)}"#,
        "fn foo(x: i32, y: i32) -> (i32, i32) {(x + 1, y + 1)}",
        "fn foo(x: i32, y: i32) -> (i32, i32) {(y + 1, x + 1)}",
        "fn r1(p0: i32, p1: i32) {replace!((p0, p1) => (p1, p0));}",
    );
}

#[test]
fn generic_typed_placeholder() {
    check_typed(
        "",
        "fn foo<T: std::ops::Add<Output=T>>(x: T, y: T) -> T {x + y}",
        "fn foo<T: std::ops::Add<Output=T>>(x: T, y: T) -> T {y + x}",
        "T",
        true,
        "fn r1<T: std::ops::Add<Output=T>>(p0: T, p1: T) {replace!(p0 + p1 => p1 + p0);}",
    );
}

#[test]
fn generic_typed_placeholder_where_clause() {
    check_typed(
        "",
        "fn foo<T>(x: T, y: T) -> T where T: std::ops::Add<Output=T> {x + y}",
        "fn foo<T>(x: T, y: T) -> T where T: std::ops::Add<Output=T> {y + x}",
        "T",
        true,
        r#"fn r1<T>(p0: T, p1: T) where T: std::ops::Add<Output=T> {
                   replace!(p0 + p1 => p1 + p0);
               }"#,
    );
}

#[test]
fn changed_closure() {
    check_typed(
        "fn r<T, F>(f: F) -> T where F: FnOnce() -> T {f()}",
        "fn foo<T>(x: T, y: T) -> T where T: std::ops::Add<Output=T> {r(|| x + y)}",
        "fn foo<T>(x: T, y: T) -> T where T: std::ops::Add<Output=T> {r(|| y + x)}",
        "T",
        true,
        r#"fn r1<T>(p0: T, p1: T) where T: std::ops::Add<Output=T> {
                   replace!(p0 + p1 => p1 + p0);
               }"#,
    );
}

#[test]
fn changed_println_arg() {
    check_determine_rule(
        "",
        r#"fn b() {println!("{}", 10 + 1);}"#,
        r#"fn b() {println!("{}", 10 - 1);}"#,
        "fn r1(p0: i32, p1: i32) {replace!(p0 + p1 => p0 - p1);}",
    );
}

// When a value (1 in this case) appears multiple times in both the left and right code,
// placeholders should be determined by ordering. i.e. the first 1 in both should be p0.
#[test]
fn repeated_placeholder() {
    check_determine_rule(
        "",
        "fn b() -> i32 {1 + 1}",
        "fn b() -> i32 {1 - 1}",
        "fn r1(p0: i32, p1: i32) {replace!(p0 + p1 => p0 - p1);}",
    );
}

// If the changed code references a path, we need to import it into the rule code.
#[test]
fn use_fn_in_submodule() {
    check_determine_rule(
        "mod m1 { pub mod m11 { pub fn foo(_: i32) {} pub fn bar() {} } }",
        "mod m2 { use m1::m11::*; fn b() {foo(1)} }",
        "mod m2 { use m1::m11::*; fn b() {bar()} }",
        "use ::m1::m11::bar; use ::m1::m11::foo; fn r1() {replace!(foo(1) => bar());}",
    );
}

// If we didn't give precedence to larger placeholders, the first 2 would match the 2 in 1 + 2,
// then 1 + 2 couldn't be a placeholder so we'd end up with (p1, p1 + p2) instead of (p0, p1).
#[test]
fn larger_placeholder_takes_precedence() {
    check_determine_rule(
        "",
        "fn b() -> (i32, i32) {(2, 1 + 2)}",
        "fn b() -> (i32, i32) {(1 + 2, 2)}",
        "fn r1(p0: i32, p1: i32) {replace!((p0, p1) => (p1, p0));}",
    );
}

// Verify that we correctly handle the case where the changed code starts in one expression and
// finishes in another. In this case, if we're not careful, we'll think that our replacement
// pattern is just `2`. Also verify that we don't produce multiple identical use statements.
#[test]
fn changed_span_crosses_expressions_and_deduplication_of_use_statements() {
    check_typed(
        "fn foo(x: u32) -> u32 {x}",
        "fn b() -> u32 {foo(1) + foo(1)}",
        "fn b() -> u32 {foo(2)}",
        "u32",
        false,
        "use ::foo; fn r1() {replace!(foo(1) + foo(1) => foo(2));}",
    );
}

// Make sure we don't make a function reference that's part of a function call be a placeholder.
#[test]
fn function_changed_function_arguments() {
    check_determine_rule(
        "fn foo(_: i32, _: i32) {}",
        "fn f1() {foo(1, 2)}",
        "fn f1() {foo(2, 1)}",
        "use ::foo; fn r1(p0: i32, p1: i32) {replace!(foo(p0, p1) => foo(p1, p0));}",
    );
}

#[test]
fn unchanged_file_has_no_rule() {
    let source = "fn b() -> i32 {1 + 1}";
    let rule = run("lib.rs", source, source, 1, |source| crate_of(source, "i32", false));
    assert_eq!(rule, Err("Nothing appears to have changed".to_owned()));
}

#[test]
fn change_outside_expressions_is_not_found() {
    let rule = run("lib.rs", "fn a() {1}", "fn b() {1}", 2, |source| {
        crate_of(source, "i32", false)
    });
    assert_eq!(rule, Err("Failed to find a modified expression".to_owned()));
}

#[test]
fn crate_without_the_file_is_passed_over() {
    let rule = run("lib.rs", "fn b() {1 + 2}", "fn b() {1 - 2}", 3, |source| {
        AnalysedCrate {
            codemap: CodeMap { files: vec![named("main.rs", 0, source)] },
            ..crate_of(source, "i32", false)
        }
    });
    assert_eq!(rule, Err("Failed to find a modified expression".to_owned()));
}

#[test]
fn expression_outside_items_is_refused() {
    let rule = run("lib.rs", "1 + 2;", "1 - 2;", 1, |source| {
        let span = Span::new(0, source.len() as u32, SyntaxContext::Root);
        let ty = Ty { text: "i32".to_owned(), has_params: false };
        AnalysedCrate {
            codemap: CodeMap { files: vec![named("lib.rs", 0, source)] },
            nodes: vec![Node::Expr(Expr { span, ty, is_call: false, children: Vec::new() })],
        }
    });
    assert_eq!(
        rule,
        Err("Changing expressions outside of bodies isn't supported".to_owned())
    );
}

#[test]
fn type_parameters_need_generics() {
    let compile = |source: &str| {
        let mut krate = crate_of(source, "T", true);
        for node in &mut krate.nodes {
            if let Node::Item(item) = node {
                item.generics = None;
            }
        }
        krate
    };
    let rule = run("lib.rs", "fn f() {x + y}", "fn f() {y + x}", 1, compile);
    assert_eq!(
        rule,
        Err("Item has no generics, but type appears to have type parameters".to_owned())
    );
}

#[test]
fn multibyte_text_is_kept_whole() {
    check_determine_rule(
        "fn größe(_: i32, _: i32) {}",
        "fn f1() {größe(1, 2)}",
        "fn f1() {größe(2, 1)}",
        "use ::größe; fn r1(p0: i32, p1: i32) {replace!(größe(p0, p1) => größe(p1, p0));}",
    );
}

// The compiler counts positions without the mark, and so does the rule. The changed part is found
// in the files as they are read, with the mark in them.
#[test]
fn rule_of_files_with_a_byte_order_mark() {
    let rule = run(
        "lib.rs",
        "\u{feff}fn f1() {foo(1, 2)}",
        "\u{feff}fn f1() {foo(2, 1)}",
        1,
        |source| crate_of(source.trim_start_matches('\u{feff}'), "i32", false),
    );
    assert_eq!(rule, Ok("fn r1() {replace!(2 => 1);}".to_owned()));
}
