use std::collections::BTreeMap;

use ty_chalk::active_project::{ChalkProjectInput, FilePath, Files};
use ty_chalk::call_matcher::{
    match_call_target, CallMatch, CallMatchIdentity, CallMatchTarget, CallNoMatchReason,
    ObservedArgument, ObservedCall, ObservedCallTarget,
};
use ty_chalk::chalk::{
    chalk_receiver_module_relation, module_origin, module_ownership_origin, ChalkClassRelation,
    ModuleOrigin,
};
use ty_chalk::diagnostic::{
    chalk_diagnostics_for_file, ChalkDiagnostic, ChalkDiagnosticKind, ChalkDiagnosticSeverity,
};
use ty_chalk::facts::{extract_file_facts, is_baked_resolver_origin, same_target, FileFacts};
use ty_chalk::paths::SystemPath;
use ty_chalk::project_diagnostics::{chalk_project_candidates, chalk_project_diagnostics};
use ty_chalk::provenance::{
    chalk_call_definition_origin, chalk_function_definition_origin, Binding, CallTarget,
    CallTargetKind, Callee, Decorator, KnownCallTarget, SemanticModel,
};
use ty_chalk::reachability::{project_candidates, ProjectCandidates, ProjectFile};
use ty_chalk::semantic::{
    Class, ClassBase, ClassData, Db, Definedness, Definition, DefinitionData, DefinitionKind, File,
    FileData, KnownClass, Member, Module, ModuleData, RuntimeModule, ScopeNode, SearchPath,
    SubclassOfInner, TupleSpec, Type, TypeData, TypeDefinition, TypeKind, TypeVarBound,
};
use ty_chalk::supported_functions::{
    CallKind, SupportedArg, SupportedCall, SupportedEntry, SupportedFuncs, SupportedSignature,
    SupportedTy,
};
use ty_chalk::syntax::{CallArgument, CallSite, Child, Expr, ExprKind, Stmt, StmtKind};
use ty_chalk::text::TextRange;
use ty_chalk::type_matcher::{match_supported_type, match_type_within, TypeMatch};

// ---------------------------------------------------------------------------------------------
// Reading Python
// ---------------------------------------------------------------------------------------------

#[derive(Clone, Debug, PartialEq)]
enum Token {
    Name(String),
    Number(String),
    Text(String),
    Bytes,
    Sign(String),
    Newline,
    Indent,
    Dedent,
    End,
}

#[derive(Clone, Debug)]
struct Lexeme {
    token: Token,
    start: u32,
    end: u32,
}

fn lex(source: &str) -> (Vec<Lexeme>, Vec<TextRange>) {
    let bytes = source.as_bytes();
    let mut lexemes: Vec<Lexeme> = Vec::new();
    let mut comments: Vec<TextRange> = Vec::new();
    let mut indents: Vec<usize> = vec![0];
    let mut depth: usize = 0;
    let mut at: usize = 0;
    let mut line_start = true;
    while at < bytes.len() {
        if line_start && depth == 0 {
            let begin: usize = at;
            while at < bytes.len() && bytes[at] == b' ' {
                at += 1;
            }
            if at < bytes.len() && bytes[at] != b'\n' && bytes[at] != b'#' {
                let width: usize = at - begin;
                let place = at as u32;
                if width > *indents.last().unwrap() {
                    indents.push(width);
                    lexemes.push(Lexeme { token: Token::Indent, start: place, end: place });
                }
                while width < *indents.last().unwrap() {
                    indents.pop();
                    lexemes.push(Lexeme { token: Token::Dedent, start: place, end: place });
                }
            }
            line_start = false;
            continue;
        }
        let byte = bytes[at];
        let start = at as u32;
        if byte == b'\n' {
            let blank = matches!(
                lexemes.last().map(|lexeme| &lexeme.token),
                None | Some(Token::Newline) | Some(Token::Indent) | Some(Token::Dedent)
            );
            if depth == 0 && !blank {
                lexemes.push(Lexeme { token: Token::Newline, start, end: start });
            }
            at += 1;
            line_start = depth == 0;
        } else if byte == b' ' {
            at += 1;
        } else if byte == b'#' {
            while at < bytes.len() && bytes[at] != b'\n' {
                at += 1;
            }
            comments.push(TextRange::new(start, at as u32));
        } else if byte.is_ascii_alphabetic() || byte == b'_' {
            while at < bytes.len() && (bytes[at].is_ascii_alphanumeric() || bytes[at] == b'_') {
                at += 1;
            }
            let mut token = Token::Name(source[start as usize..at].to_owned());
            if token == Token::Name("b".to_owned()) && at < bytes.len() && bytes[at] == b'"' {
                at += 1;
                while bytes[at] != b'"' {
                    at += 1;
                }
                at += 1;
                token = Token::Bytes;
            }
            lexemes.push(Lexeme { token, start, end: at as u32 });
        } else if byte.is_ascii_digit() {
            while at < bytes.len() && (bytes[at].is_ascii_digit() || bytes[at] == b'.') {
                at += 1;
            }
            let token = Token::Number(source[start as usize..at].to_owned());
            lexemes.push(Lexeme { token, start, end: at as u32 });
        } else if byte == b'"' {
            at += 1;
            while bytes[at] != b'"' {
                at += 1;
            }
            at += 1;
            let token = Token::Text(source[start as usize + 1..at - 1].to_owned());
            lexemes.push(Lexeme { token, start, end: at as u32 });
        } else {
            let long = ["...", "->", "**"]
                .into_iter()
                .find(|sign| source[at..].starts_with(sign));
            let sign = long.unwrap_or(&source[at..at + 1]);
            match sign {
                "(" | "[" | "{" => depth += 1,
                ")" | "]" | "}" => depth -= 1,
                _ => {}
            }
            at += sign.len();
            let token = Token::Sign(sign.to_owned());
            lexemes.push(Lexeme { token, start, end: at as u32 });
        }
    }
    let end = bytes.len() as u32;
    if !matches!(lexemes.last().map(|lexeme| &lexeme.token), None | Some(Token::Newline)) {
        lexemes.push(Lexeme { token: Token::Newline, start: end, end });
    }
    for _ in 1..indents.len() {
        lexemes.push(Lexeme { token: Token::Dedent, start: end, end });
    }
    lexemes.push(Lexeme { token: Token::End, start: end, end });
    (lexemes, comments)
}

#[derive(Clone, Debug)]
struct Node {
    start: u32,
    end: u32,
    form: Form,
}

#[derive(Clone, Debug)]
enum Form {
    Name(String),
    Attribute(Box<Node>, String),
    Call(Box<Node>, Vec<Argument>),
    Text(String),
    Bytes,
    Integer(String),
    Float,
    Ellipsis,
    Tuple(Vec<Node>),
    List(Vec<Node>),
    Braces { items: Vec<Node>, mapping: bool },
    Choice(Box<Node>, Box<Node>, Box<Node>),
    Lambda(Box<Node>),
    Comprehension { list: bool, element: Box<Node>, target: String, source: Box<Node>, tests: Vec<Node> },
    Operation(String, Box<Node>, Box<Node>),
    Subscript(Box<Node>, Vec<Node>),
    Prefixed(Box<Node>),
    Nothing,
}

#[derive(Clone, Debug)]
enum Argument {
    Positional(Node),
    Keyword(String, Node),
    Starred(Node),
    Unpacked(Node),
}

impl Argument {
    fn value(&self) -> &Node {
        match self {
            Argument::Positional(node)
            | Argument::Keyword(_, node)
            | Argument::Starred(node)
            | Argument::Unpacked(node) => node,
        }
    }
}

#[derive(Clone, Debug)]
struct Parameter {
    name: String,
    range: TextRange,
    annotation: Option<Node>,
    default: Option<Node>,
}

#[derive(Clone, Debug)]
struct Statement {
    start: u32,
    end: u32,
    form: StatementForm,
}

#[derive(Clone, Debug)]
enum StatementForm {
    Function {
        name: String,
        name_range: TextRange,
        variables: Vec<(String, Option<Node>)>,
        parameters: Vec<Parameter>,
        returns: Option<Node>,
        decorators: Vec<Node>,
        body: Vec<Statement>,
    },
    Class {
        name: String,
        name_range: TextRange,
        bases: Vec<Argument>,
        decorators: Vec<Node>,
        body: Vec<Statement>,
    },
    If { test: Node, body: Vec<Statement> },
    ImportFrom { module: String, names: Vec<(String, String, TextRange)> },
    Import { module: String, alias: Option<String>, range: TextRange },
    Assign { target: String, range: TextRange, annotation: Option<Node>, value: Option<Node> },
    TypeAlias { name: String, range: TextRange, bounds: Vec<Node>, value: Node },
    Expression(Node),
    Pass,
}

struct Parser {
    lexemes: Vec<Lexeme>,
    at: usize,
}

impl Parser {
    fn peek(&self) -> &Token {
        &self.lexemes[self.at].token
    }

    fn next(&mut self) -> Lexeme {
        self.at += 1;
        self.lexemes[self.at - 1].clone()
    }

    fn is_sign(&self, sign: &str) -> bool {
        *self.peek() == Token::Sign(sign.to_owned())
    }

    fn is_word(&self, word: &str) -> bool {
        *self.peek() == Token::Name(word.to_owned())
    }

    fn accept_sign(&mut self, sign: &str) -> bool {
        let found = self.is_sign(sign);
        if found {
            self.at += 1;
        }
        found
    }

    fn accept_word(&mut self, word: &str) -> bool {
        let found = self.is_word(word);
        if found {
            self.at += 1;
        }
        found
    }

    fn expect_sign(&mut self, sign: &str) {
        assert!(self.accept_sign(sign), "expected {sign}, got {:?}", self.peek());
    }

    fn expect_word(&mut self, word: &str) {
        assert!(self.accept_word(word), "expected {word}, got {:?}", self.peek());
    }

    fn last_end(&self) -> u32 {
        self.lexemes[self.at - 1].end
    }

    fn word(&mut self) -> (String, TextRange) {
        let lexeme = self.next();
        match lexeme.token {
            Token::Name(name) => (name, TextRange::new(lexeme.start, lexeme.end)),
            token => panic!("expected a name, got {token:?}"),
        }
    }

    fn dotted(&mut self) -> String {
        let mut name = self.word().0;
        while self.accept_sign(".") {
            name.push('.');
            name.push_str(&self.word().0);
        }
        name
    }

    fn node(&self, start: u32, form: Form) -> Node {
        Node { start, end: self.last_end(), form }
    }

    fn expression(&mut self) -> Node {
        let start = self.lexemes[self.at].start;
        if self.accept_word("lambda") {
            self.expect_sign(":");
            let body = self.expression();
            return self.node(start, Form::Lambda(Box::new(body)));
        }
        if self.accept_word("await") {
            let value = self.expression();
            return self.node(start, Form::Prefixed(Box::new(value)));
        }
        if self.accept_word("yield") {
            self.accept_word("from");
            let value = self.expression();
            return self.node(start, Form::Prefixed(Box::new(value)));
        }
        let value = self.operation();
        if self.accept_word("if") {
            let test = self.operation();
            self.expect_word("else");
            let other = self.expression();
            return self.node(
                start,
                Form::Choice(Box::new(value), Box::new(test), Box::new(other)),
            );
        }
        value
    }

    fn operation(&mut self) -> Node {
        let start = self.lexemes[self.at].start;
        let mut left = self.postfix();
        while self.is_sign("+") || self.is_sign("|") {
            let sign = match self.next().token {
                Token::Sign(sign) => sign,
                _ => unreachable!(),
            };
            let right = self.postfix();
            left = self.node(
                start,
                Form::Operation(sign, Box::new(left), Box::new(right)),
            );
        }
        left
    }

    fn postfix(&mut self) -> Node {
        let start = self.lexemes[self.at].start;
        let mut value = self.primary();
        loop {
            if self.accept_sign(".") {
                let name = self.word().0;
                value = self.node(start, Form::Attribute(Box::new(value), name));
            } else if self.is_sign("(") {
                let arguments = self.arguments();
                value = self.node(start, Form::Call(Box::new(value), arguments));
            } else if self.accept_sign("[") {
                let items = self.items("]");
                value = self.node(start, Form::Subscript(Box::new(value), items));
            } else {
                return value;
            }
        }
    }

    fn arguments(&mut self) -> Vec<Argument> {
        self.expect_sign("(");
        let mut arguments: Vec<Argument> = Vec::new();
        while !self.accept_sign(")") {
            if self.accept_sign("**") {
                arguments.push(Argument::Unpacked(self.expression()));
            } else if self.accept_sign("*") {
                arguments.push(Argument::Starred(self.expression()));
            } else {
                let is_keyword = matches!(self.peek(), Token::Name(_))
                    && self.lexemes[self.at + 1].token == Token::Sign("=".to_owned());
                if is_keyword {
                    let name = self.word().0;
                    self.expect_sign("=");
                    arguments.push(Argument::Keyword(name, self.expression()));
                } else {
                    arguments.push(Argument::Positional(self.expression()));
                }
            }
            self.accept_sign(",");
        }
        arguments
    }

    fn items(&mut self, close: &str) -> Vec<Node> {
        let mut items: Vec<Node> = Vec::new();
        while !self.accept_sign(close) {
            items.push(self.expression());
            self.accept_sign(",");
        }
        items
    }

    fn comprehension(&mut self, start: u32, list: bool, element: Node, close: &str) -> Node {
        self.expect_word("for");
        let target = self.word().0;
        self.expect_word("in");
        let source = self.operation();
        let mut tests: Vec<Node> = Vec::new();
        while self.accept_word("if") {
            tests.push(self.operation());
        }
        self.expect_sign(close);
        self.node(
            start,
            Form::Comprehension {
                list,
                element: Box::new(element),
                target,
                source: Box::new(source),
                tests,
            },
        )
    }

    fn primary(&mut self) -> Node {
        let lexeme = self.next();
        let start = lexeme.start;
        let form = match lexeme.token {
            Token::Name(name) => Form::Name(name),
            Token::Number(text) if text.contains('.') => Form::Float,
            Token::Number(text) => Form::Integer(text),
            Token::Text(text) => Form::Text(text),
            Token::Bytes => Form::Bytes,
            Token::Sign(sign) => match sign.as_str() {
                "..." => Form::Ellipsis,
                "(" => {
                    if self.accept_sign(")") {
                        Form::Tuple(Vec::new())
                    } else {
                        let first = self.expression();
                        if self.is_word("for") {
                            return self.comprehension(start, false, first, ")");
                        }
                        if self.accept_sign(")") {
                            return Node { start, end: self.last_end(), form: first.form };
                        }
                        self.expect_sign(",");
                        let mut items = vec![first];
                        items.extend(self.items(")"));
                        Form::Tuple(items)
                    }
                }
                "[" => {
                    if self.accept_sign("]") {
                        Form::List(Vec::new())
                    } else {
                        let first = self.expression();
                        if self.is_word("for") {
                            return self.comprehension(start, true, first, "]");
                        }
                        self.accept_sign(",");
                        let mut items = vec![first];
                        items.extend(self.items("]"));
                        Form::List(items)
                    }
                }
                "{" => {
                    let mut items: Vec<Node> = Vec::new();
                    let mut mapping = true;
                    while !self.accept_sign("}") {
                        items.push(self.expression());
                        mapping = self.accept_sign(":");
                        self.accept_sign(",");
                    }
                    Form::Braces { items, mapping }
                }
                _ => panic!("unexpected {sign}"),
            },
            token => panic!("unexpected {token:?}"),
        };
        self.node(start, form)
    }

    fn block(&mut self) -> Vec<Statement> {
        self.expect_sign(":");
        if *self.peek() == Token::Newline {
            self.next();
            assert_eq!(self.next().token, Token::Indent);
            let mut body: Vec<Statement> = Vec::new();
            while *self.peek() != Token::Dedent {
                body.push(self.statement());
            }
            self.next();
            body
        } else {
            vec![self.statement()]
        }
    }

    fn type_variables(&mut self) -> Vec<(String, Option<Node>)> {
        let mut variables: Vec<(String, Option<Node>)> = Vec::new();
        if self.accept_sign("[") {
            while !self.accept_sign("]") {
                let name = self.word().0;
                let bound = if self.accept_sign(":") {
                    Some(self.expression())
                } else {
                    None
                };
                variables.push((name, bound));
                self.accept_sign(",");
            }
        }
        variables
    }

    fn end_of(body: &[Statement]) -> u32 {
        body.last().unwrap().end
    }

    fn statement(&mut self) -> Statement {
        let start = self.lexemes[self.at].start;
        let mut decorators: Vec<Node> = Vec::new();
        while self.accept_sign("@") {
            decorators.push(self.expression());
            assert_eq!(self.next().token, Token::Newline);
        }
        self.accept_word("async");
        if self.accept_word("def") {
            let (name, name_range) = self.word();
            let variables = self.type_variables();
            self.expect_sign("(");
            let mut parameters: Vec<Parameter> = Vec::new();
            while !self.accept_sign(")") {
                self.accept_sign("*");
                let (name, range) = self.word();
                let annotation = if self.accept_sign(":") {
                    Some(self.expression())
                } else {
                    None
                };
                let default = if self.accept_sign("=") {
                    Some(self.expression())
                } else {
                    None
                };
                parameters.push(Parameter { name, range, annotation, default });
                self.accept_sign(",");
            }
            let returns = if self.accept_sign("->") {
                Some(self.expression())
            } else {
                None
            };
            let body = self.block();
            let end = Self::end_of(&body);
            return Statement {
                start,
                end,
                form: StatementForm::Function {
                    name,
                    name_range,
                    variables,
                    parameters,
                    returns,
                    decorators,
                    body,
                },
            };
        }
        if self.accept_word("class") {
            let (name, name_range) = self.word();
            let bases = if self.is_sign("(") {
                self.arguments()
            } else {
                Vec::new()
            };
            let body = self.block();
            let end = Self::end_of(&body);
            return Statement {
                start,
                end,
                form: StatementForm::Class { name, name_range, bases, decorators, body },
            };
        }
        if self.accept_word("if") {
            let test = self.expression();
            let body = self.block();
            let end = Self::end_of(&body);
            return Statement { start, end, form: StatementForm::If { test, body } };
        }
        let form = self.simple();
        let end = self.last_end();
        assert_eq!(self.next().token, Token::Newline);
        Statement { start, end, form }
    }

    fn simple(&mut self) -> StatementForm {
        if self.accept_word("pass") {
            return StatementForm::Pass;
        }
        if self.accept_word("return") {
            return StatementForm::Expression(self.expression());
        }
        if self.accept_word("from") {
            let module = self.dotted();
            self.expect_word("import");
            let mut names: Vec<(String, String, TextRange)> = Vec::new();
            loop {
                let (symbol, symbol_range) = self.word();
                let (name, range) = if self.accept_word("as") {
                    self.word()
                } else {
                    (symbol.clone(), symbol_range)
                };
                names.push((symbol, name, range));
                if !self.accept_sign(",") {
                    return StatementForm::ImportFrom { module, names };
                }
            }
        }
        if self.accept_word("import") {
            let start = self.lexemes[self.at].start;
            let module = self.dotted();
            let alias = if self.accept_word("as") {
                Some(self.word().0)
            } else {
                None
            };
            return StatementForm::Import {
                module,
                alias,
                range: TextRange::new(start, self.last_end()),
            };
        }
        let is_alias = self.is_word("type")
            && matches!(self.lexemes[self.at + 1].token, Token::Name(_));
        if is_alias {
            self.next();
            let (name, range) = self.word();
            let variables = self.type_variables();
            self.expect_sign("=");
            let value = self.expression();
            let bounds = variables.into_iter().filter_map(|(_, bound)| bound).collect();
            return StatementForm::TypeAlias { name, range, bounds, value };
        }
        let follower = self.lexemes[self.at + 1].token.clone();
        if matches!(self.peek(), Token::Name(_))
            && (follower == Token::Sign(":".to_owned()) || follower == Token::Sign("=".to_owned()))
        {
            let (target, range) = self.word();
            let annotation = if self.accept_sign(":") {
                Some(self.expression())
            } else {
                None
            };
            let value = if self.accept_sign("=") {
                Some(self.expression())
            } else {
                None
            };
            return StatementForm::Assign { target, range, annotation, value };
        }
        StatementForm::Expression(self.expression())
    }
}

fn parse(source: &str) -> (Vec<Statement>, Vec<TextRange>) {
    let (lexemes, comments) = lex(source);
    let mut parser = Parser { lexemes, at: 0 };
    let mut body: Vec<Statement> = Vec::new();
    while *parser.peek() != Token::End {
        body.push(parser.statement());
    }
    (body, comments)
}

// ---------------------------------------------------------------------------------------------
// Checking Python
// ---------------------------------------------------------------------------------------------

/// What a type stands for.
#[derive(Clone, Debug, PartialEq)]
enum Meaning {
    Dynamic,
    Absent,
    Function(Definition),
    Bound(Definition),
    Startswith,
    ClassObject(Class),
    Instance(Class),
    Literal(Class, String),
    EnumMember(Class, String),
    Structure(Class),
    Elements(Vec<Type>, bool),
    ModuleObject(Module),
    OneOf(Vec<Type>),
    Alias(usize),
    Variable(String),
    Narrowed(Type, Type),
    AnyClass,
    VariableClass(String),
    Opaque,
}

#[derive(Clone, Copy, Debug, PartialEq)]
enum Manner {
    Plain,
    Static,
    OfClass,
}

/// A binding of a name in a scope.
#[derive(Clone, Debug)]
struct Bound {
    definition: Definition,
    /// The function or class behind the binding, where the source names one.
    source: Definition,
    ty: Type,
    manner: Manner,
    possibly: bool,
}

#[derive(Clone, Debug)]
struct Scope {
    names: Vec<(String, Bound)>,
    parent: Option<usize>,
    is_class: bool,
    /// The scope and those that enclose it, innermost first.
    chain: Vec<(u8, String)>,
}

/// A body that is checked once every module is known.
struct Job {
    file: File,
    scope: usize,
    parameters: Vec<(Parameter, Type)>,
    body: Vec<Statement>,
}

/// A statement whose body may still have to be checked.
enum Draft {
    Part(Child),
    Statement {
        range: TextRange,
        kind: StmtKind,
        header: Vec<Expr>,
        body: Vec<Draft>,
        job: Option<usize>,
    },
}

struct Source {
    path: String,
    text: String,
    comments: Vec<TextRange>,
    statements: Vec<Statement>,
    scope: usize,
    started: bool,
    drafts: Vec<Draft>,
}

/// A small Python frontend.
struct Frontend {
    db: Db,
    meanings: Vec<Meaning>,
    scopes: Vec<Scope>,
    class_scopes: Vec<usize>,
    returns: BTreeMap<usize, Type>,
    sources: Vec<Source>,
    jobs: Vec<Job>,
    finished: Vec<Option<Vec<Draft>>>,
}

/// The stubs that every program can import.
const STUBS: &[(&str, &str)] = &[
    (
        "stdlib/builtins.pyi",
        "\
class object: ...
class bool: ...
class bytes: ...
class int: ...
class float: ...
class slice: ...
class str:
    def startswith(self, prefix): ...
class list: ...
class dict: ...
class set: ...
class frozenset: ...
class tuple: ...
class type: ...
def abs(x): ...
def round(number, ndigits): ...
def len(obj): ...
def isinstance(obj, cls): ...
def staticmethod(function): ...
def classmethod(function): ...
",
    ),
    (
        "stdlib/datetime.pyi",
        "\
class date: ...
class datetime:
    @classmethod
    def now(cls): ...
class time: ...
class timedelta: ...
class timezone: ...
",
    ),
    ("stdlib/math.pyi", "def sqrt(x) -> float: ...\n"),
    ("stdlib/difflib.pyi", "class SequenceMatcher: ...\n"),
    ("stdlib/re.pyi", "class Match: ...\nclass Pattern: ...\n"),
    ("stdlib/collections.pyi", "class Counter(dict): ...\n"),
    ("stdlib/enum.pyi", "class Enum: ...\n"),
    ("stdlib/types.pyi", "class GeneratorType: ...\n"),
    (
        "stdlib/typing.pyi",
        "class Any: ...\nclass Literal: ...\nclass TypedDict: ...\nclass TypeVar: ...\ndef cast(typ, value): ...\n",
    ),
];

/// Where a file lies: its search path, its module and whether it is a stub that ships with the
/// frontend.
fn place(path: &str) -> (SearchPath, String, bool) {
    let roots: [(&str, SearchPath, bool); 7] = [
        ("stdlib/", SearchPath::StandardLibrary, true),
        ("stubs/", SearchPath::ThirdParty, true),
        ("/site-packages/", SearchPath::ThirdParty, false),
        ("/editable/", SearchPath::ThirdParty, false),
        ("/extra/", SearchPath::Extra, false),
        ("/src/", SearchPath::FirstParty, false),
        ("/", SearchPath::FirstParty, false),
    ];
    for (root, search_path, vendored) in roots {
        if let Some(rest) = path.strip_prefix(root) {
            let name = rest.rsplit_once('.').unwrap().0.replace("-stubs", "").replace('/', ".");
            let name = name.strip_suffix(".__init__").unwrap_or(&name).to_owned();
            return (search_path, name, vendored);
        }
    }
    panic!("{path} lies nowhere")
}

fn preference(path: &str) -> u8 {
    let (search_path, _, vendored) = place(path);
    let stub = u8::from(!path.ends_with(".pyi"));
    let root: u8 = match (search_path, vendored) {
        (SearchPath::Extra, _) => 0,
        (SearchPath::StandardLibrary, _) => 1,
        (_, true) => 2,
        (SearchPath::FirstParty, _) => 3,
        _ => 4,
    };
    root * 2 + stub
}

impl Frontend {
    fn new(files: &[(&str, &str)]) -> Self {
        let mut frontend = Frontend {
            db: Db {
                types: Vec::new(),
                classes: Vec::new(),
                modules: Vec::new(),
                files: Vec::new(),
                definitions: Vec::new(),
                runtime_modules: Vec::new(),
                unknown: Type { id: 0 },
            },
            meanings: Vec::new(),
            scopes: Vec::new(),
            class_scopes: Vec::new(),
            returns: BTreeMap::new(),
            sources: Vec::new(),
            jobs: Vec::new(),
            finished: Vec::new(),
        };
        frontend.intern(Meaning::Dynamic);
        for (path, text) in STUBS.iter().chain(files) {
            frontend.add_file(path, text);
        }
        frontend.find_namespaces();
        frontend.find_runtime_modules();
        for id in 0..frontend.sources.len() {
            frontend.run_module(File { id });
        }
        let mut next: usize = 0;
        while next < frontend.jobs.len() {
            frontend.run_job(next);
            next += 1;
        }
        frontend
    }

    fn add_file(&mut self, path: &str, text: &str) {
        let (search_path, name, vendored) = place(path);
        let file = File { id: self.db.files.len() };
        let module = if path.ends_with(".sql") {
            None
        } else {
            self.db.modules.push(ModuleData {
                name: name.clone(),
                search_path: Some(search_path),
                file: Some(file),
            });
            Some(Module { id: self.db.modules.len() - 1 })
        };
        self.db.files.push(FileData { path: path.to_owned(), is_vendored: vendored, module });
        self.scopes.push(Scope {
            names: Vec::new(),
            parent: None,
            is_class: false,
            chain: vec![(0, name)],
        });
        let (statements, comments) = if path.ends_with(".sql") {
            (Vec::new(), Vec::new())
        } else {
            parse(text)
        };
        self.sources.push(Source {
            path: path.to_owned(),
            text: text.to_owned(),
            comments,
            statements,
            scope: self.scopes.len() - 1,
            started: false,
            drafts: Vec::new(),
        });
    }

    /// Directories with modules in them that are no packages themselves.
    fn find_namespaces(&mut self) {
        let names: Vec<String> = self.db.modules.iter().map(|module| module.name.clone()).collect();
        for name in &names {
            let mut prefix = name.as_str();
            while let Some((outer, _)) = prefix.rsplit_once('.') {
                prefix = outer;
                if !self.db.modules.iter().any(|module| module.name == outer) {
                    self.db.modules.push(ModuleData {
                        name: outer.to_owned(),
                        search_path: None,
                        file: None,
                    });
                }
            }
        }
    }

    fn find_runtime_modules(&mut self) {
        let mut found: BTreeMap<String, (u8, usize)> = BTreeMap::new();
        for (id, module) in self.db.modules.iter().enumerate() {
            let rank = match module.file {
                None => Some(100),
                Some(file) => {
                    let data = &self.db.files[file.id];
                    if data.is_vendored || data.path.ends_with(".pyi") {
                        None
                    } else {
                        Some(preference(&data.path))
                    }
                }
            };
            let Some(rank) = rank else { continue };
            let entry = found.entry(module.name.clone()).or_insert((rank, id));
            if rank < entry.0 {
                *entry = (rank, id);
            }
        }
        for id in 0..self.db.files.len() {
            for (name, (_, module)) in &found {
                self.db.runtime_modules.push(RuntimeModule {
                    importing_file: File { id },
                    name: name.clone(),
                    module: Module { id: *module },
                });
            }
        }
    }

    /// What an import of a module finds.
    fn resolve_module(&self, name: &str) -> Option<Module> {
        let candidates = self.db.modules.iter().enumerate().filter(|(_, module)| module.name == name);
        candidates
            .min_by_key(|(_, module)| match module.file {
                Some(file) => preference(&self.db.files[file.id].path),
                None => 100,
            })
            .map(|(id, _)| Module { id })
    }

    fn file(&self, path: &str) -> File {
        let id = self.sources.iter().position(|source| source.path == path).unwrap();
        File { id }
    }

    // -- types ------------------------------------------------------------------------------------

    fn class_known(&self, class: Class) -> Option<KnownClass> {
        self.db.classes[class.id].known
    }

    fn intern(&mut self, meaning: Meaning) -> Type {
        if let Some(id) = self.meanings.iter().position(|known| *known == meaning) {
            return Type { id };
        }
        let own = Type { id: self.meanings.len() };
        let mut data = TypeData {
            kind: TypeKind::Other,
            nominal_class: None,
            is_none: false,
            is_enum: false,
            tuple: None,
            iterates: None,
            definition: None,
            members: Vec::new(),
            assignable_to: Vec::new(),
            inferable_to: Vec::new(),
            instance_members: Vec::new(),
            instance: None,
            parts: None,
        };
        match &meaning {
            Meaning::Dynamic => data.kind = TypeKind::Dynamic,
            Meaning::Absent => {
                data.kind = TypeKind::Instance;
                data.is_none = true;
            }
            Meaning::Function(definition) => {
                data.kind = TypeKind::FunctionLiteral;
                data.definition = Some(TypeDefinition::Function(*definition));
            }
            Meaning::Bound(definition) => {
                data.kind = TypeKind::BoundMethod;
                data.definition = Some(TypeDefinition::Function(*definition));
            }
            Meaning::Startswith => data.kind = TypeKind::StrStartswith,
            Meaning::ClassObject(class) => {
                data.kind = TypeKind::ClassLiteral { class: *class };
                data.is_enum = self.is_enum(*class);
            }
            Meaning::Instance(class) => {
                data.kind = TypeKind::Instance;
                data.nominal_class = Some(*class);
                data.is_enum = self.is_enum(*class);
                if self.class_known(*class).is_some() {
                    let arguments = &self.db.classes[class.id].arguments;
                    data.iterates = Some(arguments.first().copied().unwrap_or(self.db.unknown));
                }
            }
            Meaning::Literal(class, _) => data.nominal_class = Some(*class),
            Meaning::EnumMember(class, _) => {
                data.nominal_class = Some(*class);
                data.is_enum = true;
            }
            Meaning::Structure(class) => {
                data.kind = TypeKind::TypedDict { defining_class: Some(*class) };
            }
            Meaning::Elements(elements, variadic) => {
                data.kind = TypeKind::Instance;
                data.nominal_class = Some(self.builtin_class("tuple"));
                data.iterates = Some(elements.first().copied().unwrap_or(self.db.unknown));
                data.tuple = Some(TupleSpec { elements: elements.clone(), is_variadic: *variadic });
            }
            Meaning::ModuleObject(module) => {
                data.kind = TypeKind::ModuleLiteral { module: *module };
            }
            Meaning::OneOf(elements) => {
                data.kind = TypeKind::Union { elements: elements.clone() };
            }
            Meaning::Alias(_) => data.kind = TypeKind::TypeAlias { value: own },
            Meaning::Variable(_) => {
                data.kind = TypeKind::TypeVar { bound: TypeVarBound::Unbound };
            }
            Meaning::Narrowed(left, right) => {
                data.kind = TypeKind::Intersection {
                    positive: vec![*left, *right],
                    top: own,
                    bottom: own,
                };
            }
            Meaning::AnyClass => {
                data.kind = TypeKind::SubclassOf { inner: SubclassOfInner::Dynamic };
            }
            Meaning::VariableClass(_) => {
                data.kind = TypeKind::SubclassOf { inner: SubclassOfInner::TypeVar };
            }
            Meaning::Opaque => {}
        }
        self.db.types.push(data);
        self.meanings.push(meaning);
        own
    }

    fn union(&mut self, types: Vec<Type>) -> Type {
        let mut elements: Vec<Type> = Vec::new();
        for ty in types {
            for part in self.alternatives(ty) {
                if !elements.contains(&part) {
                    elements.push(part);
                }
            }
        }
        if elements.len() == 1 {
            elements[0]
        } else {
            self.intern(Meaning::OneOf(elements))
        }
    }

    fn alternatives(&self, ty: Type) -> Vec<Type> {
        match &self.meanings[ty.id] {
            Meaning::OneOf(elements) => elements.clone(),
            _ => vec![ty],
        }
    }

    fn builtin_class(&self, name: &str) -> Class {
        let scope = self.sources[0].scope;
        let bound = &self.scopes[scope].names.iter().find(|(own, _)| own == name).unwrap().1;
        match self.meanings[bound.ty.id] {
            Meaning::ClassObject(class) => class,
            _ => panic!("{name} is no class"),
        }
    }

    fn builtin(&mut self, name: &str) -> Type {
        let class = self.builtin_class(name);
        self.intern(Meaning::Instance(class))
    }

    fn is_enum(&self, class: Class) -> bool {
        self.ancestors(class).iter().any(|base| self.is_class(*base, "enum", "Enum"))
    }

    fn is_class(&self, class: Class, module: &str, name: &str) -> bool {
        let data = &self.db.classes[class.id];
        data.name == name && data.enclosing == [module]
    }

    fn ancestors(&self, class: Class) -> Vec<Class> {
        let bases = self.db.classes[class.id].mro.iter();
        bases
            .filter_map(|base| match base {
                ClassBase::Class(class) => Some(*class),
                _ => None,
            })
            .collect()
    }

    /// A class with type arguments.
    fn specialize(&mut self, class: Class, arguments: Vec<Type>) -> Class {
        let known = (0..self.db.classes.len()).find(|id| {
            let data = &self.db.classes[*id];
            data.generic == class && data.arguments == arguments
        });
        if let Some(id) = known {
            return Class { id };
        }
        let own = Class { id: self.db.classes.len() };
        let generic = &self.db.classes[class.id];
        let mut mro = vec![ClassBase::Class(own)];
        mro.extend(generic.mro[1..].iter().copied());
        let data = ClassData {
            name: generic.name.clone(),
            file: generic.file,
            enclosing: generic.enclosing.clone(),
            mro,
            known: generic.known,
            arguments,
            is_static: true,
            generic: class,
            is_features: false,
            fields: Vec::new(),
            declarations: Vec::new(),
        };
        self.db.classes.push(data);
        self.class_scopes.push(self.class_scopes[class.id]);
        own
    }

    /// The class of what a literal widens to.
    fn widen(&mut self, ty: Type) -> Type {
        match self.meanings[ty.id].clone() {
            Meaning::Literal(class, _) => self.intern(Meaning::Instance(class)),
            _ => ty,
        }
    }

    // -- members ----------------------------------------------------------------------------------

    fn scope_entry(&self, scope: usize, name: &str) -> Option<Bound> {
        let entries = self.scopes[scope].names.iter().rev();
        entries
            .filter(|(own, _)| own == name)
            .map(|(_, bound)| bound.clone())
            .next()
    }

    fn member_binding(&self, ty: Type, name: &str) -> Option<Bound> {
        match &self.meanings[ty.id] {
            Meaning::ModuleObject(module) => {
                let file = self.db.modules[module.id].file?;
                self.scope_entry(self.sources[file.id].scope, name)
            }
            Meaning::ClassObject(class)
            | Meaning::Instance(class)
            | Meaning::Literal(class, _)
            | Meaning::EnumMember(class, _) => self
                .ancestors(*class)
                .iter()
                .find_map(|base| self.scope_entry(self.class_scopes[base.id], name)),
            _ => None,
        }
    }

    fn member(&mut self, ty: Type, name: &str) -> Option<(Type, Definedness)> {
        let meaning = self.meanings[ty.id].clone();
        if let (Meaning::Literal(class, _), "startswith") = (&meaning, name) {
            if *class == self.builtin_class("str") {
                let found = self.intern(Meaning::Startswith);
                return Some((found, Definedness::AlwaysDefined));
            }
        }
        let Some(bound) = self.member_binding(ty, name) else {
            let Meaning::ModuleObject(module) = meaning else { return None };
            let submodule = format!("{}.{name}", self.db.modules[module.id].name);
            let submodule = self.resolve_module(&submodule)?;
            let found = self.intern(Meaning::ModuleObject(submodule));
            return Some((found, Definedness::AlwaysDefined));
        };
        let definedness = if bound.possibly {
            Definedness::PossiblyUndefined
        } else {
            Definedness::AlwaysDefined
        };
        let own = self.meanings[bound.ty.id].clone();
        let found = match (&meaning, own) {
            (Meaning::ModuleObject(_), _) => bound.ty,
            (Meaning::ClassObject(class), Meaning::Literal(_, _)) if self.is_enum(*class) => {
                self.intern(Meaning::EnumMember(*class, name.to_owned()))
            }
            (Meaning::ClassObject(_), Meaning::Function(definition)) => match bound.manner {
                Manner::OfClass => self.intern(Meaning::Bound(definition)),
                _ => bound.ty,
            },
            (_, Meaning::Function(definition)) => match bound.manner {
                Manner::Static => bound.ty,
                _ => self.intern(Meaning::Bound(definition)),
            },
            _ => bound.ty,
        };
        Some((found, definedness))
    }

    /// Looks a member up and writes it down.
    fn recorded_member(&mut self, ty: Type, name: &str) -> Option<Type> {
        let (found, definedness) = self.member(ty, name)?;
        let members = &mut self.db.types[ty.id].members;
        if !members.iter().any(|member| member.name == name) {
            members.push(Member { name: name.to_owned(), ty: found, definedness });
        }
        Some(found)
    }

    // -- names ------------------------------------------------------------------------------------

    fn lookup(&self, scope: usize, name: &str) -> Option<Bound> {
        if let Some(bound) = self.scope_entry(scope, name) {
            return Some(bound);
        }
        let mut outer = self.scopes[scope].parent;
        while let Some(at) = outer {
            if !self.scopes[at].is_class {
                if let Some(bound) = self.scope_entry(at, name) {
                    return Some(bound);
                }
            }
            outer = self.scopes[at].parent;
        }
        self.scope_entry(self.sources[0].scope, name)
    }

    fn define(
        &mut self,
        file: File,
        scope: usize,
        kind: DefinitionKind,
        name: &str,
        focus: TextRange,
    ) -> Definition {
        let chain = self.scopes[scope].chain.iter();
        let scopes = chain
            .map(|(kind, name)| match kind {
                0 => ScopeNode::Module,
                1 => ScopeNode::Class { name: name.clone() },
                _ => ScopeNode::Function { name: name.clone() },
            })
            .collect();
        self.db.definitions.push(DefinitionData {
            file,
            kind,
            name: name.to_owned(),
            scopes,
            focus,
        });
        Definition { id: self.db.definitions.len() - 1 }
    }

    fn bind(&mut self, scope: usize, name: &str, bound: Bound) {
        self.scopes[scope].names.push((name.to_owned(), bound));
    }

    fn bind_plain(&mut self, scope: usize, name: &str, definition: Definition, ty: Type) {
        self.bind(
            scope,
            name,
            Bound { definition, source: definition, ty, manner: Manner::Plain, possibly: false },
        );
    }

    fn open_scope(&mut self, parent: usize, kind: u8, name: &str) -> usize {
        let mut chain = vec![(kind, name.to_owned())];
        chain.extend(self.scopes[parent].chain.clone());
        self.scopes.push(Scope { names: Vec::new(), parent: Some(parent), is_class: kind == 1, chain });
        self.scopes.len() - 1
    }

    // -- expressions ------------------------------------------------------------------------------

    fn is_typing(&mut self, scope: usize, node: &Node, name: &str) -> bool {
        let Form::Name(own) = &node.form else { return false };
        let Some(bound) = self.lookup(scope, own) else { return false };
        let data = &self.db.definitions[bound.source.id];
        data.name == name && self.db.files[data.file.id].path == "stdlib/typing.pyi"
    }

    fn infer(&mut self, scope: usize, node: &Node) -> Type {
        let unknown = self.db.unknown;
        match &node.form {
            Form::Name(name) => match name.as_str() {
                "None" => self.intern(Meaning::Absent),
                "True" | "False" => {
                    let class = self.builtin_class("bool");
                    self.intern(Meaning::Literal(class, name.clone()))
                }
                _ => self.lookup(scope, name).map_or(unknown, |bound| bound.ty),
            },
            Form::Text(text) => {
                let class = self.builtin_class("str");
                self.intern(Meaning::Literal(class, text.clone()))
            }
            Form::Integer(text) => {
                let class = self.builtin_class("int");
                self.intern(Meaning::Literal(class, text.clone()))
            }
            Form::Float => self.builtin("float"),
            Form::Bytes => self.builtin("bytes"),
            Form::Attribute(value, name) => {
                let receiver = self.infer(scope, value);
                let mut found: Vec<Type> = Vec::new();
                for part in self.alternatives(receiver) {
                    found.push(self.member(part, name).map_or(unknown, |member| member.0));
                }
                self.union(found)
            }
            Form::Tuple(items) => {
                let elements: Vec<Type> = items.iter().map(|item| self.infer(scope, item)).collect();
                self.intern(Meaning::Elements(elements, false))
            }
            Form::List(items) => self.infer_collection(scope, "list", items),
            Form::Braces { items, mapping: false } => self.infer_collection(scope, "set", items),
            Form::Braces { .. } => self.builtin("dict"),
            Form::Choice(value, _, other) => {
                let types = vec![self.infer(scope, value), self.infer(scope, other)];
                self.union(types)
            }
            Form::Comprehension { list, element, target, source, .. } => {
                let iterated = self.infer(scope, source);
                let item = self.db.types[iterated.id].iterates.unwrap_or(unknown);
                let inner = self.open_scope(scope, 2, "<comprehension>");
                let place = self.scope_file(scope);
                let range = TextRange::new(node.start, node.start);
                let definition = self.define(place, inner, DefinitionKind::Other, target, range);
                self.bind_plain(inner, target, definition, item);
                let element = self.infer(inner, element);
                let class = if *list {
                    self.builtin_class("list")
                } else {
                    let module = self.resolve_module("types").unwrap();
                    let file = self.db.modules[module.id].file.unwrap();
                    let scope = self.sources[file.id].scope;
                    let bound = self.scope_entry(scope, "GeneratorType").unwrap();
                    match self.meanings[bound.ty.id] {
                        Meaning::ClassObject(class) => class,
                        _ => unreachable!(),
                    }
                };
                let class = self.specialize(class, vec![element]);
                self.intern(Meaning::Instance(class))
            }
            Form::Call(callee, arguments) => self.infer_call(scope, callee, arguments),
            Form::Lambda(_) | Form::Ellipsis => self.intern(Meaning::Opaque),
            Form::Operation(..) | Form::Subscript(..) | Form::Prefixed(_) | Form::Nothing => unknown,
        }
    }

    fn scope_file(&self, scope: usize) -> File {
        let mut at: usize = scope;
        while let Some(parent) = self.scopes[at].parent {
            at = parent;
        }
        let id = self.sources.iter().position(|source| source.scope == at).unwrap();
        File { id }
    }

    fn infer_collection(&mut self, scope: usize, name: &str, items: &[Node]) -> Type {
        let class = self.builtin_class(name);
        let mut found: Vec<Type> = Vec::new();
        for item in items {
            let ty = self.infer(scope, item);
            found.push(self.widen(ty));
        }
        let class = if found.is_empty() {
            class
        } else {
            let item = self.union(found);
            self.specialize(class, vec![item])
        };
        self.intern(Meaning::Instance(class))
    }

    fn infer_call(&mut self, scope: usize, callee: &Node, arguments: &[Argument]) -> Type {
        if self.is_typing(scope, callee, "cast") {
            return self.annotation(scope, arguments[0].value());
        }
        if self.is_typing(scope, callee, "TypeVar") {
            let Form::Text(name) = &arguments[0].value().form else { unreachable!() };
            return self.intern(Meaning::Variable(name.clone()));
        }
        let callee = self.infer(scope, callee);
        match self.meanings[callee.id].clone() {
            Meaning::ClassObject(class) => {
                let mut class = class;
                if class == self.builtin_class("frozenset") && arguments.len() == 1 {
                    let argument = self.infer(scope, arguments[0].value());
                    let item = self.db.types[argument.id].iterates.unwrap_or(self.db.unknown);
                    class = self.specialize(class, vec![item]);
                }
                self.intern(Meaning::Instance(class))
            }
            Meaning::Function(definition) | Meaning::Bound(definition) => {
                *self.returns.get(&definition.id).unwrap_or(&self.db.unknown)
            }
            _ => self.db.unknown,
        }
    }

    fn annotation(&mut self, scope: usize, node: &Node) -> Type {
        if self.is_typing(scope, node, "Any") {
            return self.db.unknown;
        }
        match &node.form {
            Form::Operation(_, left, right) => {
                let types = vec![self.annotation(scope, left), self.annotation(scope, right)];
                self.union(types)
            }
            Form::Subscript(value, items) => {
                if self.is_typing(scope, value, "Literal") {
                    return self.infer(scope, &items[0]);
                }
                let class = match &value.form {
                    Form::Name(name) if name == "type" => {
                        let inner = self.annotation(scope, &items[0]);
                        return match self.meanings[inner.id].clone() {
                            Meaning::Variable(name) => self.intern(Meaning::VariableClass(name)),
                            _ => self.intern(Meaning::AnyClass),
                        };
                    }
                    _ => {
                        let value = self.infer(scope, value);
                        match self.meanings[value.id] {
                            Meaning::ClassObject(class) => class,
                            _ => return self.db.unknown,
                        }
                    }
                };
                let variadic = matches!(items.last().unwrap().form, Form::Ellipsis);
                let count: usize = if variadic { items.len() - 1 } else { items.len() };
                let mut arguments: Vec<Type> = Vec::new();
                for item in &items[..count] {
                    arguments.push(self.annotation(scope, item));
                }
                if class == self.builtin_class("tuple") {
                    return self.intern(Meaning::Elements(arguments, variadic));
                }
                let class = self.specialize(class, arguments);
                self.intern(Meaning::Instance(class))
            }
            _ => {
                let ty = self.infer(scope, node);
                match self.meanings[ty.id].clone() {
                    Meaning::ClassObject(class) => {
                        let structural = self
                            .ancestors(class)
                            .iter()
                            .any(|base| self.is_class(*base, "typing", "TypedDict"));
                        if structural {
                            self.intern(Meaning::Structure(class))
                        } else {
                            self.intern(Meaning::Instance(class))
                        }
                    }
                    Meaning::Absent | Meaning::Alias(_) | Meaning::Variable(_) => ty,
                    _ => self.db.unknown,
                }
            }
        }
    }

    /// The definitions that an expression names in the source.
    fn named_definitions(&mut self, scope: usize, node: &Node) -> Vec<Definition> {
        match &node.form {
            Form::Name(name) => self.lookup(scope, name).iter().map(|bound| bound.source).collect(),
            Form::Attribute(value, name) => {
                let receiver = self.infer(scope, value);
                let parts = self.alternatives(receiver);
                parts
                    .iter()
                    .filter_map(|part| self.member_binding(*part, name))
                    .map(|bound| bound.source)
                    .collect()
            }
            _ => Vec::new(),
        }
    }

    fn callee(&mut self, scope: usize, node: &Node) -> Callee {
        let sources = self.named_definitions(scope, node);
        let inferred = Some(self.infer(scope, node));
        match &node.form {
            Form::Name(name) => {
                let bindings = match self.scope_entry(scope, name) {
                    Some(bound) => {
                        vec![Binding::Defined { definition: bound.definition, ty: bound.ty }]
                    }
                    None => Vec::new(),
                };
                Callee::Name { id: name.clone(), bindings, inferred, sources }
            }
            Form::Attribute(value, name) => {
                let receiver = self.infer(scope, value);
                for part in self.alternatives(receiver) {
                    self.recorded_member(part, name);
                }
                Callee::Attribute { receiver: Some(receiver), attr: name.clone(), sources }
            }
            _ => Callee::Other { inferred },
        }
    }

    fn expression(&mut self, scope: usize, node: &Node) -> Expr {
        let mut children: Vec<Expr> = Vec::new();
        let kind = match &node.form {
            Form::Call(callee, arguments) => {
                children.push(self.expression(scope, callee));
                let mut observed: Vec<CallArgument> = Vec::new();
                for argument in arguments {
                    children.push(self.expression(scope, argument.value()));
                    let ty = Some(self.infer(scope, argument.value()));
                    observed.push(match argument {
                        Argument::Positional(_) => CallArgument::Positional { ty },
                        Argument::Keyword(name, _) => CallArgument::Keyword { name: name.clone(), ty },
                        Argument::Starred(_) => CallArgument::Starred,
                        Argument::Unpacked(_) => CallArgument::Unpacked,
                    });
                }
                ExprKind::Call(CallSite {
                    range: TextRange::new(node.start, node.end),
                    callee: self.callee(scope, callee),
                    arguments: observed,
                })
            }
            Form::Lambda(body) => {
                children.push(self.expression(scope, body));
                ExprKind::Deferred
            }
            Form::Comprehension { element, source, tests, .. } => {
                children.push(self.expression(scope, element));
                children.push(self.expression(scope, source));
                for test in tests {
                    children.push(self.expression(scope, test));
                }
                ExprKind::Deferred
            }
            Form::Attribute(value, _) | Form::Prefixed(value) => {
                children.push(self.expression(scope, value));
                ExprKind::Other
            }
            Form::Tuple(items) | Form::List(items) | Form::Braces { items, .. } => {
                for item in items {
                    children.push(self.expression(scope, item));
                }
                ExprKind::Other
            }
            Form::Choice(value, test, other) => {
                for part in [value, test, other] {
                    children.push(self.expression(scope, part));
                }
                ExprKind::Other
            }
            Form::Operation(_, left, right) => {
                children.push(self.expression(scope, left));
                children.push(self.expression(scope, right));
                ExprKind::Other
            }
            Form::Subscript(value, items) => {
                children.push(self.expression(scope, value));
                for item in items {
                    children.push(self.expression(scope, item));
                }
                ExprKind::Other
            }
            _ => ExprKind::Other,
        };
        Expr { kind, children }
    }

    // -- statements -------------------------------------------------------------------------------

    fn run_module(&mut self, file: File) {
        let source = &mut self.sources[file.id];
        if source.started {
            return;
        }
        source.started = true;
        let scope = source.scope;
        let statements = source.statements.clone();
        let drafts = self.run(file, scope, &statements, false);
        self.sources[file.id].drafts = drafts;
    }

    fn run_job(&mut self, at: usize) {
        let scope = self.jobs[at].scope;
        let file = self.jobs[at].file;
        let parameters = std::mem::take(&mut self.jobs[at].parameters);
        let body = std::mem::take(&mut self.jobs[at].body);
        for (parameter, ty) in parameters {
            let definition =
                self.define(file, scope, DefinitionKind::Other, &parameter.name, parameter.range);
            self.bind_plain(scope, &parameter.name, definition, ty);
        }
        let drafts = self.run(file, scope, &body, false);
        self.finished[at] = Some(drafts);
    }

    fn run(&mut self, file: File, scope: usize, statements: &[Statement], possibly: bool) -> Vec<Draft> {
        let mut drafts: Vec<Draft> = Vec::new();
        for statement in statements {
            drafts.push(self.run_statement(file, scope, statement, possibly));
        }
        drafts
    }

    fn decorator(&mut self, scope: usize, node: &Node) -> Decorator {
        match &node.form {
            Form::Call(callee, _) => Decorator::Factory(self.callee(scope, callee)),
            _ => Decorator::Plain(self.callee(scope, node)),
        }
    }

    fn run_statement(
        &mut self,
        file: File,
        scope: usize,
        statement: &Statement,
        possibly: bool,
    ) -> Draft {
        let range = TextRange::new(statement.start, statement.end);
        let unknown = self.db.unknown;
        let mut header: Vec<Expr> = Vec::new();
        let mut body: Vec<Draft> = Vec::new();
        let mut job: Option<usize> = None;
        let mut kind = StmtKind::Other;
        match &statement.form {
            StatementForm::Function {
                name,
                name_range,
                variables,
                parameters,
                returns,
                decorators,
                body: inner,
            } => {
                let mut manner = Manner::Plain;
                let mut opaque = false;
                let mut found: Vec<Decorator> = Vec::new();
                for node in decorators {
                    found.push(self.decorator(scope, node));
                    header.push(self.expression(scope, node));
                    match &node.form {
                        Form::Name(name) if name == "staticmethod" => manner = Manner::Static,
                        Form::Name(name) if name == "classmethod" => manner = Manner::OfClass,
                        _ => opaque = true,
                    }
                }
                let definition = self.define(file, scope, DefinitionKind::Function, name, *name_range);
                let own = if opaque {
                    unknown
                } else {
                    self.intern(Meaning::Function(definition))
                };
                let inner_scope = self.open_scope(scope, 2, name);
                for (variable, bound) in variables {
                    let ty = self.intern(Meaning::Variable(format!("{name}.{variable}")));
                    let bound = match bound.as_ref().map(|bound| &bound.form) {
                        None => TypeVarBound::Unbound,
                        Some(Form::Tuple(items)) => {
                            let mut constraints: Vec<Type> = Vec::new();
                            for item in items {
                                constraints.push(self.annotation(scope, item));
                            }
                            TypeVarBound::Constraints(self.union(constraints))
                        }
                        Some(_) => TypeVarBound::UpperBound,
                    };
                    self.db.types[ty.id].kind = TypeKind::TypeVar { bound };
                    let place = self.define(file, inner_scope, DefinitionKind::Other, variable, *name_range);
                    self.bind_plain(inner_scope, variable, place, ty);
                }
                let mut typed: Vec<(Parameter, Type)> = Vec::new();
                for parameter in parameters {
                    let ty = match &parameter.annotation {
                        Some(annotation) => {
                            header.push(self.expression(inner_scope, annotation));
                            self.annotation(inner_scope, annotation)
                        }
                        None => unknown,
                    };
                    if let Some(default) = &parameter.default {
                        header.push(self.expression(scope, default));
                    }
                    typed.push((parameter.clone(), ty));
                }
                if let Some(returns) = returns {
                    header.push(self.expression(inner_scope, returns));
                    let ty = self.annotation(inner_scope, returns);
                    self.returns.insert(definition.id, ty);
                }
                self.bind(
                    scope,
                    name,
                    Bound { definition, source: definition, ty: own, manner, possibly },
                );
                self.jobs.push(Job { file, scope: inner_scope, parameters: typed, body: inner.clone() });
                self.finished.push(None);
                job = Some(self.jobs.len() - 1);
                kind = StmtKind::Function { definition, anchor: statement.start, decorators: found };
            }
            StatementForm::Class { name, name_range, bases, decorators, body: inner } => {
                for node in decorators {
                    header.push(self.expression(scope, node));
                }
                let class = Class { id: self.db.classes.len() };
                let mut mro = vec![ClassBase::Class(class)];
                for base in bases {
                    header.push(self.expression(scope, base.value()));
                    let Argument::Positional(base) = base else { continue };
                    let ty = match &base.form {
                        Form::Subscript(..) => self.annotation(scope, base),
                        _ => self.infer(scope, base),
                    };
                    match self.meanings[ty.id].clone() {
                        Meaning::ClassObject(base) | Meaning::Instance(base) => {
                            for entry in self.db.classes[base.id].mro.clone() {
                                if !mro.contains(&entry) {
                                    mro.push(entry);
                                }
                            }
                        }
                        _ => mro.push(ClassBase::Dynamic),
                    }
                }
                let chain = self.scopes[scope].chain.clone();
                let path = self.db.files[file.id].path.clone();
                let known = match (path.as_str(), name.as_str()) {
                    ("stdlib/builtins.pyi", "list") => Some(KnownClass::List),
                    ("stdlib/builtins.pyi", "set") => Some(KnownClass::SetClass),
                    ("stdlib/builtins.pyi", "frozenset") => Some(KnownClass::FrozenSet),
                    ("stdlib/builtins.pyi", "dict") => Some(KnownClass::Dict),
                    ("stdlib/types.pyi", "GeneratorType") => Some(KnownClass::GeneratorType),
                    ("stdlib/collections.pyi", "Counter") => Some(KnownClass::Counter),
                    _ => None,
                };
                self.db.classes.push(ClassData {
                    name: name.clone(),
                    file,
                    enclosing: chain.iter().rev().map(|(_, name)| name.clone()).collect(),
                    mro,
                    known,
                    arguments: Vec::new(),
                    is_static: true,
                    generic: class,
                    is_features: false,
                    fields: Vec::new(),
                    declarations: Vec::new(),
                });
                let inner_scope = self.open_scope(scope, 1, name);
                self.class_scopes.push(inner_scope);
                let definition = self.define(file, scope, DefinitionKind::Class, name, *name_range);
                body = self.run(file, inner_scope, inner, false);
                let own = if decorators.is_empty() {
                    let ty = self.intern(Meaning::ClassObject(class));
                    self.db.types[ty.id].definition = Some(TypeDefinition::StaticClass(definition));
                    ty
                } else {
                    unknown
                };
                self.bind_plain(scope, name, definition, own);
                kind = StmtKind::Class;
            }
            StatementForm::If { test, body: inner } => {
                header.push(self.expression(scope, test));
                let mut narrowed: Option<(String, Bound)> = None;
                if let Form::Call(callee, arguments) = &test.form {
                    if let (Form::Name(function), Form::Name(name)) =
                        (&callee.form, &arguments[0].value().form)
                    {
                        if function == "isinstance" {
                            let mut bound = self.lookup(scope, name).unwrap();
                            let class = self.annotation(scope, arguments[1].value());
                            bound.ty = self.intern(Meaning::Narrowed(bound.ty, class));
                            narrowed = Some((name.clone(), bound));
                        }
                    }
                }
                let is_narrowed = narrowed.is_some();
                if let Some((name, bound)) = narrowed {
                    self.bind(scope, &name, bound);
                }
                body = self.run(file, scope, inner, true);
                if is_narrowed {
                    self.scopes[scope].names.pop();
                }
            }
            StatementForm::ImportFrom { module, names } => {
                let typing_module = self.resolve_module(module);
                if let Some(found) = typing_module {
                    if let Some(imported) = self.db.modules[found.id].file {
                        self.run_module(imported);
                    }
                }
                for (symbol, name, focus) in names {
                    let definition = self.define(
                        file,
                        scope,
                        DefinitionKind::ImportFrom {
                            module: Some(module.clone()),
                            symbol: symbol.clone(),
                            typing_module,
                        },
                        name,
                        *focus,
                    );
                    let mut bound = Bound {
                        definition,
                        source: definition,
                        ty: unknown,
                        manner: Manner::Plain,
                        possibly: false,
                    };
                    if let Some(found) = typing_module {
                        let receiver = self.intern(Meaning::ModuleObject(found));
                        if let Some(origin) = self.member_binding(receiver, symbol) {
                            bound.source = origin.source;
                        }
                        if let Some((ty, _)) = self.member(receiver, symbol) {
                            bound.ty = ty;
                        }
                    }
                    self.bind(scope, name, bound);
                }
            }
            StatementForm::Import { module, alias, range } => {
                let (name, target) = match alias {
                    Some(alias) => (alias.clone(), module.clone()),
                    None => {
                        let first = module.split('.').next().unwrap().to_owned();
                        (first.clone(), first)
                    }
                };
                let found = self.resolve_module(&target);
                let ty = match found {
                    Some(found) => self.intern(Meaning::ModuleObject(found)),
                    None => unknown,
                };
                let definition = self.define(file, scope, DefinitionKind::Other, &name, *range);
                self.bind_plain(scope, &name, definition, ty);
                if let Some(imported) = found.and_then(|found| self.db.modules[found.id].file) {
                    self.run_module(imported);
                }
            }
            StatementForm::Assign { target, range, annotation, value } => {
                let mut ty = unknown;
                if let Some(annotation) = annotation {
                    body.push(Draft::Part(Child::Annotation(self.expression(scope, annotation))));
                    ty = self.annotation(scope, annotation);
                }
                if let Some(value) = value {
                    body.push(Draft::Part(Child::Expr(self.expression(scope, value))));
                    ty = self.infer(scope, value);
                }
                let definition = self.define(file, scope, DefinitionKind::Other, target, *range);
                self.bind_plain(scope, target, definition, ty);
            }
            StatementForm::TypeAlias { name, range, bounds, value } => {
                let definition = self.define(file, scope, DefinitionKind::Other, name, *range);
                let ty = self.intern(Meaning::Alias(definition.id));
                self.bind_plain(scope, name, definition, ty);
                let target = self.annotation(scope, value);
                self.db.types[ty.id].kind = TypeKind::TypeAlias { value: target };
                for node in bounds.iter().chain([value]) {
                    body.push(Draft::Part(Child::Expr(self.expression(scope, node))));
                }
                kind = StmtKind::TypeAlias;
            }
            StatementForm::Expression(node) => {
                body.push(Draft::Part(Child::Expr(self.expression(scope, node))));
            }
            StatementForm::Pass => {}
        }
        Draft::Statement { range, kind, header, body, job }
    }

    fn finish(&mut self, drafts: Vec<Draft>) -> Vec<Child> {
        let mut parts: Vec<Child> = Vec::new();
        for draft in drafts {
            match draft {
                Draft::Part(child) => parts.push(child),
                Draft::Statement { range, kind, header, body, job } => {
                    let inner = match job {
                        Some(at) => self.finished[at].take().unwrap(),
                        None => body,
                    };
                    let body = self.finish(inner);
                    parts.push(Child::Stmt(Stmt { range, kind, header, body }));
                }
            }
        }
        parts
    }
}

/// A program that was checked.
struct Program {
    db: Db,
    supported: SupportedFuncs,
    paths: Vec<String>,
    texts: Vec<String>,
    comments: Vec<Vec<TextRange>>,
    bodies: Vec<Vec<Child>>,
}

fn check(files: &[(&str, &str)]) -> Program {
    let mut frontend = Frontend::new(files);
    let mut bodies: Vec<Vec<Child>> = Vec::new();
    for id in 0..frontend.sources.len() {
        let drafts = std::mem::take(&mut frontend.sources[id].drafts);
        let body = frontend.finish(drafts);
        bodies.push(body);
    }
    Program {
        db: frontend.db,
        supported: registry(),
        paths: frontend.sources.iter().map(|source| source.path.clone()).collect(),
        texts: frontend.sources.iter().map(|source| source.text.clone()).collect(),
        comments: frontend.sources.iter().map(|source| source.comments.clone()).collect(),
        bodies,
    }
}

// ---------------------------------------------------------------------------------------------
// A registry
// ---------------------------------------------------------------------------------------------

fn any() -> SupportedTy {
    SupportedTy::Any { nullable: true }
}

fn text_type() -> SupportedTy {
    SupportedTy::Str { nullable: false }
}

fn integer() -> SupportedTy {
    SupportedTy::Int { nullable: false }
}

fn number() -> SupportedTy {
    SupportedTy::Float { nullable: false }
}

fn list_of(item: SupportedTy) -> SupportedTy {
    SupportedTy::List { nullable: false, items: Box::new(item) }
}

fn module_named(name: &str) -> SupportedTy {
    SupportedTy::Module { nullable: false, name: name.to_owned() }
}

fn entry(kind: CallKind, name: &str, signatures: Vec<Vec<(SupportedTy, Option<&str>, bool)>>) -> SupportedEntry {
    SupportedEntry {
        call: SupportedCall::new(kind, name),
        signatures: signatures
            .into_iter()
            .map(|arguments| SupportedSignature {
                args: arguments
                    .into_iter()
                    .map(|(ty, name, has_default)| SupportedArg {
                        ty,
                        argument_name: name.map(str::to_owned),
                        has_default,
                    })
                    .collect(),
            })
            .collect(),
    }
}

fn registry() -> SupportedFuncs {
    SupportedFuncs::from_impls(vec![
        entry(CallKind::Builtin, "abs", vec![vec![(number(), None, false)]]),
        entry(
            CallKind::Builtin,
            "round",
            vec![vec![(number(), Some("number"), false), (integer(), Some("ndigits"), true)]],
        ),
        entry(CallKind::Builtin, "bool", vec![vec![(any(), None, false)]]),
        entry(CallKind::Builtin, "len", vec![vec![(any(), None, false)]]),
        entry(
            CallKind::Builtin,
            "int",
            vec![vec![(text_type(), None, false)], vec![(number(), None, false)]],
        ),
        entry(
            CallKind::Method,
            "__bool__",
            vec![vec![(text_type(), None, false)], vec![(integer(), None, false)]],
        ),
        entry(
            CallKind::Method,
            "__len__",
            vec![
                vec![(text_type(), None, false)],
                vec![(list_of(any()), None, false)],
                vec![(
                    SupportedTy::Tuple { nullable: false, items: vec![any()], is_variable: true },
                    None,
                    false,
                )],
                vec![(
                    SupportedTy::Tuple { nullable: false, items: Vec::new(), is_variable: false },
                    None,
                    false,
                )],
            ],
        ),
        entry(
            CallKind::Method,
            "startswith",
            vec![vec![(text_type(), None, false), (text_type(), None, false)]],
        ),
        entry(
            CallKind::Method,
            "sqrt",
            vec![vec![(module_named("math"), None, false), (number(), Some("x"), false)]],
        ),
        entry(
            CallKind::Method,
            "now",
            vec![vec![(module_named("datetime.datetime"), None, false)]],
        ),
    ])
}

// ---------------------------------------------------------------------------------------------
// Asking a program
// ---------------------------------------------------------------------------------------------

fn collect_calls<'a>(expr: &'a Expr, found: &mut Vec<&'a CallSite>) {
    if let ExprKind::Call(call) = &expr.kind {
        found.push(call);
    }
    for child in &expr.children {
        collect_calls(child, found);
    }
}

fn collect_body_calls<'a>(body: &'a [Child], found: &mut Vec<&'a CallSite>) {
    for child in body {
        match child {
            Child::Stmt(stmt) => {
                for expr in &stmt.header {
                    collect_calls(expr, found);
                }
                collect_body_calls(&stmt.body, found);
            }
            Child::Expr(expr) | Child::Annotation(expr) => collect_calls(expr, found),
        }
    }
}

/// The calls that are statements of a body.
fn call_statements(body: &[Child]) -> Vec<&CallSite> {
    body.iter()
        .filter_map(|child| match child {
            Child::Stmt(stmt) => match (&stmt.kind, stmt.body.as_slice()) {
                (StmtKind::Other, [Child::Expr(Expr { kind: ExprKind::Call(call), .. })])
                    if stmt.range.start == call.range.start && stmt.range.end == call.range.end =>
                {
                    Some(call)
                }
                _ => None,
            },
            _ => None,
        })
        .collect()
}

impl Program {
    fn file(&self, path: &str) -> File {
        File { id: self.paths.iter().position(|own| own == path).unwrap() }
    }

    fn body(&self, path: &str) -> &Vec<Child> {
        &self.bodies[self.file(path).id]
    }

    fn text(&self, file: File, range: TextRange) -> &str {
        &self.texts[file.id][range.start as usize..range.end as usize]
    }

    fn name(&self, definition: Definition) -> &str {
        &self.db.definitions[definition.id].name
    }

    fn model(&self, path: &str) -> SemanticModel<'_> {
        SemanticModel { db: &self.db, file: self.file(path) }
    }

    /// The types of what is handed to `sink`, in source order.
    fn sink_types(&self, path: &str) -> Vec<Type> {
        let mut calls: Vec<&CallSite> = Vec::new();
        collect_body_calls(self.body(path), &mut calls);
        calls
            .iter()
            .filter(|call| matches!(&call.callee, Callee::Name { id, .. } if id == "sink"))
            .flat_map(|call| &call.arguments)
            .map(|argument| match argument {
                CallArgument::Positional { ty } => ty.unwrap(),
                _ => panic!("sink takes positional arguments"),
            })
            .collect()
    }

    fn facts(&self, path: &str) -> FileFacts {
        let file = self.file(path);
        extract_file_facts(
            &self.db,
            file,
            &self.supported,
            &self.texts[file.id],
            &self.comments[file.id],
            &self.bodies[file.id],
        )
    }

    fn candidates(&self, paths: &[&str]) -> ProjectCandidates {
        let files = paths
            .iter()
            .filter(|path| path.ends_with(".py"))
            .map(|path| ProjectFile { file: self.file(path), facts: Some(self.facts(path)) })
            .collect();
        project_candidates(&self.db, &files)
    }

    fn resolve_module(&self, name: &str) -> Option<Module> {
        let candidates = self.db.modules.iter().enumerate().filter(|(_, module)| module.name == name);
        candidates
            .min_by_key(|(_, module)| match module.file {
                Some(file) => preference(&self.db.files[file.id].path),
                None => 100,
            })
            .map(|(id, _)| Module { id })
    }
}

fn root_names(program: &Program, path: &str) -> Vec<String> {
    let facts = program.facts(path);
    facts
        .resolver_roots()
        .iter()
        .map(|root| program.name(root.definition).to_owned())
        .collect()
}

// ---------------------------------------------------------------------------------------------
// Types
// ---------------------------------------------------------------------------------------------

#[test]
fn primitives_literals_numeric_widening_and_baked_types() {
    let program = check(&[(
        "/src/main.py",
        "\
from datetime import date, datetime, time, timedelta, timezone
from difflib import SequenceMatcher
from re import Match, Pattern
from typing import cast

sink(
    True,
    b\"bytes\",
    1,
    1.5,
    \"text\",
    cast(date, object()),
    cast(datetime, object()),
    cast(time, object()),
    cast(timedelta, object()),
    cast(timezone, object()),
    cast(Match[str], object()),
    cast(Pattern[str], object()),
    SequenceMatcher(),
    slice(1),
)
",
    )]);
    let types = program.sink_types("/src/main.py");
    let expected = [
        SupportedTy::Bool { nullable: false },
        SupportedTy::Bytes { nullable: false },
        SupportedTy::Float { nullable: false },
        SupportedTy::Float { nullable: false },
        SupportedTy::Str { nullable: false },
        SupportedTy::Date { nullable: false },
        SupportedTy::DateTime { nullable: false },
        SupportedTy::Time { nullable: false },
        SupportedTy::Timedelta { nullable: false },
        SupportedTy::TimeZone { nullable: false },
        SupportedTy::ReMatch { nullable: false },
        SupportedTy::RePattern { nullable: false },
        SupportedTy::SequenceMatcher { nullable: false },
        SupportedTy::Other { nullable: false, name: "TySlice".to_string() },
    ];

    assert_eq!(types.len(), expected.len());
    for (index, (actual, expected)) in types.iter().zip(&expected).enumerate() {
        assert_eq!(
            match_supported_type(&program.db, *actual, expected),
            TypeMatch::Match,
            "argument {index}"
        );
    }
    assert_eq!(
        match_supported_type(&program.db, types[0], &SupportedTy::Int { nullable: false }),
        TypeMatch::NoMatch
    );
}

#[test]
fn nullable_and_dynamic_types_are_binding() {
    let program = check(&[(
        "/src/main.py",
        "\
from typing import Any, cast

any_value = cast(Any, 1)
sink(None, 1, any_value)
",
    )]);
    let db = &program.db;
    let types = program.sink_types("/src/main.py");

    assert_eq!(
        match_supported_type(db, types[0], &SupportedTy::Int { nullable: true }),
        TypeMatch::Match
    );
    assert_eq!(
        match_supported_type(db, types[0], &SupportedTy::Int { nullable: false }),
        TypeMatch::NoMatch
    );
    assert_eq!(
        match_supported_type(db, types[0], &SupportedTy::NoneType { nullable: false }),
        TypeMatch::Match
    );
    assert_eq!(
        match_supported_type(db, types[1], &SupportedTy::NoneType { nullable: true }),
        TypeMatch::NoMatch
    );
    assert_eq!(
        match_supported_type(db, types[2], &SupportedTy::Any { nullable: true }),
        TypeMatch::Inconclusive
    );
    assert_eq!(
        match_supported_type(db, db.unknown, &SupportedTy::Any { nullable: true }),
        TypeMatch::Inconclusive
    );
}

#[test]
fn unions_require_every_arm_and_preserve_known_mismatches() {
    let program = check(&[(
        "/src/main.py",
        "\
from typing import Any, cast

all_supported = cast(int | float, 1)
one_mismatch = cast(int | str, 1)
unknown = cast(int | Any, 1)
mismatch_and_unknown = cast(str | Any, \"\")
sink(all_supported, one_mismatch, unknown, mismatch_and_unknown)
",
    )]);
    let db = &program.db;
    let types = program.sink_types("/src/main.py");

    assert_eq!(match_supported_type(db, types[0], &number()), TypeMatch::Match);
    assert_eq!(match_supported_type(db, types[1], &integer()), TypeMatch::NoMatch);
    assert_eq!(match_supported_type(db, types[2], &integer()), TypeMatch::Inconclusive);
    assert_eq!(match_supported_type(db, types[3], &integer()), TypeMatch::NoMatch);
}

#[test]
fn type_var_constraints_expand_but_upper_bounds_do_not() {
    let program = check(&[(
        "/src/main.py",
        "\
def bounded[T: int](value: T):
    sink(value)

def constrained[T: (int, str)](value: T):
    sink(value)
",
    )]);
    let db = &program.db;
    let types = program.sink_types("/src/main.py");

    assert_eq!(match_supported_type(db, types[0], &integer()), TypeMatch::Inconclusive);
    assert_eq!(match_supported_type(db, types[1], &integer()), TypeMatch::NoMatch);
    assert_eq!(
        match_supported_type(db, types[1], &SupportedTy::Any { nullable: false }),
        TypeMatch::Match
    );
}

#[test]
fn recursive_containers_and_partial_unknowns_terminate() {
    let program = check(&[(
        "/src/main.py",
        "\
from collections import Counter
from typing import Any, cast

type Recursive = list[Recursive]
recursive = cast(Recursive, [])
partial = cast(list[str | Any], [])
mapping = cast(dict[str, list[int]], {})
counter = cast(Counter[str], {})
generator = (item for item in [1])
sink(recursive, partial, mapping, counter, generator, [1], {1}, frozenset({1}))
",
    )]);
    let db = &program.db;
    let types = program.sink_types("/src/main.py");

    assert_eq!(
        match_supported_type(db, types[0], &list_of(list_of(any()))),
        TypeMatch::Match
    );
    assert_eq!(
        match_supported_type(db, types[0], &SupportedTy::Json { nullable: false }),
        TypeMatch::Match
    );
    assert_eq!(match_supported_type(db, types[1], &list_of(integer())), TypeMatch::NoMatch);
    let mapping = SupportedTy::Dict {
        nullable: false,
        key_type: Box::new(text_type()),
        value_type: Box::new(list_of(integer())),
    };
    assert_eq!(match_supported_type(db, types[2], &mapping), TypeMatch::Match);
    let counter = SupportedTy::Counter { nullable: false, items: Box::new(text_type()) };
    assert_eq!(match_supported_type(db, types[3], &counter), TypeMatch::Match);
    let generator = SupportedTy::Generator { nullable: false, items: Box::new(integer()) };
    assert_eq!(match_supported_type(db, types[4], &generator), TypeMatch::Match);
    let iterable = SupportedTy::Iterable { nullable: false, items: Box::new(integer()) };
    assert_eq!(match_supported_type(db, types[5], &iterable), TypeMatch::Match);
    let set = SupportedTy::SetType { nullable: false, items: Box::new(integer()) };
    assert_eq!(match_supported_type(db, types[6], &set), TypeMatch::Match);
    let frozen = SupportedTy::FrozenSet { nullable: false, items: Box::new(integer()) };
    assert_eq!(match_supported_type(db, types[7], &frozen), TypeMatch::Match);
}

#[test]
fn fixed_and_variable_tuples_match_native_specs() {
    let program = check(&[(
        "/src/main.py",
        "\
from typing import cast

fixed = cast(tuple[int, str], (1, \"\"))
variable = cast(tuple[int, ...], ())
sink(fixed, variable)
",
    )]);
    let db = &program.db;
    let types = program.sink_types("/src/main.py");
    let fixed = SupportedTy::Tuple {
        nullable: false,
        items: vec![integer(), text_type()],
        is_variable: false,
    };
    let variable = SupportedTy::Tuple { nullable: false, items: vec![integer()], is_variable: true };

    assert_eq!(match_supported_type(db, types[0], &fixed), TypeMatch::Match);
    assert_eq!(match_supported_type(db, types[0], &variable), TypeMatch::NoMatch);
    assert_eq!(match_supported_type(db, types[1], &variable), TypeMatch::Match);
    assert_eq!(match_supported_type(db, types[1], &fixed), TypeMatch::NoMatch);
}

#[test]
fn class_and_module_matching_use_semantic_identity() {
    let pkg = "class Token: ...\nclass Outer:\n    class Token: ...\n";
    let other = "class Token: ...\n";
    let program = check(&[
        (
            "/src/main.py",
            "\
import pkg
from other import Token as OtherToken
from pkg import Outer, Token

sink(pkg, Token, OtherToken, Outer.Token)
",
        ),
        ("/site-packages/pkg/__init__.pyi", pkg),
        ("/site-packages/pkg/__init__.py", pkg),
        ("/site-packages/other.pyi", other),
        ("/site-packages/other.py", other),
    ]);
    let db = &program.db;
    let types = program.sink_types("/src/main.py");
    let expected_class = SupportedTy::Class {
        nullable: false,
        module: "pkg".to_string(),
        name: "Token".to_string(),
    };

    assert_eq!(match_supported_type(db, types[0], &module_named("pkg")), TypeMatch::Match);
    assert_eq!(match_supported_type(db, types[1], &expected_class), TypeMatch::Match);
    assert_eq!(match_supported_type(db, types[2], &expected_class), TypeMatch::NoMatch);
    assert_eq!(match_supported_type(db, types[3], &expected_class), TypeMatch::NoMatch);
    assert_eq!(match_supported_type(db, types[1], &module_named("pkg")), TypeMatch::NoMatch);
}

#[test]
fn local_runtime_shadow_does_not_match_vendored_registry_identity() {
    let program = check(&[
        (
            "/main.py",
            "\
import datetime

sink(datetime, datetime.datetime)
",
        ),
        (
            "/datetime.py",
            "class datetime:\n    @classmethod\n    def now(cls): ...\n",
        ),
    ]);
    let db = &program.db;
    let types = program.sink_types("/main.py");

    assert_eq!(
        chalk_receiver_module_relation(db, types[0], "datetime"),
        ChalkClassRelation::NoMatch
    );
    assert_eq!(
        chalk_receiver_module_relation(db, types[1], "datetime.datetime"),
        ChalkClassRelation::NoMatch
    );
    let class = SupportedTy::Class {
        nullable: false,
        module: "datetime".to_string(),
        name: "datetime".to_string(),
    };
    assert_eq!(match_supported_type(db, types[1], &class), TypeMatch::NoMatch);
}

#[test]
fn baked_ancestry_types_match_instances_only() {
    let program = check(&[
        (
            "/src/main.py",
            "\
from _hashlib import HASH
from difflib import SequenceMatcher
from re import Match, Pattern
from requests.models import Response
from typing import cast

sink(
    cast(Match[str], object()),
    Match,
    cast(Pattern[str], object()),
    Pattern,
    SequenceMatcher(),
    SequenceMatcher,
    cast(Response, object()),
    Response,
    cast(HASH, object()),
    HASH,
)
",
        ),
        ("/site-packages/requests/__init__.pyi", ""),
        ("/site-packages/requests/__init__.py", ""),
        ("/site-packages/requests/models.pyi", "class Response: ...\n"),
        ("/site-packages/requests/models.py", "class Response: ...\n"),
        ("/site-packages/_hashlib.pyi", "class HASH: ...\n"),
        ("/site-packages/_hashlib.py", "class HASH: ...\n"),
    ]);
    let types = program.sink_types("/src/main.py");
    let expected = [
        SupportedTy::ReMatch { nullable: false },
        SupportedTy::ReMatch { nullable: false },
        SupportedTy::RePattern { nullable: false },
        SupportedTy::RePattern { nullable: false },
        SupportedTy::SequenceMatcher { nullable: false },
        SupportedTy::SequenceMatcher { nullable: false },
        SupportedTy::RequestsHttpResponse { nullable: false },
        SupportedTy::RequestsHttpResponse { nullable: false },
        SupportedTy::HashlibHash { nullable: false },
        SupportedTy::HashlibHash { nullable: false },
    ];

    assert_eq!(types.len(), expected.len());
    for (index, (actual, expected)) in types.iter().zip(&expected).enumerate() {
        assert_eq!(
            match_supported_type(&program.db, *actual, expected),
            if index % 2 == 0 { TypeMatch::Match } else { TypeMatch::NoMatch },
            "argument {index}"
        );
    }
}

#[test]
fn accelerator_categories_use_native_shape_and_ancestry() {
    let program = check(&[
        (
            "/src/main.py",
            "\
from enum import Enum
from google.protobuf.internal.enum_type_wrapper import EnumTypeWrapper
from google.protobuf.message import Message
from typing import TypedDict, cast

class Color(Enum):
    RED = 1

class Row(TypedDict):
    value: int

class Event(Message): ...
class ProtoEnum(EnumTypeWrapper): ...

row = cast(Row, {})
json_value = cast(dict[str, list[int | None]], {})
bad_json = cast(dict[int, str], {})
sink(Color.RED, Color, row, json_value, bad_json, Event(), Event, ProtoEnum())
",
        ),
        ("/site-packages/google/__init__.pyi", ""),
        ("/site-packages/google/__init__.py", ""),
        ("/site-packages/google/protobuf/__init__.pyi", ""),
        ("/site-packages/google/protobuf/__init__.py", ""),
        ("/site-packages/google/protobuf/message.pyi", "class Message: ...\n"),
        ("/site-packages/google/protobuf/message.py", "class Message: ...\n"),
        ("/site-packages/google/protobuf/internal/__init__.pyi", ""),
        ("/site-packages/google/protobuf/internal/__init__.py", ""),
        (
            "/site-packages/google/protobuf/internal/enum_type_wrapper.pyi",
            "class EnumTypeWrapper: ...\n",
        ),
        (
            "/site-packages/google/protobuf/internal/enum_type_wrapper.py",
            "class EnumTypeWrapper: ...\n",
        ),
    ]);
    let types = program.sink_types("/src/main.py");

    for (actual, category, expected) in [
        (types[0], "TyEnum", TypeMatch::Match),
        (types[1], "TyEnum", TypeMatch::Match),
        (types[2], "TyLogicalStruct", TypeMatch::Match),
        (types[3], "TyJson", TypeMatch::Match),
        (types[4], "TyJson", TypeMatch::NoMatch),
        (types[5], "TyProto", TypeMatch::Match),
        (types[6], "TyProto", TypeMatch::Match),
        (types[7], "TyProtoEnum", TypeMatch::Match),
    ] {
        let wanted = SupportedTy::SubClassOf { ty_name: category.to_string(), match_nullable: false };
        assert_eq!(
            match_supported_type(&program.db, actual, &wanted),
            expected,
            "{category}"
        );
    }
    assert_eq!(
        match_supported_type(&program.db, types[3], &SupportedTy::Json { nullable: false }),
        TypeMatch::Match
    );
}

#[test]
fn json_dict_keys_are_matched_recursively() {
    let program = check(&[(
        "/src/main.py",
        "\
from typing import Any, cast

string_or_any = cast(dict[str | Any, int], {})
int_or_any = cast(dict[int | Any, int], {})
sink(string_or_any, int_or_any)
",
    )]);
    let types = program.sink_types("/src/main.py");
    let json = SupportedTy::Json { nullable: false };

    assert_eq!(
        match_supported_type(&program.db, types[0], &json),
        TypeMatch::Inconclusive
    );
    assert_eq!(match_supported_type(&program.db, types[1], &json), TypeMatch::NoMatch);
}

#[test]
fn json_container_alternatives_prefer_a_constructible_match() {
    let program = check(&[(
        "/src/main.py",
        "\
from typing import Any, cast

DynamicBase: Any

class JsonDict(DynamicBase, dict[str, int]): ...

sink(cast(JsonDict, object()))
",
    )]);
    let types = program.sink_types("/src/main.py");

    assert_eq!(
        match_supported_type(&program.db, types[0], &SupportedTy::Json { nullable: false }),
        TypeMatch::Match
    );
}

#[test]
fn intersections_require_positive_proof_or_consistent_bounds() {
    let program = check(&[(
        "/src/main.py",
        "\
def narrowed[T](value: T):
    if isinstance(value, str):
        sink(value)
",
    )]);
    let types = program.sink_types("/src/main.py");

    assert_eq!(match_supported_type(&program.db, types[0], &text_type()), TypeMatch::Match);
    assert_eq!(
        match_supported_type(&program.db, types[0], &integer()),
        TypeMatch::Inconclusive
    );
}

#[test]
fn unknown_matcher_categories_are_inconclusive() {
    let program = check(&[("/src/main.py", "sink(1)\n")]);
    let types = program.sink_types("/src/main.py");
    let category = SupportedTy::SubClassOf {
        ty_name: "FutureCategory".to_string(),
        match_nullable: false,
    };
    let other = SupportedTy::Other { nullable: false, name: "FutureOther".to_string() };

    assert_eq!(
        match_supported_type(&program.db, types[0], &category),
        TypeMatch::Inconclusive
    );
    assert_eq!(
        match_supported_type(&program.db, types[0], &other),
        TypeMatch::Inconclusive
    );
}

#[test]
fn expansion_overflow_is_inconclusive_but_does_not_hide_a_mismatch() {
    let program = check(&[(
        "/src/main.py",
        "\
from typing import cast

deep = cast(list[list[int]], [])
deep_or_mismatch = cast(list[list[int]] | str, [])
sink(deep, deep_or_mismatch)
",
    )]);
    let types = program.sink_types("/src/main.py");
    let expected = list_of(list_of(integer()));

    assert_eq!(
        match_type_within(&program.db, types[0], &expected, 0),
        TypeMatch::Inconclusive
    );
    assert_eq!(
        match_type_within(&program.db, types[1], &expected, 1),
        TypeMatch::NoMatch
    );
}

#[test]
fn expansion_limit_is_independent_of_union_arm_order() {
    let program = check(&[(
        "/src/main.py",
        "\
from typing import cast

deep_first = cast(list[list[list[int]]] | list[str], [])
mismatch_first = cast(list[str] | list[list[list[int]]], [])
sink(deep_first, mismatch_first)
",
    )]);
    let types = program.sink_types("/src/main.py");
    let expected = list_of(list_of(list_of(integer())));

    assert_eq!(types.len(), 2);
    for actual in types {
        assert_eq!(
            match_type_within(&program.db, actual, &expected, 2),
            TypeMatch::NoMatch
        );
    }
}

// ---------------------------------------------------------------------------------------------
// Calls
// ---------------------------------------------------------------------------------------------

#[derive(Clone, Debug, PartialEq)]
enum IdentitySummary {
    Definition,
    Known(KnownCallTarget),
    ModuleSymbol { module: String, symbol: String },
}

#[derive(Clone, Debug, PartialEq)]
enum MatchSummary {
    Match {
        identity: IdentitySummary,
        kind: CallKind,
        name: String,
        receiver_parameter: Option<u32>,
    },
    NoMatch {
        identity: IdentitySummary,
        kind: CallKind,
        name: String,
        receiver_parameter: Option<u32>,
        reason: CallNoMatchReason,
    },
    Inconclusive,
}

fn same_match(left: &CallMatch, right: &CallMatch) -> bool {
    match (left, right) {
        (CallMatch::Match(left), CallMatch::Match(right)) => same_target(left, right),
        (
            CallMatch::NoMatch { target: left, reason: left_reason },
            CallMatch::NoMatch { target: right, reason: right_reason },
        ) => same_target(left, right) && left_reason == right_reason,
        (CallMatch::Inconclusive, CallMatch::Inconclusive) => true,
        _ => false,
    }
}

fn observed(call: &CallSite) -> (Vec<ObservedArgument<'_>>, Option<Type>) {
    let arguments = call
        .arguments
        .iter()
        .map(|argument| match argument {
            CallArgument::Positional { ty } => ObservedArgument::Positional(ty.unwrap()),
            CallArgument::Keyword { name, ty } => {
                ObservedArgument::Keyword { name: name.as_str(), ty: ty.unwrap() }
            }
            _ => panic!("unpacked arguments are not observed"),
        })
        .collect();
    let receiver = match &call.callee {
        Callee::Attribute { receiver, .. } => *receiver,
        _ => None,
    };
    (arguments, receiver)
}

fn call_matches(program: &Program, path: &str, call_index: usize) -> Vec<CallMatch> {
    let call = call_statements(program.body(path))[call_index];
    let (arguments, receiver) = observed(call);
    let model = program.model(path);
    let targets = model.chalk_call_targets(&call.callee);
    let module_provenance = model.chalk_call_module_provenance(&call.callee);
    let mut leads: Vec<ObservedCallTarget<'_>> = Vec::new();
    leads.extend(targets.targets.iter().map(|target| ObservedCallTarget::Resolved(*target)));
    leads.extend(targets.known_targets.iter().map(|target| ObservedCallTarget::Known(*target)));
    leads.extend(module_provenance.iter().map(ObservedCallTarget::ModuleProvenance));
    if targets.has_unresolved {
        leads.push(ObservedCallTarget::Deferred);
    }
    let mut unique: Vec<CallMatch> = Vec::new();
    for target in leads {
        let result = match_call_target(
            &program.db,
            &program.supported,
            ObservedCall { target, arguments: &arguments, receiver },
        );
        if !unique.iter().any(|known| same_match(known, &result)) {
            unique.push(result);
        }
    }
    unique
}

fn has_match(matches: &[CallMatch], kind: CallKind, name: &str) -> bool {
    matches.iter().any(|result| {
        matches!(result, CallMatch::Match(target) if target.kind == kind && target.name == name)
    })
}

fn has_no_match(
    matches: &[CallMatch],
    kind: CallKind,
    name: &str,
    reason: CallNoMatchReason,
) -> bool {
    matches.iter().any(|result| {
        matches!(
            result,
            CallMatch::NoMatch { target, reason: actual }
                if target.kind == kind && target.name == name && *actual == reason
        )
    })
}

fn summarize_identity(identity: &CallMatchIdentity) -> IdentitySummary {
    match identity {
        CallMatchIdentity::Definition(_) => IdentitySummary::Definition,
        CallMatchIdentity::Known(known) => IdentitySummary::Known(*known),
        CallMatchIdentity::ModuleSymbol { module, symbol } => IdentitySummary::ModuleSymbol {
            module: module.clone(),
            symbol: symbol.clone(),
        },
    }
}

fn summarize(matches: Vec<CallMatch>) -> Vec<MatchSummary> {
    matches
        .iter()
        .map(|result| match result {
            CallMatch::Match(target) => MatchSummary::Match {
                identity: summarize_identity(&target.identity),
                kind: target.kind,
                name: target.name.clone(),
                receiver_parameter: target.receiver_parameter,
            },
            CallMatch::NoMatch { target, reason } => MatchSummary::NoMatch {
                identity: summarize_identity(&target.identity),
                kind: target.kind,
                name: target.name.clone(),
                receiver_parameter: target.receiver_parameter,
                reason: *reason,
            },
            CallMatch::Inconclusive => MatchSummary::Inconclusive,
        })
        .collect()
}

fn matched_method(name: &str) -> MatchSummary {
    MatchSummary::Match {
        identity: IdentitySummary::Definition,
        kind: CallKind::Method,
        name: name.to_owned(),
        receiver_parameter: Some(0),
    }
}

fn missing_method(name: &str) -> MatchSummary {
    MatchSummary::NoMatch {
        identity: IdentitySummary::Definition,
        kind: CallKind::Method,
        name: name.to_owned(),
        receiver_parameter: Some(0),
        reason: CallNoMatchReason::MissingRegistryEntry,
    }
}

#[test]
fn builtin_match_type_mismatch_and_missing_binding() {
    let program = check(&[("/main.py", "\nabs(1)\nabs(\"x\")\nabs()\n")]);

    assert!(has_match(&call_matches(&program, "/main.py", 0), CallKind::Builtin, "abs"));
    for index in [1, 2] {
        assert!(has_no_match(
            &call_matches(&program, "/main.py", index),
            CallKind::Builtin,
            "abs",
            CallNoMatchReason::SignatureMismatch,
        ));
    }
}

#[test]
fn imported_alias_and_module_qualified_function_use_semantic_module_receiver() {
    let program = check(&[(
        "/main.py",
        "
import math
from math import sqrt as square_root

square_root(4.0)
math.sqrt(4.0)
",
    )]);

    for index in 0..2 {
        assert_eq!(
            summarize(call_matches(&program, "/main.py", index)),
            [matched_method("sqrt")]
        );
    }
}

#[test]
fn bound_static_and_class_method_receivers_are_concrete() {
    let program = check(&[(
        "/main.py",
        "
import datetime

class C:
    def bound(self, value: int) -> int:
        return value

    @staticmethod
    def static(value: int) -> int:
        return value

    @classmethod
    def class_method(cls, value: int) -> int:
        return value

class DerivedDateTime(datetime.datetime): ...

C().bound(1)
C.static(1)
C.class_method(1)
datetime.datetime.now()
DerivedDateTime.now()
DerivedDateTime(2024, 1, 1).now()
",
    )]);

    for (index, name) in ["bound", "static", "class_method"].into_iter().enumerate() {
        assert_eq!(
            summarize(call_matches(&program, "/main.py", index)),
            [missing_method(name)]
        );
    }
    for index in 3..6 {
        assert_eq!(
            summarize(call_matches(&program, "/main.py", index)),
            [matched_method("now")]
        );
    }
}

#[test]
fn missing_external_entry_and_per_target_alternatives() {
    let program = check(&[
        (
            "/main.py",
            "
from math import sqrt
from external import unsupported

unsupported(1.0)
(sqrt if flag else unsupported)(4.0)
",
        ),
        ("/external.py", "def unsupported(value: float) -> float: ...\n"),
    ]);

    assert_eq!(
        summarize(call_matches(&program, "/main.py", 0)),
        [missing_method("unsupported")]
    );
    assert_eq!(
        summarize(call_matches(&program, "/main.py", 1)),
        [matched_method("sqrt"), missing_method("unsupported")]
    );
}

#[test]
fn named_defaults_and_binding_failures() {
    let program = check(&[(
        "/main.py",
        "
round(number=1)
round(number=1, ndigits=2)
round(1, 2, 3)
round(1, number=2)
round(value=1)
",
    )]);

    for index in 0..2 {
        assert_eq!(
            summarize(call_matches(&program, "/main.py", index)),
            [MatchSummary::Match {
                identity: IdentitySummary::Definition,
                kind: CallKind::Builtin,
                name: "round".into(),
                receiver_parameter: None,
            }]
        );
    }
    for index in 2..5 {
        assert_eq!(
            summarize(call_matches(&program, "/main.py", index)),
            [MatchSummary::NoMatch {
                identity: IdentitySummary::Definition,
                kind: CallKind::Builtin,
                name: "round".into(),
                receiver_parameter: None,
                reason: CallNoMatchReason::SignatureMismatch,
            }]
        );
    }
}

#[test]
fn positional_after_keyword_is_a_binding_mismatch() {
    let program = check(&[("/main.py", "round(1, 2)\n")]);
    let call = call_statements(program.body("/main.py"))[0];
    let (arguments, _) = observed(call);
    let types: Vec<Type> = arguments
        .iter()
        .map(|argument| match argument {
            ObservedArgument::Positional(ty) => *ty,
            ObservedArgument::Keyword { ty, .. } => *ty,
        })
        .collect();
    let target = program.model("/main.py").chalk_call_targets(&call.callee).targets[0];

    let result = match_call_target(
        &program.db,
        &program.supported,
        ObservedCall {
            target: ObservedCallTarget::Resolved(target),
            arguments: &vec![
                ObservedArgument::Keyword { name: "number", ty: types[0] },
                ObservedArgument::Positional(types[1]),
            ],
            receiver: None,
        },
    );
    assert!(matches!(
        result,
        CallMatch::NoMatch { reason: CallNoMatchReason::SignatureMismatch, .. }
    ));
}

#[test]
fn bool_and_len_retain_source_call_identity_while_matching_protocol_methods() {
    let program = check(&[(
        "/main.py",
        "
bool(\"value\")
bool(object())
bool()
len(\"value\")
len(1)
",
    )]);

    assert!(has_match(&call_matches(&program, "/main.py", 0), CallKind::Builtin, "bool"));
    for index in [1, 2] {
        assert!(has_no_match(
            &call_matches(&program, "/main.py", index),
            CallKind::Builtin,
            "bool",
            CallNoMatchReason::SignatureMismatch,
        ));
    }
    assert!(has_match(&call_matches(&program, "/main.py", 3), CallKind::Builtin, "len"));
    assert!(has_no_match(
        &call_matches(&program, "/main.py", 4),
        CallKind::Builtin,
        "len",
        CallNoMatchReason::SignatureMismatch,
    ));
}

#[test]
fn known_startswith_uses_ordinary_method_registry_path() {
    let program = check(&[(
        "/main.py",
        "
\"abc\".startswith(\"a\")
\"abc\".startswith(1)
",
    )]);

    assert_eq!(
        summarize(call_matches(&program, "/main.py", 0)),
        [MatchSummary::Match {
            identity: IdentitySummary::Known(KnownCallTarget::StrStartswith),
            kind: CallKind::Method,
            name: "startswith".into(),
            receiver_parameter: Some(0),
        }]
    );
    assert_eq!(
        summarize(call_matches(&program, "/main.py", 1)),
        [MatchSummary::NoMatch {
            identity: IdentitySummary::Known(KnownCallTarget::StrStartswith),
            kind: CallKind::Method,
            name: "startswith".into(),
            receiver_parameter: Some(0),
            reason: CallNoMatchReason::SignatureMismatch,
        }]
    );
}

/// The stubs of the accelerator's packages that ship with the frontend.
const CHALK_STUBS: &[(&str, &str)] = &[
    (
        "stubs/chalk/__init__.pyi",
        "from chalkdf.dataframe import DataFrame\ndef online(function): ...\n",
    ),
    ("stubs/chalk/functions.pyi", "def if_then_else(condition, value, other): ...\n"),
    ("stubs/chalkdf/__init__.pyi", ""),
    ("stubs/chalkdf/dataframe.pyi", "class DataFrame: ...\n"),
];

#[test]
fn targets_retain_deterministic_labels_and_definition_locations() {
    let mut files = vec![(
        "/main.py",
        "
import datetime
from chalk.functions import if_then_else, missing
from math import sqrt

sqrt(4.0)
bool(\"value\")
len(\"value\")
\"abc\".startswith(\"a\")
datetime.datetime.now()
if_then_else(True, 1, 0)
missing()
",
    )];
    files.extend(CHALK_STUBS);
    let program = check(&files);

    for (index, label, has_definition_range) in [
        (0, "math.sqrt", true),
        (1, "builtins.bool", true),
        (2, "builtins.len", true),
        (3, "str.startswith", false),
        (4, "datetime.datetime.now", true),
        (5, "chalk.functions.if_then_else", true),
        (6, "chalk.functions.missing", false),
    ] {
        let matches = call_matches(&program, "/main.py", index);
        let target: &CallMatchTarget = matches
            .iter()
            .find_map(|result| match result {
                CallMatch::Match(target) | CallMatch::NoMatch { target, .. } => Some(target),
                CallMatch::Inconclusive => None,
            })
            .unwrap();
        assert_eq!(target.display_label, label, "call {index}");
        assert_eq!(target.definition_range.is_some(), has_definition_range, "call {index}");
    }
}

#[test]
fn first_party_chalk_packages_do_not_gain_blanket_support_from_their_name() {
    let program = check(&[(
        "/chalk/__init__.py",
        "
def custom(value): ...

class Model:
    def custom_method(self, value): ...

custom(object())
Model().custom_method(object())
Model()
",
    )]);

    for (index, name) in ["custom", "custom_method"].into_iter().enumerate() {
        assert_eq!(
            summarize(call_matches(&program, "/chalk/__init__.py", index)),
            [missing_method(name)]
        );
    }
    assert_eq!(
        summarize(call_matches(&program, "/chalk/__init__.py", 2)),
        [MatchSummary::Inconclusive]
    );
}

#[test]
fn first_party_shadow_modules_do_not_claim_stdlib_or_chalk_registry_ownership() {
    let program = check(&[(
        "/math.py",
        "
def sqrt(value: float) -> float: ...
sqrt(4.0)
",
    )]);
    assert_eq!(summarize(call_matches(&program, "/math.py", 0)), [missing_method("sqrt")]);

    let program = check(&[("/chalk.py", "def custom(value): ...\ncustom(object())\n")]);
    assert_eq!(summarize(call_matches(&program, "/chalk.py", 0)), [missing_method("custom")]);
}

#[test]
fn local_runtime_shadow_does_not_match_through_vendored_stdlib_stub() {
    let program = check(&[
        ("/main.py", "import datetime\n\ndatetime.datetime.now()\n"),
        (
            "/datetime.py",
            "class datetime:\n    @classmethod\n    def now(cls): ...\n",
        ),
    ]);

    assert_eq!(summarize(call_matches(&program, "/main.py", 0)), [missing_method("now")]);
}

#[test]
fn constructors_require_registered_builtins_and_defer_general_classes() {
    let program = check(&[
        (
            "/main.py",
            "
from builtins import int as Integer
from external import External

class Outer:
    class Inner: ...

int(\"1\")
Integer(\"1\")
dict()
External()
Outer.Inner()
",
        ),
        ("/external.py", "class External: ...\n"),
    ]);

    for index in 0..2 {
        assert_eq!(
            summarize(call_matches(&program, "/main.py", index)),
            [MatchSummary::Match {
                identity: IdentitySummary::Definition,
                kind: CallKind::Builtin,
                name: "int".into(),
                receiver_parameter: None,
            }]
        );
    }
    assert_eq!(
        summarize(call_matches(&program, "/main.py", 2)),
        [MatchSummary::NoMatch {
            identity: IdentitySummary::Definition,
            kind: CallKind::Builtin,
            name: "dict".into(),
            receiver_parameter: None,
            reason: CallNoMatchReason::MissingRegistryEntry,
        }]
    );
    for index in 3..5 {
        assert_eq!(
            summarize(call_matches(&program, "/main.py", index)),
            [MatchSummary::Inconclusive]
        );
    }
}

#[test]
fn bound_method_alias_without_a_receiver_is_inconclusive() {
    let program = check(&[(
        "/main.py",
        "
import datetime

now = datetime.datetime.now
now()
",
    )]);

    assert_eq!(
        summarize(call_matches(&program, "/main.py", 0)),
        [MatchSummary::Inconclusive]
    );
}

#[test]
fn dynamic_targets_and_unknown_components_are_inconclusive() {
    let program = check(&[(
        "/main.py",
        "
from typing import Any

def unresolved(value: Any):
    return value

unresolved(1)(2)

value: Any
len(value)
",
    )]);

    for index in 0..2 {
        assert!(call_matches(&program, "/main.py", index)
            .iter()
            .any(|result| matches!(result, CallMatch::Inconclusive)));
    }
}

#[test]
fn unlisted_symbols_of_installed_packages_are_supported_as_they_are() {
    let mut files = vec![("/main.py", "from chalk.functions import missing\nmissing(1)\n")];
    files.extend(CHALK_STUBS);
    let program = check(&files);
    assert_eq!(
        summarize(call_matches(&program, "/main.py", 0)),
        [
            MatchSummary::Match {
                identity: IdentitySummary::ModuleSymbol {
                    module: "chalk.functions".into(),
                    symbol: "missing".into(),
                },
                kind: CallKind::Method,
                name: "missing".into(),
                receiver_parameter: None,
            },
            MatchSummary::Inconclusive,
        ]
    );
}

// ---------------------------------------------------------------------------------------------
// Origins
// ---------------------------------------------------------------------------------------------

#[test]
fn module_origins_preserve_search_path_identity() {
    let program = check(&[
        ("/src/main.py", ""),
        ("/src/math.py", ""),
        ("/src/project_mod.py", ""),
        ("/site-packages/chalkdf/__init__.pyi", ""),
        ("/site-packages/namespace_pkg/member.pyi", ""),
        ("/extra/extra_mod.py", ""),
    ]);

    for (name, expected) in [
        ("datetime", ModuleOrigin::StandardLibrary),
        ("chalkdf", ModuleOrigin::ThirdParty),
        ("math", ModuleOrigin::StandardLibrary),
        ("project_mod", ModuleOrigin::FirstParty),
        ("extra_mod", ModuleOrigin::Extra),
        ("namespace_pkg", ModuleOrigin::Namespace),
        ("missing", ModuleOrigin::Unresolved),
    ] {
        let module = program.resolve_module(name);
        assert_eq!(module_origin(&program.db, module), expected, "{name}");
    }
}

#[test]
fn module_ownership_prefers_runtime_modules_and_preserves_vendored_fallbacks() {
    let mut files = vec![
        ("/src/main.py", ""),
        ("/src/chalk/__init__.py", ""),
        ("/src/local_stub.pyi", ""),
        ("/site-packages/chalkdf/__init__.py", ""),
        ("/site-packages/namespace_pkg/member.py", ""),
        ("/extra/extra_mod.py", ""),
    ];
    files.extend(CHALK_STUBS);
    let program = check(&files);
    let db = &program.db;
    let file = program.file("/src/main.py");

    let typing_chalk = program.resolve_module("chalk");
    assert_eq!(module_origin(db, typing_chalk), ModuleOrigin::ThirdParty);
    assert_eq!(
        module_ownership_origin(db, file, "chalk", typing_chalk),
        ModuleOrigin::FirstParty
    );

    for (name, expected) in [
        ("chalkdf", ModuleOrigin::ThirdParty),
        ("extra_mod", ModuleOrigin::Extra),
        ("namespace_pkg", ModuleOrigin::Namespace),
        ("datetime", ModuleOrigin::StandardLibrary),
        ("local_stub", ModuleOrigin::Unresolved),
        ("missing", ModuleOrigin::Unresolved),
    ] {
        let typing_module = program.resolve_module(name);
        assert_eq!(
            module_ownership_origin(db, file, name, typing_module),
            expected,
            "{name}"
        );
    }
}

#[test]
fn call_definition_origins_include_qualified_symbols_and_exact_ranges() {
    let origins = "def top(): ...\nclass Type:\n    def method(self): ...\n\ndef outer():\n    def inner(): ...\n    inner()\n";
    let program = check(&[
        ("/src/main.py", "from origins import Type, top\ntop()\nType().method()\n"),
        ("/src/origins.py", origins),
    ]);
    let model = program.model("/src/main.py");
    let calls = call_statements(program.body("/src/main.py"));
    let origin_file = program.file("/src/origins.py");

    for (index, qualified_symbol, range) in [
        (0, "top", TextRange::new(4, 7)),
        (1, "Type.method", TextRange::new(35, 41)),
    ] {
        let call: &CallSite = calls[index];
        let target = model.chalk_call_targets(&call.callee).targets[0];
        let origin = chalk_call_definition_origin(&program.db, target.definition).unwrap();
        assert_eq!(origin.module, "origins");
        assert_eq!(origin.qualified_symbol, qualified_symbol);
        assert_eq!(origin.definition_range().file, origin_file);
        assert_eq!(origin.definition_range().range, range);
    }

    let mut calls: Vec<&CallSite> = Vec::new();
    collect_body_calls(program.body("/src/origins.py"), &mut calls);
    let target = program.model("/src/origins.py").chalk_call_targets(&calls[0].callee).targets[0];
    let origin = chalk_call_definition_origin(&program.db, target.definition).unwrap();
    assert_eq!(origin.qualified_symbol, "outer.<locals>.inner");
    assert_eq!(origin.definition_range().range, TextRange::new(75, 80));
}

#[test]
fn call_module_provenance_is_an_installed_chalk_fallback_only() {
    let mut files = vec![
        (
            "/src/main.py",
            "
from chalk import DataFrame
from chalk.functions import if_then_else as alias
from chalk.functions import missing as direct_missing
from external import missing as external_missing
import chalk.functions as chalk_functions

alias(True, 1, 0)
chalk_functions.if_then_else(True, 1, 0)
direct_missing()
chalk_functions.missing()
DataFrame.missing()
external_missing()
",
        ),
        ("/src/external.py", ""),
    ];
    files.extend(CHALK_STUBS);
    let program = check(&files);
    let model = program.model("/src/main.py");
    let calls = call_statements(program.body("/src/main.py"));

    for index in 0..2 {
        let call: &CallSite = calls[index];
        assert!(model.chalk_call_module_provenance(&call.callee).is_empty());
    }
    for (index, module, receiver_parameter) in [
        (2, "chalk.functions", None),
        (3, "chalk.functions", None),
        (4, "chalkdf.dataframe", Some(0)),
    ] {
        let call: &CallSite = calls[index];
        let provenance = model.chalk_call_module_provenance(&call.callee);
        let [provenance] = provenance.as_slice() else {
            panic!("call {index}: expected one provenance result, got {provenance:#?}");
        };
        assert_eq!(provenance.module, module);
        assert_eq!(provenance.symbol, "missing");
        assert_eq!(provenance.origin, ModuleOrigin::ThirdParty);
        assert_eq!(provenance.ownership_origin, ModuleOrigin::ThirdParty);
        assert_eq!(provenance.receiver_parameter, receiver_parameter);
    }
    assert!(model.chalk_call_module_provenance(&calls[5].callee).is_empty());
}

#[test]
fn call_module_provenance_uses_runtime_ownership_for_typing_overlays() {
    let program = check(&[
        (
            "/src/main.py",
            "
from chalk.dynamic import missing as direct
import chalk.dynamic as module

direct()
module.missing()
",
        ),
        ("/site-packages/chalk/__init__.py", ""),
        ("/site-packages/chalk/dynamic.py", ""),
        ("/extra/chalk-stubs/__init__.pyi", ""),
        ("/extra/chalk-stubs/dynamic.pyi", ""),
    ]);
    let model = program.model("/src/main.py");
    let calls = call_statements(program.body("/src/main.py"));

    for index in 0..2 {
        let call: &CallSite = calls[index];
        let provenance = model.chalk_call_module_provenance(&call.callee);
        let [provenance] = provenance.as_slice() else {
            panic!("call {index}: expected one provenance result, got {provenance:#?}");
        };
        assert_eq!(provenance.module, "chalk.dynamic");
        assert_eq!(provenance.origin, ModuleOrigin::Extra);
        assert_eq!(provenance.ownership_origin, ModuleOrigin::ThirdParty);
    }
}

#[test]
fn receiver_relation_preserves_qualified_owners_inheritance_and_uncertainty() {
    let program = check(&[
        (
            "/src/main.py",
            "
from local import Token as LocalToken
from pkg import Derived, Outer, Token
from typing import Any, TypeVar

dynamic_cls: type[Any]
sink(Token(), Derived(), Token, Derived, Outer.Token, dynamic_cls, LocalToken)

T = TypeVar(\"T\", bound=Token)
def capture(cls: type[T]):
    sink(cls)
",
        ),
        ("/src/local.py", "class Token: ...\n"),
        (
            "/site-packages/pkg/__init__.py",
            "class Token: ...\nclass Derived(Token): ...\nclass Outer:\n    class Token: ...\n",
        ),
    ]);
    let db = &program.db;
    let types = program.sink_types("/src/main.py");
    assert_eq!(types.len(), 8);

    for index in 0..4 {
        assert_eq!(
            chalk_receiver_module_relation(db, types[index], "pkg.Token"),
            ChalkClassRelation::Match,
            "argument {index}"
        );
    }
    assert_eq!(
        chalk_receiver_module_relation(db, types[4], "pkg.Token"),
        ChalkClassRelation::NoMatch
    );
    assert_eq!(
        chalk_receiver_module_relation(db, types[4], "pkg.Outer.Token"),
        ChalkClassRelation::Match
    );
    assert_eq!(
        chalk_receiver_module_relation(db, types[5], "pkg.Token"),
        ChalkClassRelation::Unavailable
    );
    assert_eq!(
        chalk_receiver_module_relation(db, types[6], "local.Token"),
        ChalkClassRelation::NoMatch
    );
    assert_eq!(
        chalk_receiver_module_relation(db, types[7], "pkg.Token"),
        ChalkClassRelation::Unavailable
    );
}

// ---------------------------------------------------------------------------------------------
// Facts
// ---------------------------------------------------------------------------------------------

/// The accelerator's package as it is installed.
const INSTALLED: &[(&str, &str)] = &[
    (
        "/site-packages/chalk/__init__.py",
        "\
from chalk.features.resolver import online as online, resolver as resolver
def batch(function): ...
def realtime(function): ...
",
    ),
    (
        "/site-packages/chalk/features/__init__.py",
        "from chalk.features.resolver import resolver as resolver\n",
    ),
    (
        "/site-packages/chalk/features/resolver.py",
        "\
def online(function): ...
def offline(function): ...
def resolver(function): ...
",
    ),
];

fn check_installed(main: &str, files: &[(&str, &str)]) -> Program {
    let mut all = vec![("/src/main.py", main)];
    all.extend(files);
    all.extend(INSTALLED);
    check(&all)
}

#[test]
fn recognizes_only_baked_resolver_provenance() {
    let source = "\
from chalk.features.resolver import online as direct
from chalk.features.resolver import offline
import chalk.features.resolver as resolver_module
import chalk
from chalk.features import resolver as feature_resolver
from chalk import batch, offline as dynamic_offline
from chalk.features.resolver import batch as wrong_batch
from reexports import feature
from opaque_reexports import online as opaque_reexport
from wrappers import wrapped

condition: bool

def local(function): return function

@direct
def direct_root(): pass

@resolver_module.offline
def module_root(): pass

@feature
def reexported_root(): pass

@feature_resolver
def features_root(): pass

@batch
def chalk_root(): pass

@dynamic_offline
def dynamic_import_root(): pass

@chalk.offline
def dynamic_attribute_root(): pass

@(direct if condition else offline)
def union_root(): pass

@wrong_batch
def wrong_module_symbol(): pass

@local
def local_root(): pass

@wrapped
def opaque_wrapper(): pass

@opaque_reexport
def opaque_module_reexport(): pass

@(direct if condition else local)
def mixed_local(): pass

@(direct if condition else unknown)
def mixed_unresolved(): pass
";
    let program = check_installed(
        source,
        &[
            (
                "/src/reexports.py",
                "from chalk.features.resolver import online as feature\n",
            ),
            ("/src/opaque_reexports.py", ""),
            ("/src/wrappers.py", "def wrapped(function): return function\n"),
        ],
    );

    assert_eq!(
        root_names(&program, "/src/main.py"),
        [
            "direct_root",
            "module_root",
            "reexported_root",
            "features_root",
            "chalk_root",
            "dynamic_import_root",
            "dynamic_attribute_root",
            "union_root",
        ]
    );
}

const ROOT: &str = "\
from chalk import online

@online
def root(): pass
";

#[test]
fn accepts_editable_installed_chalk_resolvers() {
    let program = check(&[
        ("/src/main.py", ROOT),
        ("/editable/chalk/__init__.py", "def online(function): ...\n"),
    ]);
    assert_eq!(root_names(&program, "/src/main.py")[0], "root");
}

#[test]
fn rejects_non_third_party_chalk_resolvers() {
    for (label, file) in [
        ("first party", ("/src/chalk/__init__.py", "def online(function): ...\n")),
        ("extra", ("/extra/chalk/__init__.py", "def online(function): ...\n")),
        ("namespace", ("/site-packages/chalk/member.py", "")),
    ] {
        let program = check(&[("/src/main.py", ROOT), file]);
        assert!(root_names(&program, "/src/main.py").is_empty(), "{label}");
    }

    for origin in [
        ModuleOrigin::StandardLibrary,
        ModuleOrigin::FirstParty,
        ModuleOrigin::Extra,
        ModuleOrigin::Namespace,
        ModuleOrigin::Unresolved,
        ModuleOrigin::Other,
    ] {
        assert!(!is_baked_resolver_origin(origin, "chalk", "online"));
    }
}

#[test]
fn accepts_vendored_stub_only_chalk_resolvers() {
    let mut files = vec![("/src/main.py", ROOT)];
    files.extend(CHALK_STUBS);
    let program = check(&files);
    assert_eq!(root_names(&program, "/src/main.py")[0], "root");
}

#[test]
fn attributes_calls_to_exact_named_functions_and_excludes_deferred_contexts() {
    let source = "\
def target(): pass

target()

def outer(value: target() = target()):
    target()
    deferred = lambda: target()
    values = [target() for item in value if target()]
    type Deferred[T: target()] = target()

    async def nested():
        target()

    def generator():
        yield target()

    class Local(target(), metaclass=target()):
        target()

        def method(self):
            target()

@target()
def decorated():
    target()
";
    let program = check_installed(source, &[]);
    let facts = program.facts("/src/main.py");
    let calls: Vec<&str> = facts.calls().iter().map(|call| program.name(call.caller)).collect();

    assert_eq!(calls, ["outer", "nested", "generator", "method", "decorated"]);
}

#[test]
fn preserves_target_alternatives_and_unresolved_calls() {
    let source = "\
from targets import imported as alias
import targets

def first(): pass
def second(): pass

class Methods:
    @staticmethod
    def static(): pass

    @classmethod
    def class_(cls): pass

    def bound(self): pass

class Conditional:
    if flag:
        def possible(self): pass

def caller(condition, unknown, instance: Methods, conditional: Conditional):
    selected = first if condition else second
    selected()
    unknown()
    alias()
    targets.imported()
    Methods.static()
    Methods.class_()
    instance.bound()
    conditional.possible()
    Methods()
    first(*())
    first(**{})
    len(())
    \"literal\".startswith(\"lit\")
";
    let program = check_installed(source, &[("/src/targets.py", "def imported(): pass\n")]);
    let facts = program.facts("/src/main.py");
    let file = program.file("/src/main.py");
    let calls = facts.calls();
    let target_names: Vec<&str> =
        calls[0].targets.iter().map(|target| program.name(target.definition)).collect();
    let first_target = |index: usize| program.name(calls[index].targets[0].definition);

    assert_eq!(target_names, ["first", "second"]);
    assert_eq!(calls[0].no_matches.len(), 2);
    assert!(calls[0]
        .no_matches
        .iter()
        .all(|(_, reason)| *reason == CallNoMatchReason::MissingRegistryEntry));
    assert!(calls[1].no_matches.is_empty());
    assert!(calls[1].targets.is_empty());
    assert_eq!([first_target(2), first_target(3)], ["imported", "imported"]);
    assert_eq!(
        [first_target(4), first_target(5), first_target(6)],
        ["static", "class_", "bound"]
    );
    assert_eq!(first_target(7), "possible");
    assert_eq!(calls[7].no_matches[0].1, CallNoMatchReason::MissingRegistryEntry);
    assert_eq!(calls[8].targets[0].kind, CallTargetKind::ClassConstructor);
    assert!(calls[8..13].iter().all(|call| call.no_matches.is_empty()));
    assert_eq!([first_target(9), first_target(10)], ["first", "first"]);
    assert_eq!(program.text(file, calls[11].range), "len(())");
    assert!(calls[12].targets.is_empty());
}

#[test]
fn source_definition_fallback_keeps_unresolved_and_rejects_assignment_aliases() {
    let source = "\
from opaque import decorate

@decorate
def direct(): pass

class Local:
    @decorate
    def bound(self): pass

@decorate
class Constructed: pass

def outer(local: Local, dynamic):
    @decorate
    def nested(): pass

    direct()
    local.bound()
    nested()
    Constructed()
    alias = dynamic
    alias()
";
    let program =
        check_installed(source, &[("/src/opaque.py", "def decorate(value): return value\n")]);
    let facts = program.facts("/src/main.py");
    let calls = facts.calls();

    assert_eq!(calls.len(), 5);
    let names: Vec<&str> =
        calls[..3].iter().map(|call| program.name(call.targets[0].definition)).collect();
    assert_eq!(names, ["direct", "bound", "nested"]);
    assert_eq!(calls[3].targets[0].kind, CallTargetKind::ClassConstructor);
    assert!(calls[..2].iter().all(|call| call.no_matches.len() == 1
        && call.no_matches[0].1 == CallNoMatchReason::MissingRegistryEntry));
    assert!(calls[2..].iter().all(|call| call.no_matches.is_empty()));
    assert!(calls[4].targets.is_empty());
}

#[test]
fn links_exact_statement_and_caller_suppressions_without_leaking_to_nested_functions() {
    let source = "\
from chalk import online

# chalk: ignore[unsupported-function]
@online
def root():
    unsupported()  # chalk: ignore[unsupported-function]

    def nested():
        unsupported()

top_level = 1  # chalk: ignore[future-code]
";
    let program = check_installed(source, &[]);
    let facts = program.facts("/src/main.py");
    let file = program.file("/src/main.py");
    let root = &facts.resolver_roots()[0];
    let root_call = &facts.calls()[0];
    let nested_call = &facts.calls()[1];

    assert_eq!(program.name(root.definition), "root");
    assert_eq!(
        program.text(file, root.unsupported_function_suppression.unwrap()),
        "# chalk: ignore[unsupported-function]"
    );
    assert_eq!(program.text(file, root_call.range), "unsupported()");
    assert_eq!(
        program.text(file, root_call.unsupported_function_statement_suppression.unwrap()),
        "# chalk: ignore[unsupported-function]"
    );
    assert!(root_call.unsupported_function_caller_suppression.is_some());
    assert!(nested_call.unsupported_function_statement_suppression.is_none());
    assert!(nested_call.unsupported_function_caller_suppression.is_none());
    assert_eq!(facts.suppression_problems().len(), 1);
    assert_eq!(
        program.text(file, facts.suppression_problems()[0].range),
        "future-code"
    );
}

// ---------------------------------------------------------------------------------------------
// Reachability
// ---------------------------------------------------------------------------------------------

fn check_project(files: &[(&str, &str)]) -> Program {
    let mut all = files.to_vec();
    all.push(("/site-packages/chalk/__init__.py", "def online(function): ...\n"));
    check(&all)
}

impl Program {
    fn unsupported_texts(&self, candidates: &ProjectCandidates) -> Vec<String> {
        candidates
            .unsupported
            .iter()
            .map(|candidate| self.text(candidate.file, candidate.range).to_owned())
            .collect()
    }

    fn cycle_texts(&self, candidates: &ProjectCandidates) -> Vec<String> {
        candidates
            .cycles
            .iter()
            .map(|cycle| self.text(cycle.file, cycle.range).to_owned())
            .collect()
    }
}

#[test]
fn direct_resolver_emits_missing_registry_candidate_despite_type_errors() {
    let program = check_project(&[
        (
            "/main.py",
            "\
from chalk import online
from external import unsupported

@online
def root():
    1 + \"type error\"
    unsupported()
",
        ),
        ("/external.py", "def unsupported(): pass\n"),
    ]);
    let candidates = program.candidates(&["/main.py"]);

    assert_eq!(program.unsupported_texts(&candidates), ["unsupported()"]);
    assert_eq!(candidates.unsupported[0].targets.len(), 1);
    assert_eq!(
        candidates.unsupported[0].targets[0].reason,
        CallNoMatchReason::MissingRegistryEntry
    );
    assert_eq!(candidates.unsupported_for_file(program.file("/main.py")).len(), 1);
}

#[test]
fn distinguishes_missing_registry_entry_from_signature_mismatch() {
    let program = check_project(&[
        (
            "/main.py",
            "\
from chalk import online
from external import missing

@online
def root():
    missing()
    abs(\"not numeric\")
",
        ),
        ("/external.py", "def missing(): pass\n"),
    ]);
    let candidates = program.candidates(&["/main.py"]);

    assert_eq!(
        program.unsupported_texts(&candidates),
        ["missing()", "abs(\"not numeric\")"]
    );
    assert_eq!(
        candidates.unsupported[0].targets[0].reason,
        CallNoMatchReason::MissingRegistryEntry
    );
    assert_eq!(
        candidates.unsupported[1].targets[0].reason,
        CallNoMatchReason::SignatureMismatch
    );
}

#[test]
fn mixed_supported_and_unsupported_targets_report_only_the_unsupported_target() {
    let program = check_project(&[
        (
            "/main.py",
            "\
from chalk import online
from external import missing
from math import sqrt

@online
def root(condition):
    selected = sqrt if condition else missing
    selected(4.0)
",
        ),
        ("/external.py", "def missing(value: float) -> float: ...\n"),
    ]);
    let candidates = program.candidates(&["/main.py"]);

    assert_eq!(program.unsupported_texts(&candidates), ["selected(4.0)"]);
    let candidate = &candidates.unsupported[0];
    assert_eq!(candidate.targets.len(), 1);
    assert_eq!(candidate.targets[0].target.name, "missing");
    assert_eq!(candidate.targets[0].reason, CallNoMatchReason::MissingRegistryEntry);
}

#[test]
fn known_mismatch_is_reported_alongside_an_unresolved_receiver_alternative() {
    let program = check_project(&[(
        "/main.py",
        "\
from chalk import online
from typing import Literal

class Other:
    pass

@online
def root(value: Literal[\"known\"] | Other, ordinary: str):
    ordinary.startswith(\"supported\")
    value.startswith(1)
",
    )]);
    let candidates = program.candidates(&["/main.py"]);

    assert_eq!(program.unsupported_texts(&candidates), ["value.startswith(1)"]);
    let candidate = &candidates.unsupported[0];
    assert_eq!(candidate.targets.len(), 1);
    assert!(
        matches!(
            &candidate.targets[0].target.identity,
            CallMatchIdentity::Known(KnownCallTarget::StrStartswith)
        ),
        "{:#?}",
        candidate.targets
    );
    assert_eq!(candidate.targets[0].reason, CallNoMatchReason::SignatureMismatch);
}

#[test]
fn unresolved_alternative_preserves_deduplicated_unsupported_target_order() {
    let program = check_project(&[
        (
            "/main.py",
            "\
from chalk import online
from external import First, Other, Second

@online
def root(value: First | Second | Other):
    value.run()
",
        ),
        (
            "/external.py",
            "\
class First:
    def run(self): pass

class Second:
    def run(self): pass

class Other: pass
",
        ),
    ]);
    let external = program.file("/external.py");
    let candidates = program.candidates(&["/main.py"]);

    assert_eq!(program.unsupported_texts(&candidates), ["value.run()"]);
    let candidate = &candidates.unsupported[0];
    assert_eq!(candidate.targets.len(), 2);
    assert!(candidate.targets.iter().all(|target| {
        target.reason == CallNoMatchReason::MissingRegistryEntry && target.target.name == "run"
    }));
    let actual: Vec<Definition> = candidate
        .targets
        .iter()
        .map(|target| match &target.target.identity {
            CallMatchIdentity::Definition(definition) => *definition,
            identity => panic!("expected definition identity, got {identity:?}"),
        })
        .collect();
    assert_eq!(actual.len(), 2);
    assert_ne!(actual[0], actual[1]);
    assert!(actual
        .iter()
        .all(|definition| program.db.definitions[definition.id].file == external));
    assert!(
        candidate.targets[0].target.definition_range.unwrap().range.start
            < candidate.targets[1].target.definition_range.unwrap().range.start
    );
}

const EXTERNAL: (&str, &str) = ("/external.py", "def unsupported(): pass\n");

#[test]
fn follows_same_and_cross_file_ambiguous_targets_once() {
    let program = check_project(&[
        (
            "/main.py",
            "\
from chalk import online
from helper import cross

def same():
    cross()

@online
def root(condition):
    selected = same if condition else cross
    selected()
",
        ),
        (
            "/helper.py",
            "\
from external import unsupported

def cross():
    unsupported()
",
        ),
        EXTERNAL,
    ]);
    let candidates = program.candidates(&["/main.py", "/helper.py"]);

    assert_eq!(program.unsupported_texts(&candidates), ["unsupported()"]);
    assert_eq!(candidates.unsupported[0].targets.len(), 1);
    assert_eq!(candidates.unsupported[0].file, program.file("/helper.py"));
}

#[test]
fn follows_direct_aliased_module_bound_and_nested_function_edges() {
    let program = check_project(&[
        (
            "/main.py",
            "\
from chalk import online
from helper import aliased as imported
import helper
from external import unsupported

class Local:
    def bound(self):
        unsupported()

def direct():
    unsupported()

@online
def root(local: Local):
    direct()
    imported()
    helper.module_qualified()
    local.bound()

    def nested():
        unsupported()

    nested()
",
        ),
        (
            "/helper.py",
            "\
from external import unsupported

def aliased():
    unsupported()

def module_qualified():
    unsupported()
",
        ),
        EXTERNAL,
    ]);
    let candidates = program.candidates(&["/main.py", "/helper.py"]);

    assert_eq!(candidates.unsupported.len(), 5);
    assert_eq!(candidates.unsupported_for_file(program.file("/main.py")).len(), 3);
    assert_eq!(candidates.unsupported_for_file(program.file("/helper.py")).len(), 2);
    assert!(program.unsupported_texts(&candidates).iter().all(|text| text == "unsupported()"));
}

#[test]
fn follows_async_and_generator_resolver_helper_edges() {
    let program = check_project(&[
        (
            "/main.py",
            "\
from chalk import online
from helper import async_helper, generator_helper

@online
async def async_root():
    await async_helper()

@online
def generator_root():
    yield from generator_helper()
",
        ),
        (
            "/helper.py",
            "\
from external import async_unsupported, generator_unsupported

async def async_helper():
    await async_unsupported()

def generator_helper():
    yield generator_unsupported()
",
        ),
        (
            "/external.py",
            "\
async def async_unsupported(): pass
def generator_unsupported(): pass
",
        ),
    ]);
    let helper = program.file("/helper.py");
    let candidates = program.candidates(&["/main.py", "/helper.py"]);

    assert_eq!(
        program.unsupported_texts(&candidates),
        ["async_unsupported()", "generator_unsupported()"]
    );
    assert!(candidates.unsupported.iter().all(|candidate| candidate.file == helper));
    assert!(candidates.unsupported.iter().all(|candidate| {
        candidate.targets.len() == 1
            && candidate.targets[0].reason == CallNoMatchReason::MissingRegistryEntry
    }));
}

#[test]
fn root_and_lexical_suppressions() {
    let program = check_project(&[
        (
            "/main.py",
            "\
from chalk import online
from external import unsupported

# chalk: ignore[unsupported-function]
@online
def suppressed_root():
    unsupported()
    downstream()

@online
def active():
    suppressed_root()
    statement_helper()

def downstream():
    unsupported()

def statement_helper():
    unsupported()  # chalk: ignore[unsupported-function]
",
        ),
        EXTERNAL,
    ]);
    let candidates = program.candidates(&["/main.py"]);

    assert_eq!(program.unsupported_texts(&candidates), ["unsupported()"]);
}

#[test]
fn unsupported_function_suppression_does_not_suppress_resolver_cycles() {
    let program = check_project(&[(
        "/main.py",
        "\
from chalk import online

# chalk: ignore[unsupported-function]
@online
def root():
    root()
",
    )]);
    let candidates = program.candidates(&["/main.py"]);

    assert!(candidates.unsupported.is_empty());
    assert_eq!(program.cycle_texts(&candidates), ["root()"]);
}

#[test]
fn resolver_cycle_takes_precedence_over_unsupported_target_at_same_call() {
    let program = check_project(&[
        (
            "/main.py",
            "\
from chalk import online
from external import unsupported

@online
def root():
    helper()

def helper():
    nested(True)

def nested(condition):
    selected = helper if condition else unsupported
    selected()
",
        ),
        EXTERNAL,
    ]);
    let main = program.file("/main.py");
    let candidates = program.candidates(&["/main.py"]);

    assert!(candidates.unsupported.is_empty(), "{candidates:#?}");
    assert_eq!(program.cycle_texts(&candidates), ["selected()"]);

    let diagnostics = chalk_diagnostics_for_file(
        &program.db,
        &program.supported,
        &vec![main],
        &candidates,
        main,
        &program.texts[main.id],
    );
    assert_eq!(diagnostics.len(), 1);
    assert!(matches!(diagnostics[0].kind(), ChalkDiagnosticKind::ResolverCycle));
    assert_eq!(program.text(main, diagnostics[0].range()), "selected()");
}

#[test]
fn reports_direct_and_cross_file_cycles_at_back_edges() {
    let program = check_project(&[
        (
            "/main.py",
            "\
from chalk import online
import helper

@online
def direct():
    direct()

@online
def cross():
    helper.cross_back()
",
        ),
        (
            "/helper.py",
            "\
import main

def cross_back():
    main.cross()
",
        ),
    ]);
    let main = program.file("/main.py");
    let helper = program.file("/helper.py");
    let candidates = program.candidates(&["/main.py", "/helper.py"]);

    assert_eq!(candidates.cycles.len(), 2);
    let main_cycle = candidates.cycles_for_file(main)[0];
    assert_eq!(program.text(main, main_cycle.range), "direct()");
    let helper_cycle = candidates.cycles_for_file(helper)[0];
    assert_eq!(program.text(helper, helper_cycle.range), "main.cross()");
}

#[test]
fn converging_roots_and_dag_paths_do_not_become_false_cycles() {
    let program = check_project(&[(
        "/main.py",
        "\
from chalk import online

def shared():
    pass

@online
def second_root():
    shared()

def alternate():
    shared()

@online
def first_root(condition):
    second_root()
    selected = alternate if condition else shared
    selected()
",
    )]);
    let candidates = program.candidates(&["/main.py"]);

    assert!(candidates.cycles.is_empty());
}

#[test]
fn argument_unpacking_defers_matching_but_preserves_first_party_reachability() {
    let program = check_project(&[
        (
            "/main.py",
            "\
from chalk import online
from helper import helper

@online
def root():
    helper(*())
",
        ),
        (
            "/helper.py",
            "\
from external import unsupported

def helper(*args):
    helper(*args)
    unsupported()
",
        ),
        EXTERNAL,
    ]);
    let helper = program.file("/helper.py");
    let candidates = program.candidates(&["/main.py", "/helper.py"]);

    assert_eq!(program.unsupported_texts(&candidates), ["unsupported()"]);
    assert_eq!(program.cycle_texts(&candidates), ["helper(*args)"]);
    assert_eq!(candidates.unsupported[0].file, helper);
    assert_eq!(candidates.cycles[0].file, helper);
}

const HELPED: &str = "\
from chalk import online
from helper import helper

@online
def root():
    helper()
";

const HELPER: &str = "\
from external import unsupported

def helper():
    unsupported()
";

#[test]
fn helper_source_edit_invalidates_its_file_facts_and_cached_project_closure() {
    let paths = ["/main.py", "/helper.py"];
    let program = check_project(&[
        ("/main.py", HELPED),
        ("/helper.py", "def helper(): pass\n"),
        EXTERNAL,
    ]);
    assert!(program.candidates(&paths).unsupported.is_empty());

    let program = check_project(&[
        ("/main.py", HELPED),
        (
            "/helper.py",
            "from external import unsupported\ndef helper(): unsupported()\n",
        ),
        EXTERNAL,
    ]);
    assert_eq!(program.candidates(&paths).unsupported.len(), 1);
}

#[test]
fn argument_type_edit_updates_call_match_outcome() {
    let program = check_project(&[(
        "/main.py",
        "\
from chalk import online

@online
def root():
    abs(1)
",
    )]);
    assert!(program.candidates(&["/main.py"]).unsupported.is_empty());

    let program = check_project(&[(
        "/main.py",
        "\
from chalk import online

@online
def root():
    abs(\"value\")
",
    )]);
    let candidates = program.candidates(&["/main.py"]);
    assert_eq!(program.unsupported_texts(&candidates), ["abs(\"value\")"]);
    assert_eq!(
        candidates.unsupported[0].targets[0].reason,
        CallNoMatchReason::SignatureMismatch
    );
}

#[test]
fn receiver_type_edit_updates_call_match_outcome() {
    let program = check_project(&[(
        "/main.py",
        "\
from chalk import online

@online
def root():
    receiver: str = \"value\"
    receiver.startswith(1)
",
    )]);
    assert_eq!(program.candidates(&["/main.py"]).unsupported.len(), 1);

    let program = check_project(&[(
        "/main.py",
        "\
from chalk import online

@online
def root():
    receiver: int = 1
    receiver.startswith(1)
",
    )]);
    assert!(program.candidates(&["/main.py"]).unsupported.is_empty());
}

#[test]
fn import_alias_retarget_updates_first_party_edge() {
    let helper = (
        "/helper.py",
        "\
from external import unsupported

def first():
    pass

def second():
    unsupported()
",
    );
    let paths = ["/main.py", "/helper.py"];
    let program = check_project(&[
        (
            "/main.py",
            "\
from chalk import online
from helper import first as selected

@online
def root():
    selected()
",
        ),
        helper,
        EXTERNAL,
    ]);
    let facts = program.facts("/main.py");
    assert_eq!(program.name(facts.calls[0].targets[0].definition), "first");
    assert!(program.candidates(&paths).unsupported.is_empty());

    let program = check_project(&[
        (
            "/main.py",
            "\
from chalk import online
from helper import second as selected

@online
def root():
    selected()
",
        ),
        helper,
        EXTERNAL,
    ]);
    let facts = program.facts("/main.py");
    assert_eq!(program.name(facts.calls[0].targets[0].definition), "second");
    let candidates = program.candidates(&paths);
    assert_eq!(program.unsupported_texts(&candidates), ["unsupported()"]);
    assert_eq!(candidates.unsupported[0].file, program.file("/helper.py"));
}

#[test]
fn resolver_decorator_edit_adds_and_removes_root() {
    let plain = "\
from chalk import online
from external import unsupported

def root():
    unsupported()
";
    let decorated = "\
from chalk import online
from external import unsupported

@online
def root():
    unsupported()
";
    for (source, count) in [(plain, 0), (decorated, 1), (plain, 0)] {
        let program = check_project(&[("/main.py", source), EXTERNAL]);
        assert_eq!(program.facts("/main.py").resolver_roots.len(), count);
        assert_eq!(program.candidates(&["/main.py"]).unsupported.len(), count);
    }
}

#[test]
fn project_source_set_mutation_updates_cached_candidates() {
    let program = check_project(&[("/main.py", HELPED), ("/helper.py", HELPER), EXTERNAL]);

    let candidates = program.candidates(&["/main.py"]);
    assert_eq!(program.unsupported_texts(&candidates), ["helper()"]);
    assert_eq!(candidates.unsupported[0].file, program.file("/main.py"));

    let candidates = program.candidates(&["/main.py", "/helper.py"]);
    assert_eq!(program.unsupported_texts(&candidates), ["unsupported()"]);
    assert_eq!(candidates.unsupported[0].file, program.file("/helper.py"));
}

#[test]
fn retains_unreachable_suppression_problems_and_ignores_chalk_sql() {
    let program = check_project(&[
        ("/main.py", "value = 1  # chalk: ignore[future-code]\n"),
        ("/features.chalk.sql", "@online\ndef fake():\n    unsupported()\n"),
    ]);
    let main = program.file("/main.py");
    let candidates = program.candidates(&["/main.py", "/features.chalk.sql"]);

    assert!(candidates.unsupported.is_empty());
    assert!(candidates.cycles.is_empty());
    assert_eq!(candidates.suppression_problems.len(), 1);
    assert_eq!(
        program.text(main, candidates.suppression_problems[0].range),
        "future-code"
    );
    assert_eq!(candidates.suppression_problems_for_file(main).len(), 1);
}

#[test]
fn separate_source_set_inputs_do_not_share_first_party_edges() {
    let program = check_project(&[
        (
            "/root1.py",
            "\
from chalk import online
import root2

@online
def root():
    root2.helper()
",
        ),
        ("/root2.py", HELPER),
        EXTERNAL,
    ]);

    let first = program.candidates(&["/root1.py"]);
    assert_eq!(program.unsupported_texts(&first), ["root2.helper()"]);
    assert!(program.candidates(&["/root2.py"]).unsupported.is_empty());
    let combined = program.candidates(&["/root1.py", "/root2.py"]);
    assert_eq!(program.unsupported_texts(&combined), ["unsupported()"]);
    assert_eq!(combined.unsupported[0].file, program.file("/root2.py"));
}

#[test]
fn files_without_facts_report_nothing() {
    let program = check_project(&[("/main.py", HELPED), ("/helper.py", HELPER), EXTERNAL]);
    let files = vec![
        ProjectFile { file: program.file("/main.py"), facts: None },
        ProjectFile {
            file: program.file("/helper.py"),
            facts: Some(program.facts("/helper.py")),
        },
    ];
    let candidates = project_candidates(&program.db, &files);
    assert!(candidates.unsupported.is_empty());
    assert!(candidates.cycles.is_empty());
}

#[test]
fn the_order_of_files_does_not_matter() {
    let program = check_project(&[("/main.py", HELPED), ("/helper.py", HELPER), EXTERNAL]);
    let forward = program.candidates(&["/main.py", "/helper.py"]);
    let backward = program.candidates(&["/helper.py", "/main.py"]);
    assert_eq!(format!("{forward:?}"), format!("{backward:?}"));
}

#[test]
fn function_origins_are_those_of_top_level_functions() {
    let program = check_project(&[(
        "/main.py",
        "\
def top():
    def inner(): pass
    inner()

class Type:
    def method(self): pass

def use(value: Type):
    top()
    value.method()
",
    )]);
    let facts = program.facts("/main.py");
    let origins: Vec<Option<String>> = facts
        .calls()
        .iter()
        .map(|call| {
            let target: CallTarget = call.targets[0];
            chalk_function_definition_origin(&program.db, target.definition)
                .map(|origin| format!("{}.{}", origin.module, origin.symbol))
        })
        .collect();
    assert_eq!(origins, [None, Some("main.top".to_owned()), None]);
}

// ---------------------------------------------------------------------------------------------
// Diagnostics
// ---------------------------------------------------------------------------------------------

#[test]
fn diagnostics_show_the_call_and_what_is_supported() {
    let program = check_project(&[
        (
            "/main.py",
            "\
from chalk import online
from external import missing

@online
def root():
    abs(\"first\")
    missing()
    root()

value = 1  # chalk: ignore[]
",
        ),
        ("/external.py", "def missing(): pass\n"),
    ]);
    let main = program.file("/main.py");
    let candidates = program.candidates(&["/main.py"]);
    let diagnostics = chalk_diagnostics_for_file(
        &program.db,
        &program.supported,
        &vec![main],
        &candidates,
        main,
        &program.texts[main.id],
    );
    assert_eq!(diagnostics.len(), 4);
    let codes: Vec<&str> = diagnostics.iter().map(|diagnostic| diagnostic.code()).collect();
    assert_eq!(
        codes,
        [
            "unsupported-function",
            "unsupported-function",
            "resolver-cycle",
            "invalid-chalk-suppression",
        ]
    );
    assert!(diagnostics.iter().all(|diagnostic| diagnostic.file() == main));
    let severities: Vec<ChalkDiagnosticSeverity> =
        diagnostics.iter().map(|diagnostic| diagnostic.severity()).collect();
    assert_eq!(
        severities,
        [
            ChalkDiagnosticSeverity::Warning,
            ChalkDiagnosticSeverity::Warning,
            ChalkDiagnosticSeverity::Error,
            ChalkDiagnosticSeverity::Warning,
        ]
    );
    let details = diagnostics[0].unsupported_function_details().unwrap();
    assert_eq!(details.observed_call(), Some("abs(\"first\")"));
    assert_eq!(details.targets()[0].label(), "builtins.abs");
    assert_eq!(details.targets()[0].reason(), CallNoMatchReason::SignatureMismatch);
    assert!(details.targets()[0].location().is_some());
    assert_eq!(details.supported_signatures().len(), 1);
    let messages: Vec<String> = diagnostics.iter().map(|diagnostic| diagnostic.message()).collect();
    assert_eq!(
        messages[1..],
        [
            "Call is not supported by the static accelerator",
            "Resolver call graph contains a cycle",
            "Invalid Chalk suppression directive: suppression code list cannot be empty",
        ]
    );

    let details = diagnostics[1].unsupported_function_details().unwrap();
    assert_eq!(details.targets()[0].reason(), CallNoMatchReason::MissingRegistryEntry);
    assert!(details.supported_signatures().is_empty());
    assert!(diagnostics[2].unsupported_function_details().is_none());

    let other = program.file("/external.py");
    let none = chalk_diagnostics_for_file(
        &program.db,
        &program.supported,
        &vec![main],
        &candidates,
        other,
        &program.texts[other.id],
    );
    assert!(none.is_empty());
}

/// The diagnostics of a file among the candidates of a project.
fn diagnostics_of(program: &Program, project: &[&str], path: &str) -> Vec<ChalkDiagnostic> {
    let files: Vec<File> = project.iter().map(|path| program.file(path)).collect();
    let file = program.file(path);
    chalk_diagnostics_for_file(
        &program.db,
        &program.supported,
        &files,
        &program.candidates(project),
        file,
        &program.texts[file.id],
    )
}

#[test]
fn workspace_diagnostics_report_unsuppressible_cycles_in_closed_files() {
    let helper_source = "\
from project import main

# chalk: ignore[unsupported-function, resolver-cycle, future-code]
def first():
    main.root()
";
    let project = ["/project/__init__.py", "/project/main.py", "/project/helper.py"];
    let program = check_project(&[
        ("/project/__init__.py", ""),
        (
            "/project/main.py",
            "\
from chalk import online
from project import helper

@online
def root():
    helper.first()
",
        ),
        ("/project/helper.py", helper_source),
    ]);
    let diagnostics = diagnostics_of(&program, &project, "/project/helper.py");
    assert_eq!(diagnostics.len(), 3);
    let of_code = |code: &str| -> &ChalkDiagnostic {
        diagnostics.iter().find(|diagnostic| diagnostic.code() == code).unwrap()
    };
    let place = |diagnostic: &ChalkDiagnostic| -> (usize, usize, usize) {
        let start = diagnostic.range().start as usize;
        let line = helper_source[..start].matches('\n').count();
        let begin = helper_source[..start].rfind('\n').map_or(0, |at| at + 1);
        (line, start - begin, diagnostic.range().end as usize - begin)
    };

    let invalid = of_code("invalid-chalk-suppression");
    assert_eq!(place(invalid), (2, 38, 52));
    assert_eq!(invalid.severity(), ChalkDiagnosticSeverity::Warning);
    assert_eq!(
        invalid.message(),
        "Invalid Chalk suppression directive: this diagnostic code cannot be suppressed"
    );

    let unknown = of_code("unknown-chalk-suppression");
    assert_eq!(place(unknown), (2, 54, 65));
    assert_eq!(unknown.severity(), ChalkDiagnosticSeverity::Warning);
    assert_eq!(unknown.message(), "Unknown Chalk suppression code: future-code");

    let cycle = of_code("resolver-cycle");
    assert_eq!(place(cycle), (4, 4, 15));
    assert_eq!(cycle.severity(), ChalkDiagnosticSeverity::Error);
    assert_eq!(cycle.message(), "Resolver call graph contains a cycle");
}

#[test]
fn document_diagnostics_isolate_sibling_chalk_projects() {
    let source = |call: &str| -> String {
        format!("from chalk import online\n\n@online\ndef root():\n    {call}\n")
    };
    let shown = |first: &str, second: &str| -> Vec<(String, String)> {
        let program = check_project(&[
            ("/first/main.py", source(first).as_str()),
            ("/second/main.py", source(second).as_str()),
        ]);
        ["/first/main.py", "/second/main.py"]
            .iter()
            .map(|path| {
                let diagnostics = diagnostics_of(&program, &[*path], path);
                assert_eq!(diagnostics.len(), 1);
                let details = diagnostics[0].unsupported_function_details().unwrap();
                assert_eq!(details.targets().len(), 1);
                (
                    details.targets()[0].label().to_owned(),
                    details.observed_call().unwrap().to_owned(),
                )
            })
            .collect()
    };
    let second = ("builtins.round".to_owned(), "round(\"second\")".to_owned());
    assert_eq!(
        shown("abs(\"first\")", "round(\"second\")"),
        [("builtins.abs".to_owned(), "abs(\"first\")".to_owned()), second.clone()]
    );
    assert_eq!(
        shown("abs(\"third\")", "round(\"second\")"),
        [("builtins.abs".to_owned(), "abs(\"third\")".to_owned()), second]
    );
}

#[test]
fn cycles_are_reported_once() {
    let program = check_project(&[(
        "/main.py",
        "\
from chalk import online

@online
def first():
    shared()

@online
def second():
    shared()

def shared():
    selected = first if True else second
    selected()
    second()
",
    )]);
    let candidates = program.candidates(&["/main.py"]);
    let mut texts = program.cycle_texts(&candidates);
    assert!(!texts.is_empty());
    let count = candidates.cycles.len();
    texts.dedup();
    assert_eq!(texts.len(), count);
}

#[test]
fn targets_are_shown_once() {
    let main_source = "\
from chalk import online
from external import unsupported

@online
def root():
    unsupported()
";
    let target = |candidates: &mut ProjectCandidates| candidates.unsupported[0].targets.remove(0);
    let program = check_project(&[("/main.py", main_source), EXTERNAL]);
    let main = program.file("/main.py");
    let mut candidates = program.candidates(&["/main.py"]);
    let again = target(&mut program.candidates(&["/main.py"]));
    let mut other = target(&mut program.candidates(&["/main.py"]));
    other.target.display_label = "another".to_owned();
    candidates.unsupported[0].targets.push(other);
    candidates.unsupported[0].targets.push(again);
    assert_eq!(candidates.unsupported[0].targets.len(), 3);
    let diagnostics = chalk_diagnostics_for_file(
        &program.db,
        &program.supported,
        &vec![main],
        &candidates,
        main,
        &program.texts[main.id],
    );
    let details = diagnostics[0].unsupported_function_details().unwrap();
    let labels: Vec<&str> = details.targets().iter().map(|target| target.label()).collect();
    assert_eq!(labels, ["another", "external.unsupported"]);
}

// ---------------------------------------------------------------------------------------------
// Active projects
// ---------------------------------------------------------------------------------------------

fn input(program: &Program, paths: &[&str]) -> ChalkProjectInput {
    ChalkProjectInput {
        root: SystemPath::root(),
        config_path: SystemPath::absolute("/chalk.yml", &SystemPath::root()),
        source_files: paths.iter().map(|path| program.file(path)).collect(),
    }
}

#[test]
fn projects_report_their_own_python_sources() {
    let program = check_project(&[
        ("/main.py", HELPED),
        ("/helper.py", HELPER),
        ("/features.chalk.sql", "@online\ndef fake():\n    unsupported()\n"),
        EXTERNAL,
    ]);
    let files = Files {
        paths: program
            .paths
            .iter()
            .map(|path| FilePath::System(SystemPath::absolute(path, &SystemPath::root())))
            .collect(),
    };
    let known: Vec<Option<FileFacts>> = program
        .paths
        .iter()
        .map(|path| (path == "/main.py" || path == "/helper.py").then(|| program.facts(path)))
        .collect();

    let alone = input(&program, &["/main.py"]);
    let candidates = chalk_project_candidates(&program.db, &files, &alone, &known);
    assert_eq!(program.unsupported_texts(&candidates), ["helper()"]);

    let whole = input(&program, &["/features.chalk.sql", "/helper.py", "/main.py"]);
    let candidates = chalk_project_candidates(&program.db, &files, &whole, &known);
    assert_eq!(program.unsupported_texts(&candidates), ["unsupported()"]);

    let report = |input: &ChalkProjectInput, path: &str| -> Vec<String> {
        let file = program.file(path);
        chalk_project_diagnostics(
            &program.db,
            &program.supported,
            &files,
            input,
            &known,
            file,
            &program.texts[file.id],
        )
        .iter()
        .map(|diagnostic| program.text(file, diagnostic.range()).to_owned())
        .collect()
    };
    assert_eq!(report(&alone, "/main.py"), ["helper()"]);
    assert!(report(&alone, "/helper.py").is_empty());
    assert!(report(&whole, "/main.py").is_empty());
    assert_eq!(report(&whole, "/helper.py"), ["unsupported()"]);
    assert!(report(&whole, "/features.chalk.sql").is_empty());
}
