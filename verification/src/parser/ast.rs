//! The facts about a C translation unit that the passes read.
use vstd::prelude::*;
use crate::parser::span::ByteRange;
use crate::text::{bytes, sbytes, slice_ok, str_eq, push_ascii};

verus! {

/// Type information.
#[derive(Debug)]
pub struct TypeInfo {
    pub name: String,
    pub is_pointer: bool,
    pub is_const: bool,
}

impl TypeInfo {
    /// The `void` type, which stands in where no type is known.
    pub fn void() -> (t: TypeInfo)
        ensures
            t@ == void_view(),
    {
        let word = "void";
        proof {
            reveal_strlit("void");
            assert(vstd::utf8::is_ascii_chars(word@));
        }
        let mut name = String::new();
        push_ascii(&mut name, word);
        proof {
            assert(sbytes(&name) =~= seq![0x76u8, 0x6f, 0x69, 0x64]);
        }
        TypeInfo { name, is_pointer: false, is_const: false }
    }
}

/// A function parameter.
#[derive(Debug)]
pub struct Parameter {
    pub name: String,
    pub type_info: TypeInfo,
}

/// A function defined in the source code.
#[derive(Debug)]
pub struct Function {
    pub name: String,
    pub return_type: TypeInfo,
    pub parameters: Vec<Parameter>,
    pub range: ByteRange,
    pub body_range: Option<ByteRange>,
    pub is_definition: bool,
}

/// Kind of declaration.
#[derive(Debug)]
pub enum DeclarationKind {
    Function { return_type: TypeInfo },
    Variable { type_info: TypeInfo },
    Typedef { underlying: TypeInfo },
    Struct,
    Enum,
    Include { path: String, is_system: bool },
    Macro { definition: String },
}

/// A declaration in the source code.
#[derive(Debug)]
pub struct Declaration {
    pub name: String,
    pub kind: DeclarationKind,
    pub range: ByteRange,
}

/// Kind of statement.
#[derive(Debug)]
pub enum StatementKind {
    Declaration,
    Expression,
    If { has_else: bool },
    While,
    For,
    DoWhile,
    Switch,
    Return,
    Break,
    Continue,
    Goto { label: String },
    Label { name: String },
    Compound,
    Null,
}

/// A statement in the source code.
#[derive(Debug)]
pub struct Statement {
    pub kind: StatementKind,
    pub range: ByteRange,
}

/// Kind of expression.
#[derive(Debug, Clone)]
pub enum ExpressionKind {
    Identifier(String),
    IntegerLiteral(i64),
    StringLiteral(String),
    Binary { operator: String },
    Unary { operator: String },
    Call { function: String, arg_count: usize },
    Subscript,
    Member { field: String },
    Cast { target_type: TypeInfo },
    Conditional,
    Comma,
    Sizeof,
    Paren,
}

/// An expression in the source code.
#[derive(Debug, Clone)]
pub struct Expression {
    pub kind: ExpressionKind,
    pub range: ByteRange,
    pub type_info: Option<TypeInfo>,
}

/// A field of a struct declaration.
#[derive(Debug, Clone)]
pub struct StructField {
    pub name: String,
    pub range: ByteRange,
}

/// A type as the passes see it: its name's bytes and its qualifiers.
pub struct TypeView {
    pub name: Seq<u8>,
    pub is_pointer: bool,
    pub is_const: bool,
}

/// The `void` type.
pub open spec fn void_view() -> TypeView {
    TypeView { name: seq![0x76u8, 0x6f, 0x69, 0x64], is_pointer: false, is_const: false }
}

impl View for TypeInfo {
    type V = TypeView;

    open spec fn view(&self) -> TypeView {
        TypeView { name: sbytes(&self.name), is_pointer: self.is_pointer, is_const: self.is_const }
    }
}

/// A parameter's name and type.
pub struct ParamView {
    pub name: Seq<u8>,
    pub type_info: TypeView,
}

impl View for Parameter {
    type V = ParamView;

    open spec fn view(&self) -> ParamView {
        ParamView { name: sbytes(&self.name), type_info: self.type_info@ }
    }
}

/// A function, with names as bytes.
pub struct FunctionView {
    pub name: Seq<u8>,
    pub return_type: TypeView,
    pub parameters: Seq<ParamView>,
    pub range: ByteRange,
    pub body_range: Option<ByteRange>,
    pub is_definition: bool,
}

impl View for Function {
    type V = FunctionView;

    open spec fn view(&self) -> FunctionView {
        FunctionView {
            name: sbytes(&self.name),
            return_type: self.return_type@,
            parameters: self.parameters@.map_values(|p: Parameter| p@),
            range: self.range,
            body_range: self.body_range,
            is_definition: self.is_definition,
        }
    }
}

/// A declaration kind, with names as bytes.
pub enum DeclKindView {
    Function { return_type: TypeView },
    Variable { type_info: TypeView },
    Typedef { underlying: TypeView },
    Struct,
    Enum,
    Include { path: Seq<u8>, is_system: bool },
    Macro { definition: Seq<u8> },
}

impl View for DeclarationKind {
    type V = DeclKindView;

    open spec fn view(&self) -> DeclKindView {
        match self {
            DeclarationKind::Function { return_type } => DeclKindView::Function { return_type: return_type@ },
            DeclarationKind::Variable { type_info } => DeclKindView::Variable { type_info: type_info@ },
            DeclarationKind::Typedef { underlying } => DeclKindView::Typedef { underlying: underlying@ },
            DeclarationKind::Struct => DeclKindView::Struct,
            DeclarationKind::Enum => DeclKindView::Enum,
            DeclarationKind::Include { path, is_system } => DeclKindView::Include {
                path: sbytes(path),
                is_system: *is_system,
            },
            DeclarationKind::Macro { definition } => DeclKindView::Macro { definition: sbytes(definition) },
        }
    }
}

/// A declaration, with names as bytes.
pub struct DeclView {
    pub name: Seq<u8>,
    pub kind: DeclKindView,
    pub range: ByteRange,
}

impl View for Declaration {
    type V = DeclView;

    open spec fn view(&self) -> DeclView {
        DeclView { name: sbytes(&self.name), kind: self.kind@, range: self.range }
    }
}

/// An expression kind, with names as bytes.
pub enum ExprKindView {
    Identifier(Seq<u8>),
    IntegerLiteral(i64),
    StringLiteral(Seq<u8>),
    Binary { operator: Seq<u8> },
    Unary { operator: Seq<u8> },
    Call { function: Seq<u8>, arg_count: usize },
    Subscript,
    Member { field: Seq<u8> },
    Cast { target_type: TypeView },
    Conditional,
    Comma,
    Sizeof,
    Paren,
}

impl View for ExpressionKind {
    type V = ExprKindView;

    open spec fn view(&self) -> ExprKindView {
        match self {
            ExpressionKind::Identifier(n) => ExprKindView::Identifier(sbytes(n)),
            ExpressionKind::IntegerLiteral(v) => ExprKindView::IntegerLiteral(*v),
            ExpressionKind::StringLiteral(t) => ExprKindView::StringLiteral(sbytes(t)),
            ExpressionKind::Binary { operator } => ExprKindView::Binary { operator: sbytes(operator) },
            ExpressionKind::Unary { operator } => ExprKindView::Unary { operator: sbytes(operator) },
            ExpressionKind::Call { function, arg_count } => ExprKindView::Call {
                function: sbytes(function),
                arg_count: *arg_count,
            },
            ExpressionKind::Subscript => ExprKindView::Subscript,
            ExpressionKind::Member { field } => ExprKindView::Member { field: sbytes(field) },
            ExpressionKind::Cast { target_type } => ExprKindView::Cast { target_type: target_type@ },
            ExpressionKind::Conditional => ExprKindView::Conditional,
            ExpressionKind::Comma => ExprKindView::Comma,
            ExpressionKind::Sizeof => ExprKindView::Sizeof,
            ExpressionKind::Paren => ExprKindView::Paren,
        }
    }
}

/// The view of an optional type.
pub open spec fn opt_type_view(t: Option<TypeInfo>) -> Option<TypeView> {
    match t {
        Some(t) => Some(t@),
        None => None,
    }
}

/// An expression, with names as bytes.
pub struct ExprView {
    pub kind: ExprKindView,
    pub range: ByteRange,
    pub type_info: Option<TypeView>,
}

impl View for Expression {
    type V = ExprView;

    open spec fn view(&self) -> ExprView {
        ExprView { kind: self.kind@, range: self.range, type_info: opt_type_view(self.type_info) }
    }
}

/// A struct field, with its name as bytes.
pub struct FieldView {
    pub name: Seq<u8>,
    pub range: ByteRange,
}

impl View for StructField {
    type V = FieldView;

    open spec fn view(&self) -> FieldView {
        FieldView { name: sbytes(&self.name), range: self.range }
    }
}

impl Clone for TypeInfo {
    fn clone(&self) -> (r: TypeInfo)
        ensures
            r == *self,
    {
        TypeInfo { name: self.name.clone(), is_pointer: self.is_pointer, is_const: self.is_const }
    }
}

impl Clone for Parameter {
    fn clone(&self) -> (r: Parameter)
        ensures
            r == *self,
    {
        Parameter { name: self.name.clone(), type_info: self.type_info.clone() }
    }
}

impl Clone for Function {
    fn clone(&self) -> (r: Function)
        ensures
            r.name == self.name,
            r.return_type == self.return_type,
            r.parameters@ == self.parameters@,
            r.range == self.range,
            r.body_range == self.body_range,
            r.is_definition == self.is_definition,
    {
        let mut parameters: Vec<Parameter> = Vec::new();
        let mut i: usize = 0;
        while i < self.parameters.len()
            invariant
                i <= self.parameters@.len(),
                parameters@ == self.parameters@.subrange(0, i as int),
            decreases self.parameters.len() - i,
        {
            parameters.push(self.parameters[i].clone());
            i += 1;
        }
        Function {
            name: self.name.clone(),
            return_type: self.return_type.clone(),
            parameters,
            range: self.range,
            body_range: self.body_range,
            is_definition: self.is_definition,
        }
    }
}

impl Clone for StatementKind {
    fn clone(&self) -> (r: StatementKind)
        ensures
            r == *self,
    {
        match self {
            StatementKind::Declaration => StatementKind::Declaration,
            StatementKind::Expression => StatementKind::Expression,
            StatementKind::If { has_else } => StatementKind::If { has_else: *has_else },
            StatementKind::While => StatementKind::While,
            StatementKind::For => StatementKind::For,
            StatementKind::DoWhile => StatementKind::DoWhile,
            StatementKind::Switch => StatementKind::Switch,
            StatementKind::Return => StatementKind::Return,
            StatementKind::Break => StatementKind::Break,
            StatementKind::Continue => StatementKind::Continue,
            StatementKind::Goto { label } => StatementKind::Goto { label: label.clone() },
            StatementKind::Label { name } => StatementKind::Label { name: name.clone() },
            StatementKind::Compound => StatementKind::Compound,
            StatementKind::Null => StatementKind::Null,
        }
    }
}

impl Clone for Statement {
    fn clone(&self) -> (r: Statement)
        ensures
            r == *self,
    {
        Statement { kind: self.kind.clone(), range: self.range }
    }
}

impl Clone for DeclarationKind {
    fn clone(&self) -> (r: DeclarationKind)
        ensures
            r == *self,
    {
        match self {
            DeclarationKind::Function { return_type } => DeclarationKind::Function {
                return_type: return_type.clone(),
            },
            DeclarationKind::Variable { type_info } => DeclarationKind::Variable {
                type_info: type_info.clone(),
            },
            DeclarationKind::Typedef { underlying } => DeclarationKind::Typedef {
                underlying: underlying.clone(),
            },
            DeclarationKind::Struct => DeclarationKind::Struct,
            DeclarationKind::Enum => DeclarationKind::Enum,
            DeclarationKind::Include { path, is_system } => DeclarationKind::Include {
                path: path.clone(),
                is_system: *is_system,
            },
            DeclarationKind::Macro { definition } => DeclarationKind::Macro {
                definition: definition.clone(),
            },
        }
    }
}

impl Clone for Declaration {
    fn clone(&self) -> (r: Declaration)
        ensures
            r == *self,
    {
        Declaration { name: self.name.clone(), kind: self.kind.clone(), range: self.range }
    }
}

/// A parsed C translation unit: everything the passes read about the
/// source, gathered in one traversal of the syntax tree.
#[derive(Debug)]
pub struct ParsedUnit {
    pub source: String,
    pub main_file: String,
    pub functions: Vec<Function>,
    pub declarations: Vec<Declaration>,
    pub function_calls: Vec<String>,
    pub used_identifiers: Vec<String>,
    pub includes: Vec<ByteRange>,
    pub statements: Vec<Statement>,
    pub expressions: Vec<Expression>,
    pub struct_fields: Vec<StructField>,
    pub header_end: usize,
    pub has_errors: bool,
    pub diagnostics: Vec<String>,
}

/// Whether a declaration kind is a typedef.
pub open spec fn is_typedef(k: DeclarationKind) -> bool {
    k is Typedef
}

impl ParsedUnit {
    /// The source code.
    pub fn source(&self) -> (r: &str)
        ensures
            r@ == self.source@,
    {
        self.source.as_str()
    }

    /// The main file path.
    pub fn main_file(&self) -> (r: &str)
        ensures
            r@ == self.main_file@,
    {
        self.main_file.as_str()
    }

    /// Whether the main file has errors.
    pub fn has_errors(&self) -> (r: bool)
        ensures
            r == self.has_errors,
    {
        self.has_errors
    }

    /// All diagnostics.
    pub fn diagnostics(&self) -> (r: &[String])
        ensures
            r@ == self.diagnostics@,
    {
        self.diagnostics.as_slice()
    }

    /// The functions defined in the main file.
    pub fn functions(&self) -> (r: &[Function])
        ensures
            r@ == self.functions@,
    {
        self.functions.as_slice()
    }

    /// The top-level declarations in the main file.
    pub fn declarations(&self) -> (r: &[Declaration])
        ensures
            r@ == self.declarations@,
    {
        self.declarations.as_slice()
    }

    /// The names of the functions called anywhere in the translation unit.
    pub fn function_calls(&self) -> (r: &[String])
        ensures
            r@ == self.function_calls@,
    {
        self.function_calls.as_slice()
    }

    /// The identifiers referenced anywhere in the translation unit.
    pub fn used_identifiers(&self) -> (r: &[String])
        ensures
            r@ == self.used_identifiers@,
    {
        self.used_identifiers.as_slice()
    }

    /// The ranges of the include directives.
    pub fn includes(&self) -> (r: &[ByteRange])
        ensures
            r@ == self.includes@,
    {
        self.includes.as_slice()
    }

    /// The struct fields declared in the main file.
    pub fn struct_fields(&self) -> (r: &[StructField])
        ensures
            r@ == self.struct_fields@,
    {
        self.struct_fields.as_slice()
    }

    /// The typedef declarations, in order.
    pub fn typedefs(&self) -> (r: Vec<Declaration>)
        ensures
            r@ == self.declarations@.filter(|d: Declaration| is_typedef(d.kind)),
    {
        let mut r: Vec<Declaration> = Vec::new();
        let mut i: usize = 0;
        while i < self.declarations.len()
            invariant
                i <= self.declarations@.len(),
                r@ == self.declarations@.subrange(0, i as int).filter(
                    |d: Declaration| is_typedef(d.kind),
                ),
            decreases self.declarations.len() - i,
        {
            proof {
                reveal_with_fuel(Seq::<_>::filter, 1);
                assert(self.declarations@.subrange(0, i + 1).drop_last()
                    =~= self.declarations@.subrange(0, i as int));
            }
            if let DeclarationKind::Typedef { .. } = self.declarations[i].kind {
                r.push(self.declarations[i].clone());
            }
            i += 1;
        }
        proof {
            assert(self.declarations@.subrange(0, i as int) =~= self.declarations@);
        }
        r
    }

    /// The function named `main`, if there is one (the first such).
    pub fn main_function(&self) -> (r: Option<Function>)
        ensures
            match r {
                Some(f) => exists|i: int|
                    0 <= i < self.functions@.len() && self.functions@[i].name@ == "main"@
                        && f.name == self.functions@[i].name && f.range
                        == self.functions@[i].range && f.parameters@
                        == self.functions@[i].parameters@ && (forall|j: int|
                        0 <= j < i ==> self.functions@[j].name@ != "main"@),
                None => forall|i: int|
                    0 <= i < self.functions@.len() ==> self.functions@[i].name@ != "main"@,
            },
    {
        let mut i: usize = 0;
        while i < self.functions.len()
            invariant
                i <= self.functions@.len(),
                forall|j: int| 0 <= j < i ==> self.functions@[j].name@ != "main"@,
            decreases self.functions.len() - i,
        {
            if str_eq(self.functions[i].name.as_str(), "main") {
                return Some(self.functions[i].clone());
            }
            i += 1;
        }
        None
    }

    /// The statements in the main file.
    pub fn statements(&self) -> (r: &[Statement])
        ensures
            r@ == self.statements@,
    {
        self.statements.as_slice()
    }

    /// The expressions in the main file.
    pub fn expressions(&self) -> (r: &[Expression])
        ensures
            r@ == self.expressions@,
    {
        self.expressions.as_slice()
    }

    /// The byte offset where the header region ends and user code begins.
    pub fn header_end(&self) -> (r: usize)
        ensures
            r == self.header_end,
    {
        self.header_end
    }

    /// Whether `offset` lies in the header region.
    pub fn is_in_header(&self, offset: usize) -> (r: bool)
        ensures
            r == (offset < self.header_end),
    {
        offset < self.header_end
    }
}

/// Something in the source that covers a byte range.
pub trait AstNode {
    spec fn spec_range(&self) -> ByteRange;

    fn range(&self) -> (r: ByteRange)
        ensures
            r == self.spec_range(),
    ;

    /// The source text the node covers.
    fn text<'a>(&self, source: &'a str) -> (r: Option<&'a str>)
        ensures
            r is Some <==> slice_ok(
                bytes(source),
                self.spec_range().start as int,
                self.spec_range().end as int,
            ),
            r matches Some(t) ==> bytes(t) == bytes(source).subrange(
                self.spec_range().start as int,
                self.spec_range().end as int,
            ),
    {
        self.range().extract(source)
    }
}

impl AstNode for Function {
    open spec fn spec_range(&self) -> ByteRange {
        self.range
    }

    fn range(&self) -> (r: ByteRange) {
        self.range
    }
}

impl AstNode for Declaration {
    open spec fn spec_range(&self) -> ByteRange {
        self.range
    }

    fn range(&self) -> (r: ByteRange) {
        self.range
    }
}

impl AstNode for Statement {
    open spec fn spec_range(&self) -> ByteRange {
        self.range
    }

    fn range(&self) -> (r: ByteRange) {
        self.range
    }
}

impl AstNode for Expression {
    open spec fn spec_range(&self) -> ByteRange {
        self.range
    }

    fn range(&self) -> (r: ByteRange) {
        self.range
    }
}

} // verus!
