//! One traversal of the syntax tree that gathers what the passes read.
use vstd::prelude::*;
use vstd::utf8::*;
use crate::parser::ast::{
    TypeInfo, TypeView, Parameter, ParamView, Function, FunctionView, Declaration, DeclarationKind,
    DeclView, DeclKindView, Statement, StatementKind, Expression, ExpressionKind, ExprView,
    ExprKindView, StructField, FieldView, ParsedUnit, void_view, opt_type_view,
};
use crate::parser::span::ByteRange;
use crate::text::{bytes, sbytes, slice_ok, matches_at, starts_with, find_bytes, byte_from, lemma_byte_from, find_byte_or_end, range_starts_with, range_eq, to_owned_string, same_text};

verus! {

broadcast use vstd::utf8::encode_utf8_valid_utf8;

/// The kinds of syntax-tree node the traversal tells apart.
#[derive(Debug, Clone, Copy, PartialEq, Eq)]
pub enum EntityKind {
    FunctionDecl,
    VarDecl,
    TypedefDecl,
    StructDecl,
    EnumDecl,
    FieldDecl,
    InclusionDirective,
    CallExpr,
    BinaryOperator,
    UnaryOperator,
    CompoundAssignOperator,
    ConditionalOperator,
    ParenExpr,
    DeclRefExpr,
    IntegerLiteral,
    CompoundStmt,
    DeclStmt,
    ReturnStmt,
    IfStmt,
    WhileStmt,
    ForStmt,
    DoStmt,
    SwitchStmt,
    BreakStmt,
    ContinueStmt,
    NullStmt,
    Other,
}

/// A node of the syntax tree, with what the traversal reads of it.
#[derive(Debug)]
pub struct AstEntity {
    pub kind: EntityKind,
    /// The path of the file the node's location lies in.
    pub file: Option<String>,
    /// The file offsets of the node's extent.
    pub range: Option<ByteRange>,
    pub name: Option<String>,
    /// The name of the entity the node refers to (a callee, a variable).
    pub reference_name: Option<String>,
    pub is_definition: bool,
    pub type_info: Option<TypeInfo>,
    pub result_type: Option<TypeInfo>,
    pub underlying_type: Option<TypeInfo>,
    /// The parameter declarations of a function.
    pub arguments: Option<Vec<AstEntity>>,
    pub children: Vec<AstEntity>,
}

/// How severe a compiler diagnostic is.
#[derive(Debug, Clone, Copy, PartialEq, Eq)]
pub enum Severity {
    Ignored,
    Note,
    Warning,
    Error,
    Fatal,
}

/// A diagnostic of the compiler front end.
#[derive(Debug)]
pub struct ClangDiagnostic {
    pub severity: Severity,
    /// The path of the file the diagnostic points into.
    pub file: Option<String>,
    pub text: String,
}

/// What the traversal has gathered so far.
pub struct VisitView {
    pub functions: Seq<FunctionView>,
    pub declarations: Seq<DeclView>,
    pub calls: Seq<Seq<u8>>,
    pub idents: Seq<Seq<u8>>,
    pub includes: Seq<ByteRange>,
    pub statements: Seq<Statement>,
    pub expressions: Seq<ExprView>,
    pub fields: Seq<FieldView>,
    pub header_end: usize,
    pub seen_function_def: bool,
}

/// Nothing gathered yet.
pub open spec fn empty_visit() -> VisitView {
    VisitView {
        functions: seq![],
        declarations: seq![],
        calls: seq![],
        idents: seq![],
        includes: seq![],
        statements: seq![],
        expressions: seq![],
        fields: seq![],
        header_end: 0,
        seen_function_def: false,
    }
}

/// The node lies in the main file.
pub open spec fn in_main(e: AstEntity, main: Seq<u8>) -> bool {
    e.file matches Some(f) && sbytes(&f) == main
}

/// A name's bytes, or nothing.
pub open spec fn opt_name(o: Option<String>) -> Seq<u8> {
    match o {
        Some(s) => sbytes(&s),
        None => seq![],
    }
}

/// A type's view, or `void`.
pub open spec fn type_or_void(o: Option<TypeInfo>) -> TypeView {
    match o {
        Some(t) => t@,
        None => void_view(),
    }
}

/// A range, or `0..0`.
pub open spec fn range_or_zero(o: Option<ByteRange>) -> ByteRange {
    match o {
        Some(r) => r,
        None => ByteRange { start: 0, end: 0 },
    }
}

/// The parameter a parameter declaration gives.
pub open spec fn param_view_of(a: AstEntity) -> ParamView {
    ParamView { name: opt_name(a.name), type_info: type_or_void(a.type_info) }
}

/// The body of a definition: from its first `{` to its end.
pub open spec fn brace_body(b: Seq<u8>, r: ByteRange) -> Option<ByteRange> {
    if slice_ok(b, r.start as int, r.end as int) {
        let t = b.subrange(r.start as int, r.end as int);
        let p = byte_from(t, 0x7b, 0);
        if p < t.len() {
            Some(ByteRange { start: (r.start + p) as usize, end: r.end })
        } else {
            None
        }
    } else {
        None
    }
}

/// The function a function declaration gives.
pub open spec fn function_view_of(b: Seq<u8>, e: AstEntity) -> FunctionView {
    let range = range_or_zero(e.range);
    FunctionView {
        name: opt_name(e.name),
        return_type: type_or_void(e.result_type),
        parameters: match e.arguments {
            Some(args) => args@.map_values(|a: AstEntity| param_view_of(a)),
            None => seq![],
        },
        range,
        body_range: if e.is_definition {
            brace_body(b, range)
        } else {
            None
        },
        is_definition: e.is_definition,
    }
}

/// The declaration a named variable, typedef, struct or enum gives.
pub open spec fn decl_view_of(e: AstEntity) -> Option<DeclView> {
    match e.name {
        None => None,
        Some(n) => {
            let kind = match e.kind {
                EntityKind::VarDecl => Some(DeclKindView::Variable { type_info: type_or_void(e.type_info) }),
                EntityKind::TypedefDecl => Some(DeclKindView::Typedef { underlying: type_or_void(e.underlying_type) }),
                EntityKind::StructDecl => Some(DeclKindView::Struct),
                EntityKind::EnumDecl => Some(DeclKindView::Enum),
                _ => None,
            };
            match kind {
                Some(k) => Some(DeclView { name: sbytes(&n), kind: k, range: range_or_zero(e.range) }),
                None => None,
            }
        },
    }
}

/// `s` with `x` added unless it is there already.
pub open spec fn insert_name(s: Seq<Seq<u8>>, x: Seq<u8>) -> Seq<Seq<u8>> {
    if s.contains(x) {
        s
    } else {
        s.push(x)
    }
}

/// `p` occurs somewhere in `t`.
pub open spec fn contains_bytes(t: Seq<u8>, p: Seq<u8>) -> bool {
    exists|i: int| matches_at(t, p, i)
}

/// `t` ends with `p`.
pub open spec fn ends_with(t: Seq<u8>, p: Seq<u8>) -> bool {
    p.len() <= t.len() && t.subrange(t.len() - p.len(), t.len() as int) == p
}

/// The binary operators, longest first, in the order they are looked for.
pub open spec fn binary_ops() -> Seq<Seq<u8>> {
    seq![
        seq![0x26u8, 0x26],
        seq![0x7cu8, 0x7c],
        seq![0x3du8, 0x3d],
        seq![0x21u8, 0x3d],
        seq![0x3cu8, 0x3d],
        seq![0x3eu8, 0x3d],
        seq![0x3cu8, 0x3c],
        seq![0x3eu8, 0x3e],
        seq![0x2bu8],
        seq![0x2du8],
        seq![0x2au8],
        seq![0x2fu8],
        seq![0x25u8],
        seq![0x26u8],
        seq![0x7cu8],
        seq![0x5eu8],
        seq![0x3cu8],
        seq![0x3eu8],
        seq![0x3du8],
    ]
}

/// `?`, for an operator that could not be told.
pub open spec fn unknown_op() -> Seq<u8> {
    seq![0x3fu8]
}

/// The first operator of `ops[k..]` that `t` contains, or `?`.
pub open spec fn first_op(t: Seq<u8>, ops: Seq<Seq<u8>>, k: int) -> Seq<u8>
    decreases ops.len() - k,
{
    if k < 0 || k >= ops.len() {
        unknown_op()
    } else if contains_bytes(t, ops[k]) {
        ops[k]
    } else {
        first_op(t, ops, k + 1)
    }
}

/// The operator of a binary expression: the first of `binary_ops` its text
/// contains.
pub open spec fn binary_op_of(t: Seq<u8>) -> Seq<u8> {
    first_op(t, binary_ops(), 0)
}

/// The operator of a unary expression, told from its text.
pub open spec fn unary_op_of(t: Seq<u8>) -> Seq<u8> {
    let inc = seq![0x2bu8, 0x2b];
    let dec = seq![0x2du8, 0x2d];
    if starts_with(t, inc) || ends_with(t, inc) {
        inc
    } else if starts_with(t, dec) || ends_with(t, dec) {
        dec
    } else if starts_with(t, seq![0x21u8]) {
        seq![0x21u8]
    } else if starts_with(t, seq![0x7eu8]) {
        seq![0x7eu8]
    } else if starts_with(t, seq![0x2du8]) {
        seq![0x2du8]
    } else if starts_with(t, seq![0x26u8]) {
        seq![0x26u8]
    } else if starts_with(t, seq![0x2au8]) {
        seq![0x2au8]
    } else {
        unknown_op()
    }
}

/// The text a range covers, or nothing when it does not lie on character
/// boundaries.
pub open spec fn range_text(b: Seq<u8>, r: ByteRange) -> Seq<u8> {
    if slice_ok(b, r.start as int, r.end as int) {
        b.subrange(r.start as int, r.end as int)
    } else {
        seq![]
    }
}

/// A child of a compound statement of one of these kinds is an expression
/// statement.
pub open spec fn is_expr_stmt_kind(k: EntityKind) -> bool {
    ||| k == EntityKind::BinaryOperator
    ||| k == EntityKind::UnaryOperator
    ||| k == EntityKind::CallExpr
    ||| k == EntityKind::CompoundAssignOperator
    ||| k == EntityKind::ConditionalOperator
    ||| k == EntityKind::ParenExpr
}

/// The expression statement a child of a compound statement makes: its
/// range, extended past a `;` right after it.
pub open spec fn expr_stmt_of(b: Seq<u8>, c: AstEntity) -> Seq<Statement> {
    if is_expr_stmt_kind(c.kind) && c.range is Some {
        let r = c.range->0;
        let end = if (r.end as int) < b.len() && b[r.end as int] == 0x3b {
            (r.end + 1) as usize
        } else {
            r.end
        };
        seq![Statement { kind: StatementKind::Expression, range: ByteRange { start: r.start, end } }]
    } else {
        seq![]
    }
}

/// The expression statements among `cs[..n]`.
pub open spec fn expr_stmts(b: Seq<u8>, cs: Seq<AstEntity>, n: int) -> Seq<Statement>
    decreases n,
{
    if n <= 0 {
        seq![]
    } else {
        expr_stmts(b, cs, n - 1) + expr_stmt_of(b, cs[n - 1])
    }
}

/// The statement kind a node of kind `k` records, if it records one by
/// itself (compound statements are handled apart).
pub open spec fn simple_stmt_kind(e: AstEntity) -> Option<StatementKind> {
    match e.kind {
        EntityKind::DeclStmt => Some(StatementKind::Declaration),
        EntityKind::ReturnStmt => Some(StatementKind::Return),
        EntityKind::IfStmt => Some(StatementKind::If { has_else: e.children@.len() > 2 }),
        EntityKind::WhileStmt => Some(StatementKind::While),
        EntityKind::ForStmt => Some(StatementKind::For),
        EntityKind::DoStmt => Some(StatementKind::DoWhile),
        EntityKind::SwitchStmt => Some(StatementKind::Switch),
        EntityKind::BreakStmt => Some(StatementKind::Break),
        EntityKind::ContinueStmt => Some(StatementKind::Continue),
        EntityKind::NullStmt => Some(StatementKind::Null),
        _ => None,
    }
}

/// The number of arguments of a call node (its children but the callee).
pub open spec fn arg_count(e: AstEntity) -> usize {
    if e.children@.len() > 0 {
        (e.children@.len() - 1) as usize
    } else {
        0
    }
}

/// An expression of `e`'s range and type.
pub open spec fn expr_at(e: AstEntity, kind: ExprKindView) -> ExprView {
    ExprView { kind, range: e.range->0, type_info: opt_type_view(e.type_info) }
}

/// What visiting node `e` itself (not its children) adds to `v`.
pub open spec fn visit_step(v: VisitView, b: Seq<u8>, main: Seq<u8>, e: AstEntity) -> VisitView {
    let im = in_main(e, main);
    match e.kind {
        EntityKind::FunctionDecl => {
            if im && e.is_definition {
                let v1 = if !v.seen_function_def {
                    VisitView {
                        seen_function_def: true,
                        header_end: match e.range {
                            Some(r) => r.start,
                            None => v.header_end,
                        },
                        ..v
                    }
                } else {
                    v
                };
                VisitView { functions: v1.functions.push(function_view_of(b, e)), ..v1 }
            } else if im && !v.seen_function_def && e.range is Some {
                VisitView { header_end: e.range->0.end, ..v }
            } else {
                v
            }
        },
        EntityKind::VarDecl | EntityKind::TypedefDecl | EntityKind::StructDecl | EntityKind::EnumDecl => {
            if im {
                let v1 = if !v.seen_function_def && e.range is Some {
                    VisitView { header_end: e.range->0.end, ..v }
                } else {
                    v
                };
                match decl_view_of(e) {
                    Some(d) => VisitView { declarations: v1.declarations.push(d), ..v1 },
                    None => v1,
                }
            } else {
                v
            }
        },
        EntityKind::FieldDecl => {
            if im && e.range is Some {
                VisitView { fields: v.fields.push(FieldView { name: opt_name(e.name), range: e.range->0 }), ..v }
            } else {
                v
            }
        },
        EntityKind::InclusionDirective => {
            if im && e.range is Some {
                VisitView { includes: v.includes.push(e.range->0), ..v }
            } else {
                v
            }
        },
        EntityKind::CallExpr => {
            let v1 = match e.reference_name {
                Some(n) => VisitView { calls: insert_name(v.calls, sbytes(&n)), ..v },
                None => v,
            };
            if im && e.range is Some {
                VisitView {
                    expressions: v1.expressions.push(
                        expr_at(e, ExprKindView::Call { function: opt_name(e.reference_name), arg_count: arg_count(e) }),
                    ),
                    ..v1
                }
            } else {
                v1
            }
        },
        EntityKind::BinaryOperator => {
            if im && e.range is Some {
                VisitView {
                    expressions: v.expressions.push(
                        expr_at(e, ExprKindView::Binary { operator: binary_op_of(range_text(b, e.range->0)) }),
                    ),
                    ..v
                }
            } else {
                v
            }
        },
        EntityKind::UnaryOperator => {
            if im && e.range is Some {
                VisitView {
                    expressions: v.expressions.push(
                        expr_at(e, ExprKindView::Unary { operator: unary_op_of(range_text(b, e.range->0)) }),
                    ),
                    ..v
                }
            } else {
                v
            }
        },
        EntityKind::ParenExpr => {
            if im && e.range is Some {
                VisitView { expressions: v.expressions.push(expr_at(e, ExprKindView::Paren)), ..v }
            } else {
                v
            }
        },
        EntityKind::DeclRefExpr => {
            match e.reference_name {
                Some(n) => {
                    let v1 = VisitView { idents: insert_name(v.idents, sbytes(&n)), ..v };
                    if im && e.range is Some {
                        VisitView {
                            expressions: v1.expressions.push(expr_at(e, ExprKindView::Identifier(sbytes(&n)))),
                            ..v1
                        }
                    } else {
                        v1
                    }
                },
                None => v,
            }
        },
        EntityKind::IntegerLiteral => {
            if im && e.range is Some {
                VisitView { expressions: v.expressions.push(expr_at(e, ExprKindView::IntegerLiteral(0))), ..v }
            } else {
                v
            }
        },
        EntityKind::CompoundStmt => {
            if im && e.range is Some {
                VisitView {
                    statements: v.statements.push(Statement { kind: StatementKind::Compound, range: e.range->0 })
                        + expr_stmts(b, e.children@, e.children@.len() as int),
                    ..v
                }
            } else {
                v
            }
        },
        _ => {
            if im && e.range is Some && simple_stmt_kind(e) is Some {
                VisitView {
                    statements: v.statements.push(Statement { kind: simple_stmt_kind(e)->0, range: e.range->0 }),
                    ..v
                }
            } else {
                v
            }
        },
    }
}

/// What visiting `e` and then, in order, its children adds to `v`.
pub open spec fn visit(v: VisitView, b: Seq<u8>, main: Seq<u8>, e: AstEntity) -> VisitView
    decreases e, 1nat,
{
    visit_all(visit_step(v, b, main, e), b, main, e.children@)
}

/// What visiting the nodes `es`, in order, adds to `v`.
pub open spec fn visit_all(v: VisitView, b: Seq<u8>, main: Seq<u8>, es: Seq<AstEntity>) -> VisitView
    decreases es, 0nat,
{
    if es.len() == 0 {
        v
    } else {
        visit_all(visit(v, b, main, es[0]), b, main, es.drop_first())
    }
}

/// What the traversal gathers, as it goes.
pub struct VisitorContext {
    pub functions: Vec<Function>,
    pub declarations: Vec<Declaration>,
    pub function_calls: Vec<String>,
    pub used_identifiers: Vec<String>,
    pub includes: Vec<ByteRange>,
    pub statements: Vec<Statement>,
    pub expressions: Vec<Expression>,
    pub struct_fields: Vec<StructField>,
    pub header_end: usize,
    pub seen_function_def: bool,
}

/// The bytes of each name.
pub open spec fn name_views(v: Seq<String>) -> Seq<Seq<u8>> {
    v.map_values(|s: String| sbytes(&s))
}

impl View for VisitorContext {
    type V = VisitView;

    open spec fn view(&self) -> VisitView {
        VisitView {
            functions: self.functions@.map_values(|f: Function| f@),
            declarations: self.declarations@.map_values(|d: Declaration| d@),
            calls: name_views(self.function_calls@),
            idents: name_views(self.used_identifiers@),
            includes: self.includes@,
            statements: self.statements@,
            expressions: self.expressions@.map_values(|x: Expression| x@),
            fields: self.struct_fields@.map_values(|f: StructField| f@),
            header_end: self.header_end,
            seen_function_def: self.seen_function_def,
        }
    }
}

/// Adds `name` to `names` unless it is there already.
fn insert_name_exec(names: &mut Vec<String>, name: &String)
    ensures
        name_views(final(names)@) == insert_name(name_views(old(names)@), sbytes(name)),
{
    let ghost before = name_views(names@);
    let mut k: usize = 0;
    while k < names.len()
        invariant
            k <= names@.len(),
            before == name_views(names@),
            forall|j: int| 0 <= j < k ==> before[j] != sbytes(name),
        decreases names.len() - k,
    {
        if same_text(names[k].as_str(), name.as_str()) {
            proof {
                assert(before[k as int] == sbytes(name));
            }
            return;
        }
        k += 1;
    }
    names.push(name.clone());
    proof {
        assert(!before.contains(sbytes(name)));
        assert(name_views(names@) =~= before.push(sbytes(name)));
    }
}

impl VisitorContext {
    /// Nothing gathered yet.
    pub fn new() -> (r: VisitorContext)
        ensures
            r@ == empty_visit(),
    {
        let r = VisitorContext {
            functions: Vec::new(),
            declarations: Vec::new(),
            function_calls: Vec::new(),
            used_identifiers: Vec::new(),
            includes: Vec::new(),
            statements: Vec::new(),
            expressions: Vec::new(),
            struct_fields: Vec::new(),
            header_end: 0,
            seen_function_def: false,
        };
        proof {
            assert(r@.functions =~= Seq::<FunctionView>::empty());
            assert(r@.declarations =~= Seq::<DeclView>::empty());
            assert(r@.calls =~= Seq::<Seq<u8>>::empty());
            assert(r@.idents =~= Seq::<Seq<u8>>::empty());
            assert(r@.expressions =~= Seq::<ExprView>::empty());
            assert(r@.fields =~= Seq::<FieldView>::empty());
        }
        r
    }

    fn push_function(&mut self, f: Function)
        ensures
            final(self)@ == (VisitView { functions: old(self)@.functions.push(f@), ..old(self)@ }),
    {
        let ghost before = self@;
        self.functions.push(f);
        proof {
            assert(self@.functions =~= before.functions.push(f@));
        }
    }

    fn push_declaration(&mut self, d: Declaration)
        ensures
            final(self)@ == (VisitView { declarations: old(self)@.declarations.push(d@), ..old(self)@ }),
    {
        let ghost before = self@;
        self.declarations.push(d);
        proof {
            assert(self@.declarations =~= before.declarations.push(d@));
        }
    }

    fn push_expression(&mut self, x: Expression)
        ensures
            final(self)@ == (VisitView { expressions: old(self)@.expressions.push(x@), ..old(self)@ }),
    {
        let ghost before = self@;
        self.expressions.push(x);
        proof {
            assert(self@.expressions =~= before.expressions.push(x@));
        }
    }

    fn push_field(&mut self, f: StructField)
        ensures
            final(self)@ == (VisitView { fields: old(self)@.fields.push(f@), ..old(self)@ }),
    {
        let ghost before = self@;
        self.struct_fields.push(f);
        proof {
            assert(self@.fields =~= before.fields.push(f@));
        }
    }

    fn insert_call(&mut self, name: &String)
        ensures
            final(self)@ == (VisitView { calls: insert_name(old(self)@.calls, sbytes(name)), ..old(self)@ }),
    {
        insert_name_exec(&mut self.function_calls, name);
    }

    fn insert_ident(&mut self, name: &String)
        ensures
            final(self)@ == (VisitView { idents: insert_name(old(self)@.idents, sbytes(name)), ..old(self)@ }),
    {
        insert_name_exec(&mut self.used_identifiers, name);
    }
}

/// The text of `binary_ops()[k]`.
fn binary_op_text(k: usize) -> (r: &'static str)
    requires
        k < 19,
    ensures
        bytes(r) == binary_ops()[k as int],
        is_ascii_chars(r@),
{
    match k {
        0 => {
            let t = "&&";
            proof {
                reveal_strlit("&&");
                assert(is_ascii_chars(t@));
                is_ascii_chars_encode_utf8(t@);
                assert(bytes(t) =~= binary_ops()[0]);
            }
            t
        },
        1 => {
            let t = "||";
            proof {
                reveal_strlit("||");
                assert(is_ascii_chars(t@));
                is_ascii_chars_encode_utf8(t@);
                assert(bytes(t) =~= binary_ops()[1]);
            }
            t
        },
        2 => {
            let t = "==";
            proof {
                reveal_strlit("==");
                assert(is_ascii_chars(t@));
                is_ascii_chars_encode_utf8(t@);
                assert(bytes(t) =~= binary_ops()[2]);
            }
            t
        },
        3 => {
            let t = "!=";
            proof {
                reveal_strlit("!=");
                assert(is_ascii_chars(t@));
                is_ascii_chars_encode_utf8(t@);
                assert(bytes(t) =~= binary_ops()[3]);
            }
            t
        },
        4 => {
            let t = "<=";
            proof {
                reveal_strlit("<=");
                assert(is_ascii_chars(t@));
                is_ascii_chars_encode_utf8(t@);
                assert(bytes(t) =~= binary_ops()[4]);
            }
            t
        },
        5 => {
            let t = ">=";
            proof {
                reveal_strlit(">=");
                assert(is_ascii_chars(t@));
                is_ascii_chars_encode_utf8(t@);
                assert(bytes(t) =~= binary_ops()[5]);
            }
            t
        },
        6 => {
            let t = "<<";
            proof {
                reveal_strlit("<<");
                assert(is_ascii_chars(t@));
                is_ascii_chars_encode_utf8(t@);
                assert(bytes(t) =~= binary_ops()[6]);
            }
            t
        },
        7 => {
            let t = ">>";
            proof {
                reveal_strlit(">>");
                assert(is_ascii_chars(t@));
                is_ascii_chars_encode_utf8(t@);
                assert(bytes(t) =~= binary_ops()[7]);
            }
            t
        },
        8 => {
            let t = "+";
            proof {
                reveal_strlit("+");
                assert(is_ascii_chars(t@));
                is_ascii_chars_encode_utf8(t@);
                assert(bytes(t) =~= binary_ops()[8]);
            }
            t
        },
        9 => {
            let t = "-";
            proof {
                reveal_strlit("-");
                assert(is_ascii_chars(t@));
                is_ascii_chars_encode_utf8(t@);
                assert(bytes(t) =~= binary_ops()[9]);
            }
            t
        },
        10 => {
            let t = "*";
            proof {
                reveal_strlit("*");
                assert(is_ascii_chars(t@));
                is_ascii_chars_encode_utf8(t@);
                assert(bytes(t) =~= binary_ops()[10]);
            }
            t
        },
        11 => {
            let t = "/";
            proof {
                reveal_strlit("/");
                assert(is_ascii_chars(t@));
                is_ascii_chars_encode_utf8(t@);
                assert(bytes(t) =~= binary_ops()[11]);
            }
            t
        },
        12 => {
            let t = "%";
            proof {
                reveal_strlit("%");
                assert(is_ascii_chars(t@));
                is_ascii_chars_encode_utf8(t@);
                assert(bytes(t) =~= binary_ops()[12]);
            }
            t
        },
        13 => {
            let t = "&";
            proof {
                reveal_strlit("&");
                assert(is_ascii_chars(t@));
                is_ascii_chars_encode_utf8(t@);
                assert(bytes(t) =~= binary_ops()[13]);
            }
            t
        },
        14 => {
            let t = "|";
            proof {
                reveal_strlit("|");
                assert(is_ascii_chars(t@));
                is_ascii_chars_encode_utf8(t@);
                assert(bytes(t) =~= binary_ops()[14]);
            }
            t
        },
        15 => {
            let t = "^";
            proof {
                reveal_strlit("^");
                assert(is_ascii_chars(t@));
                is_ascii_chars_encode_utf8(t@);
                assert(bytes(t) =~= binary_ops()[15]);
            }
            t
        },
        16 => {
            let t = "<";
            proof {
                reveal_strlit("<");
                assert(is_ascii_chars(t@));
                is_ascii_chars_encode_utf8(t@);
                assert(bytes(t) =~= binary_ops()[16]);
            }
            t
        },
        17 => {
            let t = ">";
            proof {
                reveal_strlit(">");
                assert(is_ascii_chars(t@));
                is_ascii_chars_encode_utf8(t@);
                assert(bytes(t) =~= binary_ops()[17]);
            }
            t
        },
        _ => {
            let t = "=";
            proof {
                reveal_strlit("=");
                assert(is_ascii_chars(t@));
                is_ascii_chars_encode_utf8(t@);
                assert(k == 18);
                assert(bytes(t) =~= binary_ops()[18]);
            }
            t
        },
    }
}

/// Whether `t` ends with `p`.
fn ends_with_bytes(t: &[u8], p: &[u8]) -> (r: bool)
    ensures
        r == ends_with(t@, p@),
{
    if p.len() > t.len() {
        return false;
    }
    range_eq(t, t.len() - p.len(), t.len(), p)
}

/// Whether `t` starts with `p`.
fn starts_with_bytes(t: &[u8], p: &[u8]) -> (r: bool)
    ensures
        r == starts_with(t@, p@),
{
    let r = range_starts_with(t, 0, t.len(), p);
    proof {
        assert(t@.subrange(0, t@.len() as int) =~= t@);
    }
    r
}

impl ParsedUnit {
    /// The operator of a binary expression, told from its text (see
    /// `binary_op_of`).
    pub fn extract_binary_operator(text: &str) -> (r: String)
        ensures
            sbytes(&r) == binary_op_of(bytes(text)),
    {
        let t = text.as_bytes();
        let mut k: usize = 0;
        while k < 19
            invariant
                t@ == bytes(text),
                k <= 19,
                first_op(t@, binary_ops(), 0) == first_op(t@, binary_ops(), k as int),
            decreases 19 - k,
        {
            let op = binary_op_text(k);
            match find_bytes(t, op.as_bytes(), 0) {
                Some(i) => {
                    assert(matches_at(t@, binary_ops()[k as int], i as int));
                    return to_owned_string(op);
                },
                None => {
                    assert(!contains_bytes(t@, binary_ops()[k as int]));
                },
            }
            k += 1;
        }
        let q = "?";
        proof {
            reveal_strlit("?");
            assert(is_ascii_chars(q@));
            is_ascii_chars_encode_utf8(q@);
            assert(bytes(q) =~= unknown_op());
        }
        to_owned_string(q)
    }

    /// The operator of a unary expression, told from its text (see
    /// `unary_op_of`).
    pub fn extract_unary_operator(text: &str) -> (r: String)
        ensures
            sbytes(&r) == unary_op_of(bytes(text)),
    {
        let t = text.as_bytes();
        let inc = "++";
        proof {
            reveal_strlit("++");
            assert(is_ascii_chars(inc@));
            is_ascii_chars_encode_utf8(inc@);
            assert(bytes(inc) =~= seq![0x2bu8, 0x2b]);
        }
        let dec = "--";
        proof {
            reveal_strlit("--");
            assert(is_ascii_chars(dec@));
            is_ascii_chars_encode_utf8(dec@);
            assert(bytes(dec) =~= seq![0x2du8, 0x2d]);
        }
        let not = "!";
        proof {
            reveal_strlit("!");
            assert(is_ascii_chars(not@));
            is_ascii_chars_encode_utf8(not@);
            assert(bytes(not) =~= seq![0x21u8]);
        }
        let tilde = "~";
        proof {
            reveal_strlit("~");
            assert(is_ascii_chars(tilde@));
            is_ascii_chars_encode_utf8(tilde@);
            assert(bytes(tilde) =~= seq![0x7eu8]);
        }
        let neg = "-";
        proof {
            reveal_strlit("-");
            assert(is_ascii_chars(neg@));
            is_ascii_chars_encode_utf8(neg@);
            assert(bytes(neg) =~= seq![0x2du8]);
        }
        let addr = "&";
        proof {
            reveal_strlit("&");
            assert(is_ascii_chars(addr@));
            is_ascii_chars_encode_utf8(addr@);
            assert(bytes(addr) =~= seq![0x26u8]);
        }
        let deref = "*";
        proof {
            reveal_strlit("*");
            assert(is_ascii_chars(deref@));
            is_ascii_chars_encode_utf8(deref@);
            assert(bytes(deref) =~= seq![0x2au8]);
        }
        let q = "?";
        proof {
            reveal_strlit("?");
            assert(is_ascii_chars(q@));
            is_ascii_chars_encode_utf8(q@);
            assert(bytes(q) =~= unknown_op());
        }
        let r = if starts_with_bytes(t, inc.as_bytes()) || ends_with_bytes(t, inc.as_bytes()) {
            inc
        } else if starts_with_bytes(t, dec.as_bytes()) || ends_with_bytes(t, dec.as_bytes()) {
            dec
        } else if starts_with_bytes(t, not.as_bytes()) {
            not
        } else if starts_with_bytes(t, tilde.as_bytes()) {
            tilde
        } else if starts_with_bytes(t, neg.as_bytes()) {
            neg
        } else if starts_with_bytes(t, addr.as_bytes()) {
            addr
        } else if starts_with_bytes(t, deref.as_bytes()) {
            deref
        } else {
            q
        };
        to_owned_string(r)
    }
}

/// A name, or the empty string.
fn name_or_empty(o: &Option<String>) -> (r: String)
    ensures
        sbytes(&r) == opt_name(*o),
{
    match o {
        Some(n) => n.clone(),
        None => {
            let r = String::new();
            proof {
                assert(sbytes(&r) =~= Seq::<u8>::empty());
            }
            r
        },
    }
}

/// A type, or `void`.
fn type_or_void_info(o: &Option<TypeInfo>) -> (r: TypeInfo)
    ensures
        r@ == type_or_void(*o),
{
    match o {
        Some(t) => t.clone(),
        None => TypeInfo::void(),
    }
}

/// A copy of an optional type.
fn clone_type(o: &Option<TypeInfo>) -> (r: Option<TypeInfo>)
    ensures
        opt_type_view(r) == opt_type_view(*o),
{
    match o {
        Some(t) => Some(t.clone()),
        None => None,
    }
}

/// A range, or `0..0`.
fn range_or_zero_exec(o: &Option<ByteRange>) -> (r: ByteRange)
    ensures
        r == range_or_zero(*o),
{
    match o {
        Some(r) => *r,
        None => ByteRange { start: 0, end: 0 },
    }
}

impl Parameter {
    /// The parameter a parameter declaration gives: its name (or the empty
    /// string) and its type (or `void`).
    pub fn from_entity(entity: &AstEntity) -> (r: Parameter)
        ensures
            r@ == param_view_of(*entity),
    {
        Parameter { name: name_or_empty(&entity.name), type_info: type_or_void_info(&entity.type_info) }
    }
}

impl Function {
    /// The function a function declaration gives (see `function_view_of`).
    pub fn from_entity(entity: &AstEntity, source: &str) -> (r: Function)
        ensures
            r@ == function_view_of(bytes(source), *entity),
    {
        let name = name_or_empty(&entity.name);
        let return_type = type_or_void_info(&entity.result_type);
        let mut parameters: Vec<Parameter> = Vec::new();
        match &entity.arguments {
            Some(args) => {
                let mut i: usize = 0;
                while i < args.len()
                    invariant
                        i <= args@.len(),
                        parameters@.map_values(|p: Parameter| p@) == args@.subrange(0, i as int).map_values(
                            |a: AstEntity| param_view_of(a),
                        ),
                    decreases args.len() - i,
                {
                    let ghost before = parameters@;
                    let p = Parameter::from_entity(&args[i]);
                    parameters.push(p);
                    proof {
                        let lhs = parameters@.map_values(|p: Parameter| p@);
                        let rhs = args@.subrange(0, i + 1).map_values(|a: AstEntity| param_view_of(a));
                        let old_rhs = args@.subrange(0, i as int).map_values(|a: AstEntity| param_view_of(a));
                        assert(before.map_values(|p: Parameter| p@).len() == before.len());
                        assert(old_rhs.len() == i);
                        assert(before.len() == i);
                        assert(lhs.len() == rhs.len());
                        assert forall|k: int| 0 <= k < lhs.len() implies lhs[k] == rhs[k] by {
                            if k < i {
                                assert(parameters@[k] == before[k]);
                                assert(before.map_values(|p: Parameter| p@)[k] == old_rhs[k]);
                            }
                        }
                        assert(lhs =~= rhs);
                    }
                    i += 1;
                }
                proof {
                    assert(args@.subrange(0, i as int) =~= args@);
                }
            },
            None => {
                proof {
                    assert(parameters@.map_values(|p: Parameter| p@) =~= Seq::<ParamView>::empty());
                }
            },
        }
        let range = range_or_zero_exec(&entity.range);
        let mut body_range: Option<ByteRange> = None;
        if entity.is_definition {
            match range.extract(source) {
                Some(text) => {
                    let t = text.as_bytes();
                    proof {
                        lemma_byte_from(t@, 0x7b, 0);
                    }
                    let p = find_byte_or_end(t, 0x7b, 0);
                    if p < t.len() {
                        body_range = Some(ByteRange::new(range.start + p, range.end));
                    }
                },
                None => {},
            }
        }
        Function { name, return_type, parameters, range, body_range, is_definition: entity.is_definition }
    }
}

impl Declaration {
    /// The declaration a named variable, typedef, struct or enum gives (see
    /// `decl_view_of`).
    pub fn from_entity(entity: &AstEntity, _source: &str) -> (r: Option<Declaration>)
        ensures
            match decl_view_of(*entity) {
                None => r is None,
                Some(d) => r matches Some(x) && x@ == d,
            },
    {
        let name = match &entity.name {
            Some(n) => n.clone(),
            None => {
                return None;
            },
        };
        let kind = match entity.kind {
            EntityKind::VarDecl => DeclarationKind::Variable { type_info: type_or_void_info(&entity.type_info) },
            EntityKind::TypedefDecl => DeclarationKind::Typedef {
                underlying: type_or_void_info(&entity.underlying_type),
            },
            EntityKind::StructDecl => DeclarationKind::Struct,
            EntityKind::EnumDecl => DeclarationKind::Enum,
            _ => {
                return None;
            },
        };
        Some(Declaration { name, kind, range: range_or_zero_exec(&entity.range) })
    }
}

impl VisitorContext {
    fn push_statement(&mut self, st: Statement)
        ensures
            final(self)@ == (VisitView { statements: old(self)@.statements.push(st), ..old(self)@ }),
    {
        self.statements.push(st);
    }

    fn push_include(&mut self, r: ByteRange)
        ensures
            final(self)@ == (VisitView { includes: old(self)@.includes.push(r), ..old(self)@ }),
    {
        self.includes.push(r);
    }
}

/// The text a range covers, or the empty string.
fn range_text_of<'a>(source: &'a str, r: ByteRange) -> (t: &'a str)
    ensures
        bytes(t) == range_text(bytes(source), r),
{
    match r.extract(source) {
        Some(t) => t,
        None => {
            let e = "";
            proof {
                reveal_strlit("");
                assert(bytes(e) =~= Seq::<u8>::empty());
            }
            e
        },
    }
}

/// An expression of the node's range and type.
fn expr_of(entity: &AstEntity, kind: ExpressionKind) -> (x: Expression)
    requires
        entity.range is Some,
    ensures
        x@ == expr_at(*entity, kind@),
{
    Expression { kind, range: entity.range.unwrap(), type_info: clone_type(&entity.type_info) }
}

/// Whether a child of this kind is an expression statement.
fn expr_stmt_kind(k: EntityKind) -> (r: bool)
    ensures
        r == is_expr_stmt_kind(k),
{
    match k {
        EntityKind::BinaryOperator | EntityKind::UnaryOperator | EntityKind::CallExpr
        | EntityKind::CompoundAssignOperator | EntityKind::ConditionalOperator | EntityKind::ParenExpr => true,
        _ => false,
    }
}

/// The statement kind the node records by itself, if any.
fn simple_kind(entity: &AstEntity) -> (r: Option<StatementKind>)
    ensures
        r == simple_stmt_kind(*entity),
{
    match entity.kind {
        EntityKind::DeclStmt => Some(StatementKind::Declaration),
        EntityKind::ReturnStmt => Some(StatementKind::Return),
        EntityKind::IfStmt => Some(StatementKind::If { has_else: entity.children.len() > 2 }),
        EntityKind::WhileStmt => Some(StatementKind::While),
        EntityKind::ForStmt => Some(StatementKind::For),
        EntityKind::DoStmt => Some(StatementKind::DoWhile),
        EntityKind::SwitchStmt => Some(StatementKind::Switch),
        EntityKind::BreakStmt => Some(StatementKind::Break),
        EntityKind::ContinueStmt => Some(StatementKind::Continue),
        EntityKind::NullStmt => Some(StatementKind::Null),
        _ => None,
    }
}

/// Records a compound statement and the expression statements among its
/// children.
fn visit_compound(entity: &AstEntity, source: &str, ctx: &mut VisitorContext)
    requires
        entity.range is Some,
    ensures
        final(ctx)@ == (VisitView {
            statements: old(ctx)@.statements.push(Statement { kind: StatementKind::Compound, range: entity.range->0 })
                + expr_stmts(bytes(source), entity.children@, entity.children@.len() as int),
            ..old(ctx)@
        }),
{
    let ghost b = bytes(source);
    let ghost base = old(ctx)@;
    let range = entity.range.unwrap();
    ctx.push_statement(Statement { kind: StatementKind::Compound, range });
    let ghost pushed = base.statements.push(Statement { kind: StatementKind::Compound, range });
    let sb = source.as_bytes();
    let n = sb.len();
    let mut i: usize = 0;
    proof {
        assert(pushed + expr_stmts(b, entity.children@, 0) =~= pushed);
    }
    while i < entity.children.len()
        invariant
            b == bytes(source),
            sb@ == b,
            n == b.len(),
            i <= entity.children@.len(),
            ctx@ == (VisitView { statements: pushed + expr_stmts(b, entity.children@, i as int), ..base }),
        decreases entity.children.len() - i,
    {
        let child = &entity.children[i];
        let ghost before = ctx@;
        let ghost item = expr_stmt_of(b, entity.children@[i as int]);
        proof {
            assert(pushed + expr_stmts(b, entity.children@, i + 1) =~= pushed + expr_stmts(b, entity.children@, i as int)
                + item);
        }
        if expr_stmt_kind(child.kind) {
            match child.range {
                Some(cr) => {
                    let mut end_offset = cr.end;
                    if end_offset < n && sb[end_offset] == 0x3b {
                        end_offset = end_offset + 1;
                    }
                    let st = Statement { kind: StatementKind::Expression, range: ByteRange { start: cr.start, end: end_offset } };
                    ctx.push_statement(st);
                    proof {
                        assert(item =~= seq![st]);
                        assert(ctx@.statements =~= before.statements + item);
                    }
                },
                None => {
                    proof {
                        assert(item =~= Seq::<Statement>::empty());
                        assert(ctx@.statements =~= before.statements + item);
                    }
                },
            }
        } else {
            proof {
                assert(item =~= Seq::<Statement>::empty());
                assert(ctx@.statements =~= before.statements + item);
            }
        }
        i += 1;
    }
}

impl ParsedUnit {
    /// Records what node `entity` itself tells (see `visit_step`).
    fn visit_node(entity: &AstEntity, source: &str, main_file: &str, ctx: &mut VisitorContext)
        ensures
            final(ctx)@ == visit_step(old(ctx)@, bytes(source), bytes(main_file), *entity),
    {
        let is_in_main_file = match &entity.file {
            Some(f) => same_text(f.as_str(), main_file),
            None => false,
        };
        match entity.kind {
            EntityKind::FunctionDecl => {
                if is_in_main_file && entity.is_definition {
                    if !ctx.seen_function_def {
                        ctx.seen_function_def = true;
                        match entity.range {
                            Some(r) => {
                                ctx.header_end = r.start;
                            },
                            None => {},
                        }
                    }
                    ctx.push_function(Function::from_entity(entity, source));
                } else if is_in_main_file && !ctx.seen_function_def {
                    match entity.range {
                        Some(r) => {
                            ctx.header_end = r.end;
                        },
                        None => {},
                    }
                }
            },
            EntityKind::VarDecl | EntityKind::TypedefDecl | EntityKind::StructDecl | EntityKind::EnumDecl => {
                if is_in_main_file {
                    if !ctx.seen_function_def {
                        match entity.range {
                            Some(r) => {
                                ctx.header_end = r.end;
                            },
                            None => {},
                        }
                    }
                    match Declaration::from_entity(entity, source) {
                        Some(d) => ctx.push_declaration(d),
                        None => {},
                    }
                }
            },
            EntityKind::FieldDecl => {
                if is_in_main_file {
                    match entity.range {
                        Some(r) => ctx.push_field(StructField { name: name_or_empty(&entity.name), range: r }),
                        None => {},
                    }
                }
            },
            EntityKind::InclusionDirective => {
                if is_in_main_file {
                    match entity.range {
                        Some(r) => ctx.push_include(r),
                        None => {},
                    }
                }
            },
            EntityKind::CallExpr => {
                match &entity.reference_name {
                    Some(n) => ctx.insert_call(n),
                    None => {},
                }
                if is_in_main_file && entity.range.is_some() {
                    let function = name_or_empty(&entity.reference_name);
                    let arg_count = if entity.children.len() > 0 {
                        entity.children.len() - 1
                    } else {
                        0
                    };
                    ctx.push_expression(expr_of(entity, ExpressionKind::Call { function, arg_count }));
                }
            },
            EntityKind::BinaryOperator => {
                if is_in_main_file && entity.range.is_some() {
                    let text = range_text_of(source, entity.range.unwrap());
                    let operator = ParsedUnit::extract_binary_operator(text);
                    ctx.push_expression(expr_of(entity, ExpressionKind::Binary { operator }));
                }
            },
            EntityKind::UnaryOperator => {
                if is_in_main_file && entity.range.is_some() {
                    let text = range_text_of(source, entity.range.unwrap());
                    let operator = ParsedUnit::extract_unary_operator(text);
                    ctx.push_expression(expr_of(entity, ExpressionKind::Unary { operator }));
                }
            },
            EntityKind::ParenExpr => {
                if is_in_main_file && entity.range.is_some() {
                    ctx.push_expression(expr_of(entity, ExpressionKind::Paren));
                }
            },
            EntityKind::DeclRefExpr => {
                match &entity.reference_name {
                    Some(n) => {
                        ctx.insert_ident(n);
                        if is_in_main_file && entity.range.is_some() {
                            ctx.push_expression(expr_of(entity, ExpressionKind::Identifier(n.clone())));
                        }
                    },
                    None => {},
                }
            },
            EntityKind::IntegerLiteral => {
                if is_in_main_file && entity.range.is_some() {
                    ctx.push_expression(expr_of(entity, ExpressionKind::IntegerLiteral(0)));
                }
            },
            EntityKind::CompoundStmt => {
                if is_in_main_file && entity.range.is_some() {
                    visit_compound(entity, source, ctx);
                }
            },
            _ => {
                if is_in_main_file && entity.range.is_some() {
                    match simple_kind(entity) {
                        Some(kind) => ctx.push_statement(Statement { kind, range: entity.range.unwrap() }),
                        None => {},
                    }
                }
            },
        }
    }

    /// Visits `entity` and then, in order, its children (see `visit`).
    pub fn visit_entity(entity: &AstEntity, source: &str, main_file: &str, ctx: &mut VisitorContext)
        ensures
            final(ctx)@ == visit(old(ctx)@, bytes(source), bytes(main_file), *entity),
        decreases entity,
    {
        let ghost b = bytes(source);
        let ghost m = bytes(main_file);
        let ghost target = visit(old(ctx)@, b, m, *entity);
        ParsedUnit::visit_node(entity, source, main_file, ctx);
        let mut i: usize = 0;
        proof {
            assert(entity.children@.subrange(0, entity.children@.len() as int) =~= entity.children@);
        }
        while i < entity.children.len()
            invariant
                b == bytes(source),
                m == bytes(main_file),
                i <= entity.children@.len(),
                target == visit_all(ctx@, b, m, entity.children@.subrange(i as int, entity.children@.len() as int)),
            decreases entity.children.len() - i,
        {
            let ghost rest = entity.children@.subrange(i as int, entity.children@.len() as int);
            proof {
                assert(rest[0] == entity.children@[i as int]);
                assert(rest.drop_first() =~= entity.children@.subrange(i + 1, entity.children@.len() as int));
            }
            ParsedUnit::visit_entity(&entity.children[i], source, main_file, ctx);
            i += 1;
        }
        proof {
            assert(entity.children@.subrange(i as int, entity.children@.len() as int) =~= Seq::<AstEntity>::empty());
        }
    }
}

/// An error (or a fatal error) in the main file.
pub open spec fn is_main_error(d: ClangDiagnostic, main: Seq<u8>) -> bool {
    &&& (d.severity == Severity::Error || d.severity == Severity::Fatal)
    &&& d.file matches Some(f) && sbytes(&f) == main
}

/// `unit` holds what visiting `root` gathers, the diagnostics' texts, and
/// whether one of them is an error in the main file.
pub open spec fn extracted(unit: &ParsedUnit, b: Seq<u8>, main: Seq<u8>, root: AstEntity, diags: Seq<ClangDiagnostic>) -> bool {
    let v = visit(empty_visit(), b, main, root);
    &&& unit.functions@.map_values(|f: Function| f@) == v.functions
    &&& unit.declarations@.map_values(|d: Declaration| d@) == v.declarations
    &&& name_views(unit.function_calls@) == v.calls
    &&& name_views(unit.used_identifiers@) == v.idents
    &&& unit.includes@ == v.includes
    &&& unit.statements@ == v.statements
    &&& unit.expressions@.map_values(|x: Expression| x@) == v.expressions
    &&& unit.struct_fields@.map_values(|f: StructField| f@) == v.fields
    &&& unit.header_end == v.header_end
    &&& unit.has_errors == exists|i: int| 0 <= i < diags.len() && is_main_error(#[trigger] diags[i], main)
    &&& unit.diagnostics@.len() == diags.len()
    &&& forall|i: int| 0 <= i < diags.len() ==> (#[trigger] unit.diagnostics@[i])@ == diags[i].text@
}

impl ParsedUnit {
    /// Gathers everything the passes read from the syntax tree rooted at
    /// `root`, in one traversal, with the front end's diagnostics.
    pub fn extract(root: &AstEntity, source: &str, main_file: &str, diagnostics: &[ClangDiagnostic]) -> (r: ParsedUnit)
        ensures
            r.source@ == source@,
            r.main_file@ == main_file@,
            extracted(&r, bytes(source), bytes(main_file), *root, diagnostics@),
    {
        let mut ctx = VisitorContext::new();
        ParsedUnit::visit_entity(root, source, main_file, &mut ctx);
        let mut has_errors = false;
        let mut texts: Vec<String> = Vec::new();
        let mut i: usize = 0;
        while i < diagnostics.len()
            invariant
                i <= diagnostics@.len(),
                has_errors == exists|k: int| 0 <= k < i && is_main_error(#[trigger] diagnostics@[k], bytes(main_file)),
                texts@.len() == i,
                forall|k: int| 0 <= k < i ==> (#[trigger] texts@[k])@ == diagnostics@[k].text@,
            decreases diagnostics.len() - i,
        {
            let d = &diagnostics[i];
            let severe = match d.severity {
                Severity::Error | Severity::Fatal => true,
                _ => false,
            };
            let in_main = match &d.file {
                Some(f) => same_text(f.as_str(), main_file),
                None => false,
            };
            if severe && in_main {
                has_errors = true;
            }
            proof {
                assert(is_main_error(diagnostics@[i as int], bytes(main_file)) == (severe && in_main));
            }
            texts.push(d.text.clone());
            i += 1;
        }
        ParsedUnit {
            source: to_owned_string(source),
            main_file: to_owned_string(main_file),
            functions: ctx.functions,
            declarations: ctx.declarations,
            function_calls: ctx.function_calls,
            used_identifiers: ctx.used_identifiers,
            includes: ctx.includes,
            statements: ctx.statements,
            expressions: ctx.expressions,
            struct_fields: ctx.struct_fields,
            header_end: ctx.header_end,
            has_errors,
            diagnostics: texts,
        }
    }
}

} // verus!
