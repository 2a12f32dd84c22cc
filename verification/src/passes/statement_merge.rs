use vstd::prelude::*;
use vstd::utf8::*;
use crate::engine::pass::{Candidate, Edit, edit_of};
use crate::parser::ast::{Declaration, DeclarationKind, ParsedUnit, Statement, StatementKind};
use crate::parser::span::ByteRange;
use crate::passes::argument_removal::{trim_pair, join_pieces, comma_sep};
use crate::text::{ident_occurrence, match_at, ident_byte, bytes, sbytes, slice_ok, trim_bounds, lemma_trim_boundaries, lemma_trim_hi_boundary, lemma_ascii_boundaries, substr, to_owned_string, push_str, push_ascii, match_from, lemma_match_from, find_match, byte_in, find_byte_in, is_operator_byte, is_operator, all_ident, all_ident_in, same_text};

verus! {

broadcast use vstd::utf8::encode_utf8_valid_utf8;

/// Merges runs of consecutive statements into one: declarations of the
/// same type (`int x; int y;` into `int x, y;`), a declaration and the
/// assignment that follows it (`int x; x = 42;` into `int x = 42;`), and
/// expression statements (`a = 1; b = 2;` into `a = 1, b = 2;`).
#[derive(Debug, Default)]
pub struct StatementMergePass;

/// A variable declaration as the pass rewrites it.
pub struct VarDecl {
    pub var_type: String,
    pub var_name: String,
    pub initializer: Option<String>,
}

/// A variable declaration's type, name and initializer, in bytes.
pub type VarView = (Seq<u8>, Seq<u8>, Option<Seq<u8>>);

/// The bytes of a `VarDecl`.
pub open spec fn var_view(v: VarDecl) -> VarView {
    (sbytes(&v.var_type), sbytes(&v.var_name), match v.initializer {
        Some(i) => Some(sbytes(&i)),
        None => None,
    })
}

/// `d` declares a variable within `r`.
pub open spec fn var_decl_within(d: Declaration, r: ByteRange) -> bool {
    d.kind is Variable && d.range.start >= r.start && d.range.end <= r.end
}

/// The index of the first variable declaration at or after `k` that lies
/// within `r`.
pub open spec fn first_var_decl(decls: Seq<Declaration>, r: ByteRange, k: int) -> Option<int>
    decreases decls.len() - k,
{
    if k < 0 || k >= decls.len() {
        None
    } else if var_decl_within(decls[k], r) {
        Some(k)
    } else {
        first_var_decl(decls, r, k + 1)
    }
}

/// The first offset at or after `from` where `name` occurs as a whole
/// identifier, or `b.len() + 1` when there is none.
pub open spec fn ident_from(b: Seq<u8>, name: Seq<u8>, from: int) -> int
    decreases b.len() + 1 - from,
{
    if from < 0 || from > b.len() {
        b.len() as int + 1
    } else if ident_occurrence(b, name, from) {
        from
    } else {
        ident_from(b, name, from + 1)
    }
}

pub proof fn lemma_ident_from(b: Seq<u8>, name: Seq<u8>, from: int)
    requires
        0 <= from <= b.len() + 1,
    ensures
        from <= ident_from(b, name, from) <= b.len() + 1,
        ident_from(b, name, from) <= b.len() ==> ident_occurrence(b, name, ident_from(b, name, from)),
    decreases b.len() + 1 - from,
{
    if from <= b.len() && !ident_occurrence(b, name, from) {
        lemma_ident_from(b, name, from + 1);
    }
}

/// The first whole-identifier occurrence of `name` in `b` (see `ident_from`).
fn find_ident(b: &[u8], name: &[u8]) -> (r: Option<usize>)
    ensures
        match r {
            Some(p) => p == ident_from(b@, name@, 0) && p <= b@.len(),
            None => ident_from(b@, name@, 0) > b@.len(),
        },
{
    let mut p: usize = 0;
    while p < b.len()
        invariant
            p <= b@.len(),
            ident_from(b@, name@, 0) == ident_from(b@, name@, p as int),
        decreases b@.len() - p,
    {
        if match_at(b, name, p) {
            let before_ok = p == 0 || !ident_byte(b[p - 1]);
            let after = p + name.len();
            let after_ok = after >= b.len() || !ident_byte(b[after]);
            if before_ok && after_ok {
                return Some(p);
            }
        }
        p += 1;
    }
    if match_at(b, name, p) && (p == 0 || !ident_byte(b[p - 1])) {
        return Some(p);
    }
    proof {
        assert(ident_from(b@, name@, p + 1) == b@.len() + 1);
    }
    None
}

/// What the pass reads of a variable declaration in `b`: its type's name,
/// its name and, when the text after the name (its first occurrence as a
/// whole identifier, so not inside the type) is `= value`, the trimmed
/// value.
pub open spec fn var_decl_view(b: Seq<u8>, d: Declaration) -> Option<VarView> {
    match d.kind {
        DeclarationKind::Variable { type_info } => {
            if !slice_ok(b, d.range.start as int, d.range.end as int) {
                None
            } else {
                let t = b.subrange(d.range.start as int, d.range.end as int);
                let nm = sbytes(&d.name);
                let np = ident_from(t, nm, 0);
                if np > t.len() {
                    None
                } else {
                    let (s, e) = trim_pair(t, np + nm.len(), t.len() as int);
                    let init = if s < e && t[s] == 0x3d {
                        let (vs, ve) = trim_pair(t, s + 1, e);
                        if vs == ve {
                            None
                        } else {
                            Some(t.subrange(vs, ve))
                        }
                    } else {
                        None
                    };
                    Some((sbytes(&type_info.name), nm, init))
                }
            }
        },
        _ => None,
    }
}

/// The variable that statement `s` declares, as the pass reads it.
pub open spec fn decl_info(b: Seq<u8>, decls: Seq<Declaration>, s: Statement) -> Option<VarView> {
    match first_var_decl(decls, s.range, 0) {
        Some(k) => var_decl_view(b, decls[k]),
        None => None,
    }
}

/// When `t` is `name = value;` (a plain assignment, not `+=`, `==` and
/// the like, to an identifier, with a non-empty value), the bounds of the
/// name and of the value.
pub open spec fn assignment_parts(t: Seq<u8>) -> Option<((int, int), (int, int))> {
    let (s, e) = trim_pair(t, 0, t.len() as int);
    let eq = byte_in(t, 0x3d, s, e);
    if eq >= e || (eq > s && is_operator_byte(t[eq - 1])) || (eq + 1 < e && t[eq + 1] == 0x3d) {
        None
    } else {
        let (ns, ne) = trim_pair(t, s, eq);
        let (vs, ve) = trim_pair(t, eq + 1, e);
        if ns == ne || !all_ident(t, ns, ne) || vs == ve || t[ve - 1] != 0x3b {
            None
        } else {
            let (ws, we) = trim_pair(t, vs, ve - 1);
            if ws == we {
                None
            } else {
                Some(((ns, ne), (ws, we)))
            }
        }
    }
}

/// When `t`, trimmed, ends with `;` and has something before it, the
/// bounds of that (trimmed).
pub open spec fn expr_body(t: Seq<u8>) -> Option<(int, int)> {
    let (s, e) = trim_pair(t, 0, t.len() as int);
    if s == e || t[e - 1] != 0x3b {
        None
    } else {
        let (bs, be) = trim_pair(t, s, e - 1);
        if bs == be {
            None
        } else {
            Some((bs, be))
        }
    }
}

impl StatementMergePass {
    /// The first variable declaration that lies within `stmt_range`.
    pub fn find_var_decl<'a>(declarations: &'a [Declaration], stmt_range: &ByteRange) -> (r: Option<&'a Declaration>)
        ensures
            match first_var_decl(declarations@, *stmt_range, 0) {
                None => r is None,
                Some(k) => r matches Some(d) && *d == declarations@[k],
            },
    {
        let mut k: usize = 0;
        while k < declarations.len()
            invariant
                k <= declarations@.len(),
                first_var_decl(declarations@, *stmt_range, 0) == first_var_decl(declarations@, *stmt_range, k as int),
            decreases declarations.len() - k,
        {
            let d = &declarations[k];
            if let DeclarationKind::Variable { .. } = d.kind {
                if d.range.start >= stmt_range.start && d.range.end <= stmt_range.end {
                    return Some(d);
                }
            }
            k += 1;
        }
        None
    }

    /// The type, name and initializer of a variable declaration.
    pub fn extract_var_decl(decl: &Declaration, source: &str) -> (r: Option<VarDecl>)
        ensures
            match var_decl_view(bytes(source), *decl) {
                None => r is None,
                Some(v) => r matches Some(x) && var_view(x) == v,
            },
    {
        let var_type = match &decl.kind {
            DeclarationKind::Variable { type_info } => &type_info.name,
            _ => {
                return None;
            },
        };
        let text = match decl.range.extract(source) {
            Some(t) => t,
            None => {
                return None;
            },
        };
        let t = text.as_bytes();
        let tlen = t.len();
        let nb = decl.name.as_str().as_bytes();
        proof {
            lemma_ident_from(t@, nb@, 0);
        }
        let np = match find_ident(t, nb) {
            Some(p) => p,
            None => {
                return None;
            },
        };
        let after = np + nb.len();
        let (s, e) = trim_bounds(t, after, tlen);
        let mut initializer: Option<String> = None;
        if s < e && t[s] == 0x3d {
            proof {
                is_char_boundary_start_end_of_seq(t@);
                lemma_trim_hi_boundary(t@, s as int, tlen as int);
                lemma_ascii_boundaries(t@, s as int);
                lemma_trim_boundaries(t@, s + 1, e as int);
            }
            let (vs, ve) = trim_bounds(t, s + 1, e);
            if vs != ve {
                initializer = Some(to_owned_string(substr(text, vs, ve)));
            }
        }
        Some(VarDecl { var_type: var_type.clone(), var_name: decl.name.clone(), initializer })
    }

    /// Splits `name = value;` into its name and value (see
    /// `assignment_parts`).
    pub fn parse_assignment(text: &str) -> (r: Option<(String, String)>)
        ensures
            match assignment_parts(bytes(text)) {
                None => r is None,
                Some(((ns, ne), (ws, we))) => r matches Some((n, v)) && sbytes(&n) == bytes(text).subrange(ns, ne)
                    && sbytes(&v) == bytes(text).subrange(ws, we),
            },
    {
        let t = text.as_bytes();
        let tlen = t.len();
        let (s, e) = trim_bounds(t, 0, tlen);
        let eq = find_byte_in(t, 0x3d, s, e);
        if eq >= e {
            return None;
        }
        if eq > s && is_operator(t[eq - 1]) {
            return None;
        }
        if eq + 1 < e && t[eq + 1] == 0x3d {
            return None;
        }
        let (ns, ne) = trim_bounds(t, s, eq);
        let (vs, ve) = trim_bounds(t, eq + 1, e);
        if ns == ne || !all_ident_in(t, ns, ne) || vs == ve || t[ve - 1] != 0x3b {
            return None;
        }
        let (ws, we) = trim_bounds(t, vs, ve - 1);
        if ws == we {
            return None;
        }
        proof {
            is_char_boundary_start_end_of_seq(t@);
            lemma_trim_boundaries(t@, 0, tlen as int);
            lemma_ascii_boundaries(t@, eq as int);
            lemma_trim_boundaries(t@, s as int, eq as int);
            lemma_trim_boundaries(t@, eq + 1, e as int);
            lemma_ascii_boundaries(t@, ve - 1);
            lemma_trim_boundaries(t@, vs as int, ve - 1);
        }
        Some((to_owned_string(substr(text, ns, ne)), to_owned_string(substr(text, ws, we))))
    }

    /// The text of an expression statement without its `;` (see
    /// `expr_body`).
    pub fn extract_expr_body(text: &str) -> (r: Option<&str>)
        ensures
            match expr_body(bytes(text)) {
                None => r is None,
                Some((bs, be)) => r matches Some(x) && bytes(x) == bytes(text).subrange(bs, be),
            },
    {
        let t = text.as_bytes();
        let tlen = t.len();
        let (s, e) = trim_bounds(t, 0, tlen);
        if s == e || t[e - 1] != 0x3b {
            return None;
        }
        let (bs, be) = trim_bounds(t, s, e - 1);
        if bs == be {
            return None;
        }
        proof {
            is_char_boundary_start_end_of_seq(t@);
            lemma_trim_boundaries(t@, 0, tlen as int);
            lemma_ascii_boundaries(t@, e - 1);
            lemma_trim_boundaries(t@, s as int, e - 1);
        }
        Some(substr(text, bs, be))
    }
}

/// ` = `.
pub open spec fn assign_sep() -> Seq<u8> {
    seq![0x20u8, 0x3d, 0x20]
}

/// A declarator as the merged declaration lists it: `name` or
/// `name = value`.
pub open spec fn var_part(v: VarView) -> Seq<u8> {
    match v.2 {
        Some(init) => v.1 + assign_sep() + init,
        None => v.1,
    }
}

/// The statements past the header region that are not compound
/// statements, in the order the parse lists them.
pub open spec fn merge_candidates(unit: &ParsedUnit) -> Seq<Statement> {
    unit.statements@.filter(|s: Statement| s.range.start >= unit.header_end && !(s.kind is Compound))
}

/// Where `x` goes when inserted into `s` after every statement that does
/// not start after it: scanning from the end.
pub open spec fn stmt_insert_pos(s: Seq<Statement>, x: Statement) -> int
    decreases s.len(),
{
    if s.len() == 0 {
        0
    } else if s.last().range.start <= x.range.start {
        s.len() as int
    } else {
        stmt_insert_pos(s.drop_last(), x)
    }
}

/// `s` in source order: sorted by range start, stably (statements that
/// start together keep their order).
pub open spec fn source_order(s: Seq<Statement>) -> Seq<Statement>
    decreases s.len(),
{
    if s.len() == 0 {
        s
    } else {
        let t = source_order(s.drop_last());
        t.insert(stmt_insert_pos(t, s.last()), s.last())
    }
}

/// `s` is ordered by range start.
pub open spec fn in_start_order(s: Seq<Statement>) -> bool {
    forall|i: int, j: int| 0 <= i < j < s.len() ==> s[i].range.start <= s[j].range.start
}

proof fn lemma_stmt_insert_pos(t: Seq<Statement>, x: Statement)
    requires
        in_start_order(t),
    ensures
        0 <= stmt_insert_pos(t, x) <= t.len(),
        forall|i: int| 0 <= i < stmt_insert_pos(t, x) ==> t[i].range.start <= x.range.start,
        forall|i: int| stmt_insert_pos(t, x) <= i < t.len() ==> t[i].range.start > x.range.start,
    decreases t.len(),
{
    if t.len() > 0 {
        let d = t.drop_last();
        if t.last().range.start > x.range.start {
            assert(in_start_order(d)) by {
                assert forall|i: int, j: int| 0 <= i < j < d.len() implies d[i].range.start <= d[j].range.start by {
                    assert(d[i] == t[i] && d[j] == t[j]);
                }
            }
            lemma_stmt_insert_pos(d, x);
            assert forall|i: int| 0 <= i < stmt_insert_pos(t, x) implies t[i].range.start <= x.range.start by {
                assert(d[i] == t[i]);
            }
            assert forall|i: int| stmt_insert_pos(t, x) <= i < t.len() implies t[i].range.start > x.range.start by {
                if i < d.len() {
                    assert(d[i] == t[i]);
                }
            }
        } else {
            assert forall|i: int| 0 <= i < t.len() implies t[i].range.start <= x.range.start by {
                if i < t.len() - 1 {
                    assert(t[i].range.start <= t[t.len() - 1].range.start);
                }
            }
        }
    }
}

/// Source order is a reordering of the statements by range start: it
/// holds the same statements, and each starts no later than the next.
pub proof fn source_order_is_sorted(s: Seq<Statement>)
    ensures
        source_order(s).len() == s.len(),
        source_order(s).to_multiset() == s.to_multiset(),
        in_start_order(source_order(s)),
    decreases s.len(),
{
    if s.len() > 0 {
        let t = source_order(s.drop_last());
        source_order_is_sorted(s.drop_last());
        let x = s.last();
        lemma_stmt_insert_pos(t, x);
        let p = stmt_insert_pos(t, x);
        let u = t.insert(p, x);
        assert(in_start_order(u)) by {
            assert forall|i: int, j: int| 0 <= i < j < u.len() implies u[i].range.start <= u[j].range.start by {
                if j < p {
                    assert(u[i] == t[i] && u[j] == t[j]);
                } else if j == p {
                    assert(u[i] == t[i]);
                } else if i < p {
                    assert(u[i] == t[i] && u[j] == t[j - 1]);
                } else if i == p {
                    assert(u[j] == t[j - 1]);
                } else {
                    assert(u[i] == t[i - 1] && u[j] == t[j - 1]);
                }
            }
        }
        broadcast use vstd::seq_lib::group_to_multiset_ensures;
        assert(s =~= s.drop_last().push(x));
        vstd::seq_lib::to_multiset_insert(t, p, x);
    }
}

/// The statements the pass looks at, in source order: those past the
/// header region that are not compound statements.
pub open spec fn merge_view(unit: &ParsedUnit) -> Seq<Statement> {
    source_order(merge_candidates(unit))
}

/// `s` declares a variable of type `ty`, as the pass reads it.
pub open spec fn same_type_decl(b: Seq<u8>, decls: Seq<Declaration>, s: Statement, ty: Seq<u8>) -> bool {
    s.kind is Declaration && match decl_info(b, decls, s) {
        Some(v) => v.0 == ty,
        None => false,
    }
}

/// `s` is a plain assignment to `name`.
pub open spec fn assigns_name(b: Seq<u8>, s: Statement, name: Seq<u8>) -> bool {
    s.kind is Expression && match assign_of(b, s) {
        Some(a) => a.0 == name,
        None => false,
    }
}

/// The value that statement `s` assigns, when it is a plain assignment.
pub open spec fn assigned_value(b: Seq<u8>, s: Statement) -> Seq<u8> {
    match assign_of(b, s) {
        Some(a) => a.1,
        None => seq![],
    }
}

/// Where the run of declarations of type `ty` that starts at `j` ends.
pub open spec fn decl_run_end(b: Seq<u8>, decls: Seq<Declaration>, fs: Seq<Statement>, j: int, ty: Seq<u8>) -> int
    decreases fs.len() - j,
{
    if 0 <= j < fs.len() && same_type_decl(b, decls, fs[j], ty) {
        decl_run_end(b, decls, fs, j + 1, ty)
    } else {
        j
    }
}

pub proof fn lemma_decl_run_end(b: Seq<u8>, decls: Seq<Declaration>, fs: Seq<Statement>, j: int, ty: Seq<u8>)
    requires
        0 <= j,
    ensures
        j <= decl_run_end(b, decls, fs, j, ty),
        decl_run_end(b, decls, fs, j, ty) <= fs.len() || decl_run_end(b, decls, fs, j, ty) == j,
        forall|k: int| j <= k < decl_run_end(b, decls, fs, j, ty) ==> same_type_decl(b, decls, #[trigger] fs[k], ty),
    decreases fs.len() - j,
{
    if 0 <= j < fs.len() && same_type_decl(b, decls, fs[j], ty) {
        lemma_decl_run_end(b, decls, fs, j + 1, ty);
    }
}

/// The declarators of the run `fs[i..j]`.
pub open spec fn run_parts(b: Seq<u8>, decls: Seq<Declaration>, fs: Seq<Statement>, i: int, j: int) -> Seq<Seq<u8>>
    decreases j - i,
{
    if j <= i {
        seq![]
    } else {
        run_parts(b, decls, fs, i, j - 1).push(var_part(decl_info(b, decls, fs[j - 1])->0))
    }
}

/// Where the run of expression statements that starts at `j` ends.
pub open spec fn expr_run_end(fs: Seq<Statement>, j: int) -> int
    decreases fs.len() - j,
{
    if 0 <= j < fs.len() && fs[j].kind is Expression {
        expr_run_end(fs, j + 1)
    } else {
        j
    }
}

pub proof fn lemma_expr_run_end(fs: Seq<Statement>, j: int)
    requires
        0 <= j,
    ensures
        j <= expr_run_end(fs, j),
        expr_run_end(fs, j) <= fs.len() || expr_run_end(fs, j) == j,
    decreases fs.len() - j,
{
    if 0 <= j < fs.len() && fs[j].kind is Expression {
        lemma_expr_run_end(fs, j + 1);
    }
}

/// The text of a statement, when its range lies on character boundaries.
pub open spec fn stmt_text(b: Seq<u8>, s: Statement) -> Option<Seq<u8>> {
    if slice_ok(b, s.range.start as int, s.range.end as int) {
        Some(b.subrange(s.range.start as int, s.range.end as int))
    } else {
        None
    }
}

/// The body of an expression statement (see `expr_body`).
pub open spec fn stmt_body(b: Seq<u8>, s: Statement) -> Option<Seq<u8>> {
    match stmt_text(b, s) {
        Some(t) => match expr_body(t) {
            Some((x, y)) => Some(t.subrange(x, y)),
            None => None,
        },
        None => None,
    }
}

/// The bodies of the statements `fs[i..j]`, when each has one.
pub open spec fn all_bodies(b: Seq<u8>, fs: Seq<Statement>, i: int, j: int) -> Option<Seq<Seq<u8>>>
    decreases j - i,
{
    if j <= i {
        Some(seq![])
    } else {
        match all_bodies(b, fs, i, j - 1) {
            None => None,
            Some(prev) => match stmt_body(b, fs[j - 1]) {
                None => None,
                Some(x) => Some(prev.push(x)),
            },
        }
    }
}

/// The name and value of the plain assignment that statement `s` is.
pub open spec fn assign_of(b: Seq<u8>, s: Statement) -> Option<(Seq<u8>, Seq<u8>)> {
    match stmt_text(b, s) {
        Some(t) => match assignment_parts(t) {
            Some(((ns, ne), (ws, we))) => Some((t.subrange(ns, ne), t.subrange(ws, we))),
            None => None,
        },
        None => None,
    }
}

/// The merges the pass proposes from `fs[i]` on.
#[verifier::opaque]
pub open spec fn merges_from(b: Seq<u8>, decls: Seq<Declaration>, fs: Seq<Statement>, i: int) -> Seq<Edit>
    decreases fs.len() - i,
{
    if i < 0 || i >= fs.len() {
        seq![]
    } else if fs[i].kind is Declaration {
        match decl_info(b, decls, fs[i]) {
            None => merges_from(b, decls, fs, i + 1),
            Some(first) => {
                let j = decl_run_end(b, decls, fs, i + 1, first.0);
                proof {
                    lemma_decl_run_end(b, decls, fs, i + 1, first.0);
                }
                if j - i >= 2 {
                    seq![(fs[i].range.start as int, fs[j - 1].range.end as int, first.0 + seq![0x20u8]
                        + join_pieces(run_parts(b, decls, fs, i, j)) + seq![0x3bu8])] + merges_from(b, decls, fs, j)
                } else {
                    (if first.2 is None && j < fs.len() && assigns_name(b, fs[j], first.1) {
                        seq![(fs[i].range.start as int, fs[j].range.end as int, first.0 + seq![0x20u8] + first.1
                            + assign_sep() + assigned_value(b, fs[j]) + seq![0x3bu8])]
                    } else {
                        seq![]
                    }) + merges_from(b, decls, fs, i + 1)
                }
            },
        }
    } else if fs[i].kind is Expression {
        let j = expr_run_end(fs, i + 1);
        proof {
            lemma_expr_run_end(fs, i + 1);
        }
        (if j - i >= 2 && all_bodies(b, fs, i, j) is Some {
            seq![(fs[i].range.start as int, fs[j - 1].range.end as int, join_pieces(all_bodies(b, fs, i, j)->0)
                + seq![0x3bu8])]
        } else {
            seq![]
        }) + merges_from(b, decls, fs, j)
    } else {
        merges_from(b, decls, fs, i + 1)
    }
}


/// The statements `merge_candidates` describes.
fn candidate_statements(unit: &ParsedUnit) -> (r: Vec<Statement>)
    ensures
        r@ == merge_candidates(unit),
{
    let stmts = unit.statements();
    let header_end = unit.header_end();
    let mut r: Vec<Statement> = Vec::new();
    let mut i: usize = 0;
    while i < stmts.len()
        invariant
            stmts@ == unit.statements@,
            header_end == unit.header_end,
            i <= stmts@.len(),
            r@ == stmts@.subrange(0, i as int).filter(
                |s: Statement| s.range.start >= unit.header_end && !(s.kind is Compound),
            ),
        decreases stmts.len() - i,
    {
        proof {
            reveal_with_fuel(Seq::<_>::filter, 1);
            assert(stmts@.subrange(0, i + 1).drop_last() =~= stmts@.subrange(0, i as int));
        }
        let keep = match stmts[i].kind {
            StatementKind::Compound => false,
            _ => stmts[i].range.start >= header_end,
        };
        if keep {
            r.push(stmts[i].clone());
        }
        i += 1;
    }
    proof {
        assert(stmts@.subrange(0, i as int) =~= stmts@);
    }
    r
}

/// `v` in source order (see `source_order`).
fn in_source_order(v: &Vec<Statement>) -> (r: Vec<Statement>)
    ensures
        r@ == source_order(v@),
{
    let mut r: Vec<Statement> = Vec::new();
    let mut i: usize = 0;
    while i < v.len()
        invariant
            i <= v@.len(),
            r@ == source_order(v@.subrange(0, i as int)),
        decreases v.len() - i,
    {
        let x = v[i].clone();
        let mut p: usize = r.len();
        proof {
            assert(r@.subrange(0, p as int) =~= r@);
        }
        while p > 0 && r[p - 1].range.start > x.range.start
            invariant
                p <= r@.len(),
                stmt_insert_pos(r@.subrange(0, p as int), x) == stmt_insert_pos(r@, x),
            decreases p,
        {
            proof {
                assert(r@.subrange(0, p - 1) =~= r@.subrange(0, p as int).drop_last());
            }
            p -= 1;
        }
        proof {
            assert(stmt_insert_pos(r@.subrange(0, p as int), x) == p);
            assert(v@.subrange(0, i + 1).drop_last() =~= v@.subrange(0, i as int));
        }
        r.insert(p, x);
        i += 1;
    }
    proof {
        assert(v@.subrange(0, i as int) =~= v@);
    }
    r
}

/// The statements `merge_view` describes.
fn merge_statements(unit: &ParsedUnit) -> (r: Vec<Statement>)
    ensures
        r@ == merge_view(unit),
{
    let v = candidate_statements(unit);
    in_source_order(&v)
}

/// The variable statement `s` declares, as the pass reads it.
fn var_decl_of(source: &str, decls: &[Declaration], s: &Statement) -> (r: Option<VarDecl>)
    ensures
        match decl_info(bytes(source), decls@, *s) {
            None => r is None,
            Some(v) => r matches Some(x) && var_view(x) == v,
        },
{
    match StatementMergePass::find_var_decl(decls, &s.range) {
        None => None,
        Some(d) => StatementMergePass::extract_var_decl(d, source),
    }
}

/// The declarator text of `v`.
fn part_text(v: &VarDecl) -> (r: String)
    ensures
        sbytes(&r) == var_part(var_view(*v)),
{
    let mut out = to_owned_string(v.var_name.as_str());
    match &v.initializer {
        Some(init) => {
            let sep = " = ";
            proof {
                reveal_strlit(" = ");
                assert(is_ascii_chars(sep@));
            }
            push_ascii(&mut out, sep);
            push_str(&mut out, init.as_str());
            proof {
                assert(bytes(sep) =~= assign_sep());
            }
        },
        None => {},
    }
    out
}

/// The end of the run of declarations that starts with the one at `i`,
/// and its declarators joined.
fn decl_run(source: &str, decls: &[Declaration], stmts: &Vec<Statement>, i: usize, first: &VarDecl) -> (r: (usize, String))
    requires
        i < stmts@.len(),
        decl_info(bytes(source), decls@, stmts@[i as int]) == Some(var_view(*first)),
    ensures
        r.0 == decl_run_end(bytes(source), decls@, stmts@, i + 1, sbytes(&first.var_type)),
        sbytes(&r.1) == join_pieces(run_parts(bytes(source), decls@, stmts@, i as int, r.0 as int)),
{
    let ghost b = bytes(source);
    let ghost ty = sbytes(&first.var_type);
    let n = stmts.len();
    let mut acc = part_text(first);
    proof {
        assert(run_parts(b, decls@, stmts@, i as int, i as int) =~= Seq::<Seq<u8>>::empty());
        assert(run_parts(b, decls@, stmts@, i as int, i + 1) =~= seq![var_part(var_view(*first))]);
    }
    let mut j: usize = i + 1;
    let mut go = true;
    while go && j < stmts.len()
        invariant
            b == bytes(source),
            ty == sbytes(&first.var_type),
            i < j <= stmts@.len(),
            decl_run_end(b, decls@, stmts@, i + 1, ty) == if go {
                decl_run_end(b, decls@, stmts@, j as int, ty)
            } else {
                j as int
            },
            sbytes(&acc) == join_pieces(run_parts(b, decls@, stmts@, i as int, j as int)),
        decreases 2 * (stmts@.len() - j) + if go { 1int } else { 0int },
    {
        let mut matched = false;
        let ghost prev = sbytes(&acc);
        if let StatementKind::Declaration = stmts[j].kind {
            match var_decl_of(source, decls, &stmts[j]) {
                Some(v) => {
                    if same_text(v.var_type.as_str(), first.var_type.as_str()) {
                        let sep = ", ";
                        proof {
                            reveal_strlit(", ");
                            assert(is_ascii_chars(sep@));
                        }
                        push_ascii(&mut acc, sep);
                        let part = part_text(&v);
                        push_str(&mut acc, part.as_str());
                        matched = true;
                        proof {
                            assert(bytes(sep) =~= comma_sep());
                            let parts = run_parts(b, decls@, stmts@, i as int, j + 1);
                            assert(parts.drop_last() =~= run_parts(b, decls@, stmts@, i as int, j as int));
                            assert(sbytes(&acc) =~= join_pieces(parts.drop_last()) + comma_sep() + parts.last());
                        }
                    }
                },
                None => {},
            }
        }
        proof {
            assert(matched == same_type_decl(b, decls@, stmts@[j as int], ty));
        }
        if matched {
            j += 1;
        } else {
            go = false;
        }
    }
    (j, acc)
}

/// Where the run of expression statements after `i` ends.
fn expr_run(stmts: &Vec<Statement>, i: usize) -> (j: usize)
    requires
        i < stmts@.len(),
    ensures
        j == expr_run_end(stmts@, i + 1),
{
    let n = stmts.len();
    let mut j: usize = i + 1;
    while j < stmts.len()
        invariant
            i < j <= stmts@.len(),
            expr_run_end(stmts@, i + 1) == expr_run_end(stmts@, j as int),
        decreases stmts.len() - j,
    {
        match stmts[j].kind {
            StatementKind::Expression => {
                j += 1;
            },
            _ => {
                return j;
            },
        }
    }
    j
}

proof fn lemma_all_bodies_none(b: Seq<u8>, fs: Seq<Statement>, i: int, k: int, j: int)
    requires
        i <= k <= j,
        all_bodies(b, fs, i, k) is None,
    ensures
        all_bodies(b, fs, i, j) is None,
    decreases j - k,
{
    if k < j {
        lemma_all_bodies_none(b, fs, i, k, j - 1);
    }
}

/// The bodies of the statements `i..j`, joined with `, `, when each has one.
fn bodies_joined(source: &str, stmts: &Vec<Statement>, i: usize, j: usize) -> (r: Option<String>)
    requires
        i <= j <= stmts@.len(),
    ensures
        match all_bodies(bytes(source), stmts@, i as int, j as int) {
            None => r is None,
            Some(p) => r matches Some(s) && sbytes(&s) == join_pieces(p),
        },
{
    let ghost b = bytes(source);
    let mut acc = String::new();
    proof {
        assert(sbytes(&acc) =~= Seq::<u8>::empty());
    }
    let mut k: usize = i;
    while k < j
        invariant
            b == bytes(source),
            i <= k <= j <= stmts@.len(),
            all_bodies(b, stmts@, i as int, k as int) is Some,
            sbytes(&acc) == join_pieces(all_bodies(b, stmts@, i as int, k as int)->0),
        decreases j - k,
    {
        let ghost parts = all_bodies(b, stmts@, i as int, k as int)->0;
        let body = match stmts[k].range.extract(source) {
            Some(text) => StatementMergePass::extract_expr_body(text),
            None => None,
        };
        match body {
            None => {
                proof {
                    lemma_all_bodies_none(b, stmts@, i as int, k + 1, j as int);
                }
                return None;
            },
            Some(x) => {
                if k > i {
                    let sep = ", ";
                    proof {
                        reveal_strlit(", ");
                        assert(is_ascii_chars(sep@));
                    }
                    push_ascii(&mut acc, sep);
                    proof {
                        assert(bytes(sep) =~= comma_sep());
                    }
                }
                push_str(&mut acc, x);
                proof {
                    let next = all_bodies(b, stmts@, i as int, k + 1)->0;
                    assert(next == parts.push(bytes(x)));
                    assert(next.drop_last() =~= parts);
                    if k > i {
                        assert(sbytes(&acc) =~= join_pieces(next.drop_last()) + comma_sep() + next.last());
                    } else {
                        assert(parts.len() == 0);
                        assert(sbytes(&acc) =~= next[0]);
                    }
                }
            },
        }
        k += 1;
    }
    Some(acc)
}

/// `type name = value;` when statement `j` plainly assigns to the variable
/// that `first` declares.
fn assign_merge(source: &str, stmts: &Vec<Statement>, j: usize, first: &VarDecl) -> (r: Option<String>)
    requires
        j < stmts@.len(),
    ensures
        assigns_name(bytes(source), stmts@[j as int], sbytes(&first.var_name)) ==> (r matches Some(s)
            && sbytes(&s) == sbytes(&first.var_type) + seq![0x20u8] + sbytes(&first.var_name) + assign_sep()
            + assigned_value(bytes(source), stmts@[j as int]) + seq![0x3bu8]),
        !assigns_name(bytes(source), stmts@[j as int], sbytes(&first.var_name)) ==> r is None,
{
    match stmts[j].kind {
        StatementKind::Expression => {},
        _ => {
            return None;
        },
    }
    let text = match stmts[j].range.extract(source) {
        Some(t) => t,
        None => {
            return None;
        },
    };
    let (var, value) = match StatementMergePass::parse_assignment(text) {
        Some(p) => p,
        None => {
            return None;
        },
    };
    if !same_text(first.var_name.as_str(), var.as_str()) {
        return None;
    }
    let space = " ";
    let sep = " = ";
    let semi = ";";
    proof {
        reveal_strlit(" ");
        reveal_strlit(" = ");
        reveal_strlit(";");
        assert(is_ascii_chars(space@));
        assert(is_ascii_chars(sep@));
        assert(is_ascii_chars(semi@));
    }
    let mut out = to_owned_string(first.var_type.as_str());
    push_ascii(&mut out, space);
    push_str(&mut out, first.var_name.as_str());
    push_ascii(&mut out, sep);
    push_str(&mut out, value.as_str());
    push_ascii(&mut out, semi);
    proof {
        assert(bytes(space) =~= seq![0x20u8]);
        assert(bytes(sep) =~= assign_sep());
        assert(bytes(semi) =~= seq![0x3bu8]);
    }
    Some(out)
}

/// The edits of at most one candidate.
pub open spec fn edits_of(c: Option<Candidate>) -> Seq<Edit> {
    match c {
        Some(c) => seq![edit_of(c)],
        None => seq![],
    }
}

/// The merge that starts with the declaration at `i`, and where the scan
/// goes on.
fn decl_step(source: &str, decls: &[Declaration], stmts: &Vec<Statement>, i: usize) -> (r: (Option<Candidate>, usize))
    requires
        i < stmts@.len(),
        stmts@[i as int].kind is Declaration,
    ensures
        i < r.1 <= stmts@.len(),
        merges_from(bytes(source), decls@, stmts@, i as int) == edits_of(r.0) + merges_from(
            bytes(source),
            decls@,
            stmts@,
            r.1 as int,
        ),
{
    let ghost b = bytes(source);
    let ghost fs = stmts@;
    let n = stmts.len();
    proof {
        reveal(merges_from);
    }
    let first = match var_decl_of(source, decls, &stmts[i]) {
        None => {
            proof {
                assert(edits_of(None) + merges_from(b, decls@, fs, i + 1) =~= merges_from(b, decls@, fs, i + 1));
            }
            return (None, i + 1);
        },
        Some(first) => first,
    };
    let (j, parts) = decl_run(source, decls, stmts, i, &first);
    proof {
        lemma_decl_run_end(b, decls@, fs, i + 1, sbytes(&first.var_type));
    }
    let space = " ";
    let semi = ";";
    proof {
        reveal_strlit(" ");
        reveal_strlit(";");
        assert(is_ascii_chars(space@));
        assert(is_ascii_chars(semi@));
    }
    if j - i >= 2 {
        let mut merged = to_owned_string(first.var_type.as_str());
        push_ascii(&mut merged, space);
        push_str(&mut merged, parts.as_str());
        push_ascii(&mut merged, semi);
        let c = Candidate::new(stmts[i].range.start..stmts[j - 1].range.end, merged.as_str());
        proof {
            assert(bytes(space) =~= seq![0x20u8]);
            assert(bytes(semi) =~= seq![0x3bu8]);
            let e = (fs[i as int].range.start as int, fs[j - 1].range.end as int, sbytes(&first.var_type)
                + seq![0x20u8] + join_pieces(run_parts(b, decls@, fs, i as int, j as int)) + seq![0x3bu8]);
            assert(sbytes(&merged) =~= e.2);
            assert(edit_of(c) == e);
        }
        (Some(c), j)
    } else {
        let mut r: Option<Candidate> = None;
        if first.initializer.is_none() && j < n {
            match assign_merge(source, stmts, j, &first) {
                Some(text) => {
                    r = Some(Candidate::new(stmts[i].range.start..stmts[j].range.end, text.as_str()));
                },
                None => {},
            }
        }
        (r, i + 1)
    }
}

/// The merge that starts with the expression statement at `i`, and where
/// the scan goes on.
fn expr_step(source: &str, stmts: &Vec<Statement>, i: usize) -> (r: (Option<Candidate>, usize))
    requires
        i < stmts@.len(),
        stmts@[i as int].kind is Expression,
    ensures
        i < r.1 <= stmts@.len(),
        r.1 == expr_run_end(stmts@, i + 1),
        (r.1 - i >= 2 && all_bodies(bytes(source), stmts@, i as int, r.1 as int) is Some) ==> (r.0 matches Some(c)
            && edit_of(c) == (stmts@[i as int].range.start as int, stmts@[r.1 - 1].range.end as int, join_pieces(
            all_bodies(bytes(source), stmts@, i as int, r.1 as int)->0) + seq![0x3bu8])),
        !(r.1 - i >= 2 && all_bodies(bytes(source), stmts@, i as int, r.1 as int) is Some) ==> r.0 is None,
{
    let j = expr_run(stmts, i);
    proof {
        lemma_expr_run_end(stmts@, i + 1);
    }
    if j - i >= 2 {
        match bodies_joined(source, stmts, i, j) {
            Some(joined) => {
                let semi = ";";
                proof {
                    reveal_strlit(";");
                    assert(is_ascii_chars(semi@));
                }
                let mut merged = joined;
                push_ascii(&mut merged, semi);
                proof {
                    assert(bytes(semi) =~= seq![0x3bu8]);
                }
                let c = Candidate::new(stmts[i].range.start..stmts[j - 1].range.end, merged.as_str());
                return (Some(c), j);
            },
            None => {},
        }
    }
    (None, j)
}

/// One step of the scan at `i`: the merge that starts there, if any, and
/// where the scan goes on.
fn merge_step(source: &str, decls: &[Declaration], stmts: &Vec<Statement>, i: usize) -> (r: (Option<Candidate>, usize))
    requires
        i < stmts@.len(),
    ensures
        i < r.1 <= stmts@.len(),
        merges_from(bytes(source), decls@, stmts@, i as int) == edits_of(r.0) + merges_from(
            bytes(source),
            decls@,
            stmts@,
            r.1 as int,
        ),
{
    let n = stmts.len();
    match stmts[i].kind {
        StatementKind::Declaration => decl_step(source, decls, stmts, i),
        StatementKind::Expression => {
            let r = expr_step(source, stmts, i);
            proof {
                reveal(merges_from);
            }
            r
        },
        _ => {
            proof {
                reveal(merges_from);
                assert(edits_of(None) + merges_from(bytes(source), decls@, stmts@, i + 1) =~= merges_from(
                    bytes(source),
                    decls@,
                    stmts@,
                    i + 1,
                ));
            }
            (None, i + 1)
        },
    }
}

impl StatementMergePass {
    /// The merges of consecutive statements, in order (see `merges_from`).
    pub fn candidates(&self, source: &str, unit: &ParsedUnit) -> (r: Vec<Candidate>)
        ensures
            r@.len() == merges_from(bytes(source), unit.declarations@, merge_view(unit), 0).len(),
            forall|k: int| 0 <= k < r@.len() ==> edit_of(#[trigger] r@[k]) == merges_from(
                bytes(source),
                unit.declarations@,
                merge_view(unit),
                0,
            )[k],
    {
        let ghost b = bytes(source);
        let stmts = merge_statements(unit);
        let decls = unit.declarations();
        let ghost fs = stmts@;
        let ghost total = merges_from(b, decls@, fs, 0);
        let ghost mut done: Seq<Edit> = seq![];
        let mut out: Vec<Candidate> = Vec::new();
        let mut i: usize = 0;
        proof {
            assert(done + merges_from(b, decls@, fs, 0) =~= total);
        }
        while i < stmts.len()
            invariant
                b == bytes(source),
                fs == stmts@,
                decls@ == unit.declarations@,
                i <= stmts@.len(),
                total == merges_from(b, decls@, fs, 0),
                done + merges_from(b, decls@, fs, i as int) == total,
                out@.len() == done.len(),
                forall|k: int| 0 <= k < out@.len() ==> edit_of(#[trigger] out@[k]) == done[k],
            decreases stmts.len() - i,
        {
            let (c, next) = merge_step(source, decls, &stmts, i);
            proof {
                done = done + edits_of(c);
            }
            match c {
                Some(c) => out.push(c),
                None => {},
            }
            proof {
                assert(done + merges_from(b, decls@, fs, next as int) =~= total);
            }
            i = next;
        }
        proof {
            reveal(merges_from);
            assert(done + merges_from(b, decls@, fs, i as int) =~= done);
        }
        out
    }
}

/// Declarations of different types are never merged: when the declaration
/// at `i` is followed by a declaration of another type, no merge starts at
/// `i`, and what the pass proposes from `i` on is what it proposes from the
/// next statement on.
pub proof fn different_types_do_not_merge(b: Seq<u8>, decls: Seq<Declaration>, fs: Seq<Statement>, i: int)
    requires
        0 <= i,
        i + 1 < fs.len(),
        fs[i].kind is Declaration,
        fs[i + 1].kind is Declaration,
        decl_info(b, decls, fs[i]) is Some,
        decl_info(b, decls, fs[i + 1]) is Some,
        (decl_info(b, decls, fs[i])->0).0 != (decl_info(b, decls, fs[i + 1])->0).0,
    ensures
        merges_from(b, decls, fs, i) == merges_from(b, decls, fs, i + 1),
{
    reveal(merges_from);
    let first = decl_info(b, decls, fs[i])->0;
    assert(!same_type_decl(b, decls, fs[i + 1], first.0));
    assert(decl_run_end(b, decls, fs, i + 1, first.0) == i + 1);
    assert(!assigns_name(b, fs[i + 1], first.1));
    assert(merges_from(b, decls, fs, i) =~= merges_from(b, decls, fs, i + 1));
}

/// `s` is a declaration that the pass reads as one of type `ty`.
pub open spec fn declares_type(b: Seq<u8>, decls: Seq<Declaration>, s: Statement, ty: Seq<u8>) -> bool {
    &&& s.kind is Declaration
    &&& decl_info(b, decls, s) is Some
    &&& (decl_info(b, decls, s)->0).0 == ty
}

proof fn lemma_decl_run_end_stops(b: Seq<u8>, decls: Seq<Declaration>, fs: Seq<Statement>, j: int, ty: Seq<u8>)
    requires
        0 <= j,
    ensures
        0 <= decl_run_end(b, decls, fs, j, ty) < fs.len() ==> !same_type_decl(
            b,
            decls,
            fs[decl_run_end(b, decls, fs, j, ty)],
            ty,
        ),
    decreases fs.len() - j,
{
    if 0 <= j < fs.len() && same_type_decl(b, decls, fs[j], ty) {
        lemma_decl_run_end_stops(b, decls, fs, j + 1, ty);
    }
}

proof fn lemma_run_parts(b: Seq<u8>, decls: Seq<Declaration>, fs: Seq<Statement>, i: int, j: int)
    requires
        i <= j,
    ensures
        run_parts(b, decls, fs, i, j).len() == j - i,
        forall|k: int|
            0 <= k < j - i ==> #[trigger] run_parts(b, decls, fs, i, j)[k] == var_part(
                decl_info(b, decls, fs[i + k])->0,
            ),
    decreases j - i,
{
    if i < j {
        lemma_run_parts(b, decls, fs, i, j - 1);
    }
}

/// Two adjacent declarations of one type start a merge of the longest run
/// of declarations of that type: every declaration in the run has the type
/// of the first, the statement after the run is not one of that type, and
/// the merge replaces the run by one declaration of that type listing each
/// member's declarator in order. Returns where the run ends and the
/// declarators.
pub proof fn same_type_run_merges(b: Seq<u8>, decls: Seq<Declaration>, fs: Seq<Statement>, i: int) -> (r: (
    int,
    Seq<Seq<u8>>,
))
    requires
        0 <= i,
        i + 1 < fs.len(),
        fs[i].kind is Declaration,
        decl_info(b, decls, fs[i]) is Some,
        declares_type(b, decls, fs[i + 1], (decl_info(b, decls, fs[i])->0).0),
    ensures
        ({
            let ty = (decl_info(b, decls, fs[i])->0).0;
            let (j, parts) = r;
            &&& i + 2 <= j <= fs.len()
            &&& forall|k: int| i <= k < j ==> declares_type(b, decls, #[trigger] fs[k], ty)
            &&& j < fs.len() ==> !declares_type(b, decls, fs[j], ty)
            &&& parts.len() == j - i
            &&& forall|k: int|
                0 <= k < j - i ==> #[trigger] parts[k] == var_part(decl_info(b, decls, fs[i + k])->0)
            &&& merges_from(b, decls, fs, i) == seq![
                (
                    fs[i].range.start as int,
                    fs[j - 1].range.end as int,
                    ty + seq![0x20u8] + join_pieces(parts) + seq![0x3bu8],
                ),
            ] + merges_from(b, decls, fs, j)
        }),
{
    reveal(merges_from);
    let first = decl_info(b, decls, fs[i])->0;
    let ty = first.0;
    let j = decl_run_end(b, decls, fs, i + 1, ty);
    lemma_decl_run_end(b, decls, fs, i + 1, ty);
    assert(same_type_decl(b, decls, fs[i + 1], ty));
    lemma_decl_run_end(b, decls, fs, i + 2, ty);
    assert(j == decl_run_end(b, decls, fs, i + 2, ty));
    lemma_run_parts(b, decls, fs, i, j);
    let parts = run_parts(b, decls, fs, i, j);
    assert forall|k: int| i <= k < j implies declares_type(b, decls, #[trigger] fs[k], ty) by {
        if k > i {
            assert(same_type_decl(b, decls, fs[k], ty));
        }
    }
    lemma_decl_run_end_stops(b, decls, fs, i + 1, ty);
    (j, parts)
}

} // verus!
