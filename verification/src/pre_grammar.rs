//! The structural checker: `var` declarations, then a `begin ... end` body.
//!
//! The checker never gives up. A malformed construct is recorded and the
//! scan goes on from the token at which it was found, so that one run
//! reports as much as it can.

use crate::error::{Diag, ErrorRecorder};
use crate::lex::{lex, lex_from, token_views, Token, TokenEnum, TokenView};
use vstd::prelude::*;

verus! {

/// The types that a declaration can name.
#[derive(Debug, Clone, Copy, PartialEq, Eq, Structural)]
pub enum TypeEnum {
    Integer,
    Longint,
    Bool,
    Real,
}

/// The type that a type keyword names; no type for any other token.
pub open spec fn type_named(token: TokenEnum) -> Option<TypeEnum> {
    match token {
        TokenEnum::Integer => Some(TypeEnum::Integer),
        TokenEnum::Longint => Some(TypeEnum::Longint),
        TokenEnum::Bool => Some(TypeEnum::Bool),
        TokenEnum::Real => Some(TypeEnum::Real),
        _ => None,
    }
}

impl TypeEnum {
    /// The type that `token` names, or the token itself where it names none.
    pub fn try_from(token: TokenEnum) -> (r: Result<TypeEnum, TokenEnum>)
        ensures
            match r {
                Ok(t) => type_named(token) == Some(t),
                Err(t) => type_named(token) is None && t == token,
            },
    {
        match token {
            TokenEnum::Integer => Ok(TypeEnum::Integer),
            TokenEnum::Longint => Ok(TypeEnum::Longint),
            TokenEnum::Bool => Ok(TypeEnum::Bool),
            TokenEnum::Real => Ok(TypeEnum::Real),
            _ => Err(token),
        }
    }
}

/// A declared identifier as contracts see it: its name and the type of the
/// line that declared it, where that line named one.
pub struct Decl {
    pub name: Seq<char>,
    pub ty: Option<TypeEnum>,
}

/// Whether `name` is among the declared identifiers.
pub open spec fn declared(decls: Seq<Decl>, name: Seq<char>) -> bool {
    exists|i: int| 0 <= i < decls.len() && #[trigger] decls[i].name == name
}

/// Whether no name is declared twice.
pub open spec fn distinct(decls: Seq<Decl>) -> bool {
    forall|i: int, j: int|
        0 <= i < j < decls.len() ==> #[trigger] decls[i].name != #[trigger] decls[j].name
}

/// The type under which `name` was first declared: `None` where it is not
/// declared, `Some(None)` where its line named no type.
pub open spec fn type_of(decls: Seq<Decl>, name: Seq<char>) -> Option<Option<TypeEnum>>
    decreases decls.len(),
{
    if decls.len() == 0 {
        None
    } else if declared(decls.drop_last(), name) {
        type_of(decls.drop_last(), name)
    } else if decls.last().name == name {
        Some(decls.last().ty)
    } else {
        None
    }
}

/// One declared identifier.
#[derive(Debug, Clone)]
pub struct VarDecl {
    pub name: String,
    pub ty: Option<TypeEnum>,
}

impl View for VarDecl {
    type V = Decl;

    open spec fn view(&self) -> Decl {
        Decl { name: self.name@, ty: self.ty }
    }
}

/// The declared identifiers, in the order of their declaration.
///
/// A table is well formed where no name occurs twice in it. Every table
/// that this module hands out is, and every operation keeps it so: to
/// declare a name again changes nothing, so that a name keeps the type of
/// its first declaration.
#[derive(Debug, Clone)]
pub struct VarTable {
    entries: Vec<VarDecl>,
}

impl View for VarTable {
    type V = Seq<Decl>;

    closed spec fn view(&self) -> Seq<Decl> {
        Seq::new(self.entries@.len(), |i: int| self.entries@[i]@)
    }
}

impl VarTable {
    /// Whether no name occurs twice in the table.
    pub open spec fn well_formed(&self) -> bool {
        distinct(self@)
    }

    /// A table without declarations.
    pub fn new() -> (r: Self)
        ensures
            r@ == Seq::<Decl>::empty(),
            r.well_formed(),
    {
        let r = VarTable { entries: Vec::new() };
        assert(r@ =~= Seq::<Decl>::empty());
        r
    }

    /// The number of declared identifiers.
    pub fn len(&self) -> (r: usize)
        ensures
            r == self@.len(),
    {
        self.entries.len()
    }

    /// Where `name` stands first in the table.
    fn position(&self, name: &String) -> (r: Option<usize>)
        ensures
            match r {
                Some(i) => i < self@.len() && self@[i as int].name == name@ && forall|k: int|
                    0 <= k < i ==> (#[trigger] self@[k]).name != name@,
                None => !declared(self@, name@),
            },
    {
        let mut i: usize = 0;
        while i < self.entries.len()
            invariant
                i <= self.entries@.len(),
                forall|k: int| 0 <= k < i ==> (#[trigger] self@[k]).name != name@,
            decreases self.entries.len() - i,
        {
            if self.entries[i].name == *name {
                return Some(i);
            }
            i += 1;
        }
        None
    }

    /// Whether `name` is declared.
    pub fn contains_key(&self, name: &str) -> (r: bool)
        ensures
            r == declared(self@, name@),
    {
        let key = String::from_str(name);
        self.position(&key).is_some()
    }

    /// The type under which `name` was declared: `None` where it is not
    /// declared, `Some(None)` where its line named no type.
    pub fn get(&self, name: &str) -> (r: Option<Option<TypeEnum>>)
        ensures
            r == type_of(self@, name@),
    {
        let key = String::from_str(name);
        match self.position(&key) {
            Some(i) => {
                proof {
                    lemma_type_of_at(self@, i as int);
                }
                Some(self.entries[i].ty)
            },
            None => {
                proof {
                    lemma_type_of_undeclared(self@, name@);
                }
                None
            },
        }
    }

    /// Declares `name` with type `ty` unless the name is declared already;
    /// a declared name keeps its type. Tells whether the name was new.
    pub fn declare(&mut self, name: String, ty: Option<TypeEnum>) -> (r: bool)
        ensures
            r == !declared(old(self)@, name@),
            final(self)@ == if r {
                old(self)@.push(Decl { name: name@, ty })
            } else {
                old(self)@
            },
            old(self).well_formed() ==> final(self).well_formed(),
    {
        if self.position(&name).is_some() {
            false
        } else {
            let ghost before = self@;
            let ghost entry = Decl { name: name@, ty };
            self.entries.push(VarDecl { name, ty });
            assert(self@ =~= before.push(entry));
            true
        }
    }

    /// Gives the type `ty` to the declarations from index `first` on.
    pub fn assign_from(&mut self, first: usize, ty: TypeEnum)
        ensures
            final(self)@ == typed_from(old(self)@, first as int, Some(ty)),
            old(self).well_formed() ==> final(self).well_formed(),
    {
        let mut k: usize = first;
        while k < self.entries.len()
            invariant
                first <= k,
                self@.len() == old(self)@.len(),
                forall|j: int|
                    0 <= j < self@.len() ==> #[trigger] self@[j] == if first <= j < k {
                        Decl { name: old(self)@[j].name, ty: Some(ty) }
                    } else {
                        old(self)@[j]
                    },
            decreases self.entries.len() - k,
        {
            let ghost before = self@;
            let name = self.entries[k].name.clone();
            self.entries.set(k, VarDecl { name, ty: Some(ty) });
            assert forall|j: int| 0 <= j < self@.len() implies #[trigger] self@[j] == if first
                <= j < k + 1 {
                Decl { name: old(self)@[j].name, ty: Some(ty) }
            } else {
                old(self)@[j]
            } by {
                if j != k {
                    assert(self@[j] == before[j]);
                }
            }
            k += 1;
        }
        assert(self@ =~= typed_from(old(self)@, first as int, Some(ty)));
        assert forall|i: int, j: int|
            0 <= i < j < self@.len() && distinct(old(self)@) implies self@[i].name
            != self@[j].name by {
            assert(self@[i].name == old(self)@[i].name);
            assert(self@[j].name == old(self)@[j].name);
        }
    }
}

/// A name has the type of the first entry that declares it.
pub proof fn lemma_type_of_at(decls: Seq<Decl>, i: int)
    requires
        0 <= i < decls.len(),
        forall|k: int| 0 <= k < i ==> (#[trigger] decls[k]).name != decls[i].name,
    ensures
        type_of(decls, decls[i].name) == Some(decls[i].ty),
    decreases decls.len(),
{
    let front = decls.drop_last();
    if i < decls.len() - 1 {
        assert(front[i] == decls[i]);
        assert(declared(front, decls[i].name));
        lemma_type_of_at(front, i);
    } else {
        if declared(front, decls[i].name) {
            let k = choose|k: int| 0 <= k < front.len() && #[trigger] front[k].name == decls[i].name;
            assert(front[k] == decls[k]);
        }
    }
}

/// A name that is not declared has no type.
pub proof fn lemma_type_of_undeclared(decls: Seq<Decl>, name: Seq<char>)
    requires
        !declared(decls, name),
    ensures
        type_of(decls, name) is None,
{
    if decls.len() > 0 {
        assert(decls[decls.len() - 1].name != name);
        if declared(decls.drop_last(), name) {
            let k = choose|k: int|
                0 <= k < decls.drop_last().len() && #[trigger] decls.drop_last()[k].name == name;
            assert(decls[k] == decls.drop_last()[k]);
        }
    }
}


/// The word that names a kind of token in a diagnostic.
pub open spec fn token_label(token: TokenEnum) -> Seq<char> {
    match token {
        TokenEnum::Var => "var"@,
        TokenEnum::If => "if"@,
        TokenEnum::Then => "then"@,
        TokenEnum::Else => "else"@,
        TokenEnum::While => "while"@,
        TokenEnum::Do => "do"@,
        TokenEnum::Begin => "begin"@,
        TokenEnum::End => "end"@,
        TokenEnum::And => "and"@,
        TokenEnum::Or => "or"@,
        TokenEnum::Integer => "integer"@,
        TokenEnum::Longint => "longint"@,
        TokenEnum::Bool => "bool"@,
        TokenEnum::Real => "real"@,
        TokenEnum::Add => "add"@,
        TokenEnum::Sub => "sub"@,
        TokenEnum::Mul => "mul"@,
        TokenEnum::Div => "div"@,
        TokenEnum::Assign => "assign"@,
        TokenEnum::Lt => "lt"@,
        TokenEnum::Gt => "gt"@,
        TokenEnum::Ne => "ne"@,
        TokenEnum::Ge => "ge"@,
        TokenEnum::Le => "le"@,
        TokenEnum::Eq => "eq"@,
        TokenEnum::Colon => "colon"@,
        TokenEnum::LParen => "lparen"@,
        TokenEnum::RParen => "rparen"@,
        TokenEnum::Comma => "comma"@,
        TokenEnum::SemiColon => "semicolon"@,
        TokenEnum::Identifier => "identifier"@,
        TokenEnum::IntLiteral => "intliteral"@,
    }
}

/// The word that names a kind of token in a diagnostic.
pub fn label(token: TokenEnum) -> (r: &'static str)
    ensures
        r@ == token_label(token),
{
    match token {
        TokenEnum::Var => "var",
        TokenEnum::If => "if",
        TokenEnum::Then => "then",
        TokenEnum::Else => "else",
        TokenEnum::While => "while",
        TokenEnum::Do => "do",
        TokenEnum::Begin => "begin",
        TokenEnum::End => "end",
        TokenEnum::And => "and",
        TokenEnum::Or => "or",
        TokenEnum::Integer => "integer",
        TokenEnum::Longint => "longint",
        TokenEnum::Bool => "bool",
        TokenEnum::Real => "real",
        TokenEnum::Add => "add",
        TokenEnum::Sub => "sub",
        TokenEnum::Mul => "mul",
        TokenEnum::Div => "div",
        TokenEnum::Assign => "assign",
        TokenEnum::Lt => "lt",
        TokenEnum::Gt => "gt",
        TokenEnum::Ne => "ne",
        TokenEnum::Ge => "ge",
        TokenEnum::Le => "le",
        TokenEnum::Eq => "eq",
        TokenEnum::Colon => "colon",
        TokenEnum::LParen => "lparen",
        TokenEnum::RParen => "rparen",
        TokenEnum::Comma => "comma",
        TokenEnum::SemiColon => "semicolon",
        TokenEnum::Identifier => "identifier",
        TokenEnum::IntLiteral => "intliteral",
    }
}

/// The message for a token of kind `token` that is not where it belongs.
pub open spec fn expected(token: TokenEnum) -> Seq<char> {
    "expected "@ + token_label(token)
}

/// The message for an identifier that is used without a declaration.
pub open spec fn undeclared(name: Seq<char>) -> Seq<char> {
    "undeclared identifier: "@ + name
}

/// The kind of the token at index `i`, if there is one.
pub open spec fn peek_kind(ts: Seq<TokenView>, i: int) -> Option<TokenEnum> {
    if 0 <= i < ts.len() {
        Some(ts[i].token)
    } else {
        None
    }
}

/// The offset of the token at index `i`; behind the last token, the
/// greatest offset there is.
pub open spec fn peek_offset(ts: Seq<TokenView>, i: int) -> int {
    if 0 <= i < ts.len() {
        ts[i].offset
    } else {
        usize::MAX as int
    }
}

/// Where a step of the checker leaves the stream, and what it records.
pub struct Advance {
    pub index: int,
    pub errors: Seq<Diag>,
}

/// Requiring a token of kind `token` at index `i`: it is consumed where it
/// is there; where it is not, nothing is consumed and its absence is
/// recorded at the token that stands in its place.
pub open spec fn expect_of(ts: Seq<TokenView>, i: int, token: TokenEnum) -> Advance {
    if peek_kind(ts, i) == Some(token) {
        Advance { index: i + 1, errors: Seq::empty() }
    } else {
        Advance {
            index: i,
            errors: seq![Diag { offset: peek_offset(ts, i), msg: expected(token) }],
        }
    }
}

/// The state of the checker within an identifier list: where it stands,
/// what is declared, the identifiers read so far, each with its offset, and
/// what it has recorded.
pub struct Names {
    pub index: int,
    pub decls: Seq<Decl>,
    pub names: Seq<(Seq<char>, int)>,
    pub errors: Seq<Diag>,
}

/// Reading one identifier at `acc.index`. Where it is there, it is consumed
/// and declared, as yet without a type; one that is declared already is
/// recorded as a duplicate at its offset and changes no declaration. Where
/// no identifier is there, nothing is consumed and its absence is recorded.
pub open spec fn with_identifier(ts: Seq<TokenView>, acc: Names) -> Names {
    if peek_kind(ts, acc.index) == Some(TokenEnum::Identifier) {
        let t = ts[acc.index];
        let names = acc.names.push((t.content, t.offset));
        if declared(acc.decls, t.content) {
            Names {
                index: acc.index + 1,
                decls: acc.decls,
                names,
                errors: acc.errors.push(Diag { offset: t.offset, msg: "duplicate identifier"@ }),
            }
        } else {
            Names {
                index: acc.index + 1,
                decls: acc.decls.push(Decl { name: t.content, ty: None }),
                names,
                errors: acc.errors,
            }
        }
    } else {
        Names {
            index: acc.index,
            decls: acc.decls,
            names: acc.names,
            errors: acc.errors.push(
                Diag { offset: peek_offset(ts, acc.index), msg: expected(TokenEnum::Identifier) },
            ),
        }
    }
}

/// The state `acc` moved past one token.
pub open spec fn past_one(acc: Names) -> Names {
    Names { index: acc.index + 1, decls: acc.decls, names: acc.names, errors: acc.errors }
}

/// Reading the rest of an identifier list: as long as a comma follows, the
/// comma and one more identifier.
pub open spec fn list_tail(ts: Seq<TokenView>, acc: Names) -> Names
    decreases ts.len() - acc.index,
{
    if peek_kind(ts, acc.index) == Some(TokenEnum::Comma) {
        list_tail(ts, with_identifier(ts, past_one(acc)))
    } else {
        acc
    }
}

/// Reading an identifier list at index `i`, `i0, i1, i2`, with `decls`
/// declared before it.
pub open spec fn identifier_list_of(ts: Seq<TokenView>, i: int, decls: Seq<Decl>) -> Names {
    list_tail(
        ts,
        with_identifier(
            ts,
            Names { index: i, decls, names: Seq::empty(), errors: Seq::empty() },
        ),
    )
}

/// The declarations `decls` with the type `ty` given to those from index
/// `first` on.
pub open spec fn typed_from(decls: Seq<Decl>, first: int, ty: Option<TypeEnum>) -> Seq<Decl> {
    Seq::new(
        decls.len(),
        |k: int|
            if k >= first {
                Decl { name: decls[k].name, ty }
            } else {
                decls[k]
            },
    )
}

/// The state of the checker in the declarations: where it stands, what is
/// declared, and what it has recorded.
pub struct Checked {
    pub index: int,
    pub decls: Seq<Decl>,
    pub errors: Seq<Diag>,
}

/// Where the type of a declaration line leaves the stream: past the type
/// keyword where there is one; where there is none, nothing is consumed and
/// the absence is recorded.
pub open spec fn type_of_line(ts: Seq<TokenView>, i: int) -> Advance {
    if type_at(ts, i) is Some {
        Advance { index: i + 1, errors: Seq::empty() }
    } else {
        Advance { index: i, errors: seq![Diag { offset: peek_offset(ts, i), msg: "expected type"@ }] }
    }
}

/// The type that the token at index `i` names, if it names one.
pub open spec fn type_at(ts: Seq<TokenView>, i: int) -> Option<TypeEnum> {
    match peek_kind(ts, i) {
        Some(t) => type_named(t),
        None => None,
    }
}

/// Checking one declaration line at index `i`: `i0, i1, i2: type;`.
///
/// The identifier list, the colon, the type and the semicolon are read in
/// turn, and whatever is missing is recorded. The identifiers that the line
/// declares have the type of the line, where it names one, whatever else is
/// wrong with the line.
pub open spec fn def_line_of(ts: Seq<TokenView>, i: int, decls: Seq<Decl>) -> Checked {
    let list = identifier_list_of(ts, i, decls);
    let colon = expect_of(ts, list.index, TokenEnum::Colon);
    let ty = type_of_line(ts, colon.index);
    let semicolon = expect_of(ts, ty.index, TokenEnum::SemiColon);
    Checked {
        index: semicolon.index,
        decls: typed_from(list.decls, decls.len() as int, type_at(ts, colon.index)),
        errors: list.errors + colon.errors + ty.errors + semicolon.errors,
    }
}

/// An identifier list moves forward only, and stays within the tokens.
pub proof fn lemma_list_tail_advances(ts: Seq<TokenView>, acc: Names)
    requires
        0 <= acc.index <= ts.len(),
    ensures
        acc.index <= list_tail(ts, acc).index <= ts.len(),
    decreases ts.len() - acc.index,
{
    if peek_kind(ts, acc.index) == Some(TokenEnum::Comma) {
        lemma_list_tail_advances(ts, with_identifier(ts, past_one(acc)));
    }
}

/// A declaration line moves forward only and stays within the tokens; one
/// that starts with an identifier consumes at least that identifier.
pub proof fn lemma_def_line_advances(ts: Seq<TokenView>, i: int, decls: Seq<Decl>)
    requires
        0 <= i <= ts.len(),
    ensures
        i <= def_line_of(ts, i, decls).index <= ts.len(),
        peek_kind(ts, i) == Some(TokenEnum::Identifier) ==> i < def_line_of(ts, i, decls).index,
{
    lemma_list_tail_advances(
        ts,
        with_identifier(
            ts,
            Names { index: i, decls, names: Seq::empty(), errors: Seq::empty() },
        ),
    );
}

/// What an identifier list declares stands behind what was declared
/// before it, which it leaves as it was, and has no type yet.
pub proof fn lemma_list_extends(ts: Seq<TokenView>, acc: Names, base: Seq<Decl>)
    requires
        base.len() <= acc.decls.len(),
        forall|k: int| 0 <= k < base.len() ==> acc.decls[k] == base[k],
        forall|k: int| base.len() <= k < acc.decls.len() ==> acc.decls[k].ty is None,
    ensures
        base.len() <= list_tail(ts, acc).decls.len(),
        forall|k: int| 0 <= k < base.len() ==> list_tail(ts, acc).decls[k] == base[k],
        forall|k: int|
            base.len() <= k < list_tail(ts, acc).decls.len() ==> list_tail(ts, acc).decls[k].ty
                is None,
        distinct(acc.decls) ==> distinct(list_tail(ts, acc).decls),
    decreases ts.len() - acc.index,
{
    if peek_kind(ts, acc.index) == Some(TokenEnum::Comma) {
        let next = with_identifier(ts, past_one(acc));
        lemma_with_identifier_extends(ts, past_one(acc), base);
        lemma_list_extends(ts, next, base);
    }
}

/// What reading one identifier declares stands behind what was declared
/// before it, which it leaves as it was, and has no type yet.
pub proof fn lemma_with_identifier_extends(ts: Seq<TokenView>, acc: Names, base: Seq<Decl>)
    requires
        base.len() <= acc.decls.len(),
        forall|k: int| 0 <= k < base.len() ==> acc.decls[k] == base[k],
        forall|k: int| base.len() <= k < acc.decls.len() ==> acc.decls[k].ty is None,
    ensures
        base.len() <= with_identifier(ts, acc).decls.len(),
        forall|k: int| 0 <= k < base.len() ==> with_identifier(ts, acc).decls[k] == base[k],
        forall|k: int|
            base.len() <= k < with_identifier(ts, acc).decls.len() ==> with_identifier(
                ts,
                acc,
            ).decls[k].ty is None,
        distinct(acc.decls) ==> distinct(with_identifier(ts, acc).decls),
{
}

/// What an identifier list declares stands behind what was declared
/// before it, which it leaves as it was, and has no type yet.
proof fn lemma_untyped_tail(ts: Seq<TokenView>, i: int, decls: Seq<Decl>)
    ensures
        decls.len() <= identifier_list_of(ts, i, decls).decls.len(),
        forall|k: int| 0 <= k < decls.len() ==> identifier_list_of(ts, i, decls).decls[k] == decls[k],
        forall|k: int|
            decls.len() <= k < identifier_list_of(ts, i, decls).decls.len() ==> identifier_list_of(
                ts,
                i,
                decls,
            ).decls[k].ty is None,
        distinct(decls) ==> distinct(identifier_list_of(ts, i, decls).decls),
{
    let first = Names { index: i, decls, names: Seq::empty(), errors: Seq::empty() };
    lemma_with_identifier_extends(ts, first, decls);
    lemma_list_extends(ts, with_identifier(ts, first), decls);
}

/// Checking declaration lines for as long as the next token is an
/// identifier.
pub open spec fn lines_from(ts: Seq<TokenView>, acc: Checked) -> Checked
    decreases ts.len() - acc.index,
{
    if 0 <= acc.index <= ts.len() && peek_kind(ts, acc.index) == Some(TokenEnum::Identifier) {
        let line = def_line_of(ts, acc.index, acc.decls);
        proof {
            lemma_def_line_advances(ts, acc.index, acc.decls);
        }
        lines_from(
            ts,
            Checked { index: line.index, decls: line.decls, errors: acc.errors + line.errors },
        )
    } else {
        acc
    }
}

/// Checking the declarations at index `i`.
///
/// `var` is consumed where it is there. Where it is not, that is recorded,
/// unless the body starts right away with `begin`. Then the declaration
/// lines follow, for as long as the next token is an identifier.
pub open spec fn var_block_of(ts: Seq<TokenView>, i: int) -> Checked {
    let start = if peek_kind(ts, i) == Some(TokenEnum::Var) {
        Checked { index: i + 1, decls: Seq::empty(), errors: Seq::empty() }
    } else if peek_kind(ts, i) == Some(TokenEnum::Begin) {
        Checked { index: i, decls: Seq::empty(), errors: Seq::empty() }
    } else {
        Checked {
            index: i,
            decls: Seq::empty(),
            errors: seq![Diag { offset: peek_offset(ts, i), msg: expected(TokenEnum::Var) }],
        }
    };
    lines_from(ts, start)
}

/// The state of the checker in the body: where it stands, how many `begin`
/// are open, and what it has recorded.
pub struct Body {
    pub index: int,
    pub depth: int,
    pub errors: Seq<Diag>,
}

/// What one token of the body does to the number of open `begin`.
pub open spec fn depth_after(t: TokenView, depth: int) -> int {
    match t.token {
        TokenEnum::Begin => depth + 1,
        TokenEnum::End => if depth <= 0 {
            depth
        } else {
            depth - 1
        },
        _ => depth,
    }
}

/// What one token of the body records: an `end` that closes nothing, or an
/// identifier that is not declared.
pub open spec fn body_errors(t: TokenView, decls: Seq<Decl>, depth: int) -> Seq<Diag> {
    match t.token {
        TokenEnum::End => if depth <= 0 {
            seq![Diag { offset: t.offset, msg: "unexpected end"@ }]
        } else {
            Seq::empty()
        },
        TokenEnum::Identifier => if declared(decls, t.content) {
            Seq::empty()
        } else {
            seq![Diag { offset: t.offset, msg: undeclared(t.content) }]
        },
        _ => Seq::empty(),
    }
}

/// Checking the tokens of the body from `acc.index` to the last token.
pub open spec fn body_from(ts: Seq<TokenView>, decls: Seq<Decl>, acc: Body) -> Body
    decreases ts.len() - acc.index,
{
    if 0 <= acc.index < ts.len() {
        let t = ts[acc.index];
        body_from(
            ts,
            decls,
            Body {
                index: acc.index + 1,
                depth: depth_after(t, acc.depth),
                errors: acc.errors + body_errors(t, decls, acc.depth),
            },
        )
    } else {
        acc
    }
}

/// Checking the body at index `i`.
///
/// The absence of `begin` is recorded. Then every token up to the last is
/// consumed, with no `begin` open at first, and a `begin` that is still
/// open at the end is recorded behind the last token.
pub open spec fn program_block_of(ts: Seq<TokenView>, i: int, decls: Seq<Decl>) -> Seq<Diag> {
    let head = if peek_kind(ts, i) == Some(TokenEnum::Begin) {
        Seq::empty()
    } else {
        seq![Diag { offset: peek_offset(ts, i), msg: expected(TokenEnum::Begin) }]
    };
    let body = body_from(ts, decls, Body { index: i, depth: 0, errors: head });
    if body.depth > 0 {
        body.errors.push(Diag { offset: usize::MAX as int, msg: "missing end"@ })
    } else {
        body.errors
    }
}

/// Checking a whole program at index `i`: the declarations, then the body
/// against what was declared.
pub open spec fn code_of(ts: Seq<TokenView>, i: int) -> Seq<Diag> {
    let vars = var_block_of(ts, i);
    vars.errors + program_block_of(ts, vars.index, vars.decls)
}


/// A stream of tokens as contracts see it: the tokens, and the index of the
/// next one. The tokens in front of the index are the consumed ones.
pub struct Stream {
    pub tokens: Seq<TokenView>,
    pub index: int,
}

/// The views of a list of identifiers with their offsets.
pub open spec fn name_views(v: Seq<(String, usize)>) -> Seq<(Seq<char>, int)> {
    Seq::new(v.len(), |i: int| (v[i].0@, v[i].1 as int))
}

/// A cursor over the tokens of a program, which the checker consumes one
/// by one.
#[derive(Debug)]
pub struct TokenStream {
    tokens: Vec<Token>,
    index: usize,
}

impl View for TokenStream {
    type V = Stream;

    closed spec fn view(&self) -> Stream {
        Stream { tokens: token_views(self.tokens@), index: self.index as int }
    }
}

impl Clone for TokenStream {
    fn clone(&self) -> (r: Self)
        ensures
            r@ == self@,
    {
        proof {
            use_type_invariant(self);
        }
        let tokens = self.tokens.clone();
        assert(token_views(tokens@) =~= token_views(self.tokens@));
        TokenStream { tokens, index: self.index }
    }
}

/// Records that a token of kind `token` is missing at `offset`.
fn record_expected(errors: &mut ErrorRecorder, offset: usize, token: TokenEnum)
    ensures
        final(errors)@.errors == old(errors)@.errors.push(
            Diag { offset: offset as int, msg: expected(token) },
        ),
        final(errors)@.warnings == old(errors)@.warnings,
{
    let mut msg = String::from_str("expected ");
    msg.append(label(token));
    errors.error(offset, msg.as_str());
}

impl TokenStream {
    #[verifier::type_invariant]
    spec fn well_formed(&self) -> bool {
        self.index <= self.tokens@.len()
    }

    /// A stream that stands in front of the first of `tokens`.
    pub fn new(tokens: Vec<Token>) -> (r: Self)
        ensures
            r@.tokens == token_views(tokens@),
            r@.index == 0,
    {
        Self { tokens, index: 0 }
    }

    /// Whether the next token is of kind `token`.
    fn peek_is(&self, token: TokenEnum) -> (r: bool)
        ensures
            0 <= self@.index <= self@.tokens.len(),
            r == (peek_kind(self@.tokens, self@.index) == Some(token)),
    {
        proof {
            use_type_invariant(self);
        }
        self.index < self.tokens.len() && self.tokens[self.index].token == token
    }

    /// The kind of the next token, or `None` behind the last token.
    pub fn peek(&self) -> (r: Option<&TokenEnum>)
        ensures
            0 <= self@.index <= self@.tokens.len(),
            match r {
                Some(t) => peek_kind(self@.tokens, self@.index) == Some(*t),
                None => peek_kind(self@.tokens, self@.index) is None,
            },
    {
        proof {
            use_type_invariant(self);
        }
        if self.index < self.tokens.len() {
            Some(&self.tokens[self.index].token)
        } else {
            None
        }
    }

    /// The offset of the next token; behind the last token, the greatest
    /// offset there is.
    pub fn peek_pos(&self) -> (r: usize)
        ensures
            r == peek_offset(self@.tokens, self@.index),
    {
        proof {
            use_type_invariant(self);
        }
        if self.index < self.tokens.len() {
            self.tokens[self.index].offset
        } else {
            usize::MAX
        }
    }

    /// Consumes the next token and hands it back; behind the last token
    /// nothing changes.
    pub fn next(&mut self) -> (r: Option<&Token>)
        ensures
            final(self)@.tokens == old(self)@.tokens,
            0 <= old(self)@.index <= final(self)@.index <= old(self)@.tokens.len(),
            match r {
                Some(t) => old(self)@.index < old(self)@.tokens.len() && t@ == old(
                    self,
                )@.tokens[old(self)@.index] && final(self)@.index == old(self)@.index + 1,
                None => old(self)@.index == old(self)@.tokens.len() && final(self)@.index == old(
                    self,
                )@.index,
            },
    {
        proof {
            use_type_invariant(&*self);
        }
        if self.index < self.tokens.len() {
            self.index += 1;
            Some(&self.tokens[self.index - 1])
        } else {
            None
        }
    }

    /// Requires the next token to be of kind `token`. Where it is, it is
    /// consumed and handed back. Where it is not, nothing is consumed, and
    /// the absence is recorded at the token that stands in its place.
    pub fn expect(&mut self, token: TokenEnum, errors: &mut ErrorRecorder) -> (r: Option<&Token>)
        ensures
            final(self)@.tokens == old(self)@.tokens,
            0 <= old(self)@.index <= final(self)@.index <= old(self)@.tokens.len(),
            final(self)@.index == expect_of(old(self)@.tokens, old(self)@.index, token).index,
            final(errors)@.errors == old(errors)@.errors + expect_of(
                old(self)@.tokens,
                old(self)@.index,
                token,
            ).errors,
            final(errors)@.warnings == old(errors)@.warnings,
            match r {
                Some(t) => peek_kind(old(self)@.tokens, old(self)@.index) == Some(token) && t@
                    == old(self)@.tokens[old(self)@.index],
                None => peek_kind(old(self)@.tokens, old(self)@.index) != Some(token),
            },
    {
        if self.peek_is(token) {
            assert(errors@.errors =~= old(errors)@.errors + Seq::<Diag>::empty());
            self.next()
        } else {
            let pos = self.peek_pos();
            record_expected(errors, pos, token);
            assert(errors@.errors =~= old(errors)@.errors + expect_of(
                old(self)@.tokens,
                old(self)@.index,
                token,
            ).errors);
            None
        }
    }

    /// Reads an identifier: hands back its name and its offset, or records
    /// that none is there.
    pub fn identifier(&mut self, errors: &mut ErrorRecorder) -> (r: Option<(String, usize)>)
        ensures
            final(self)@.tokens == old(self)@.tokens,
            0 <= old(self)@.index <= final(self)@.index <= old(self)@.tokens.len(),
            final(self)@.index == expect_of(
                old(self)@.tokens,
                old(self)@.index,
                TokenEnum::Identifier,
            ).index,
            final(errors)@.errors == old(errors)@.errors + expect_of(
                old(self)@.tokens,
                old(self)@.index,
                TokenEnum::Identifier,
            ).errors,
            final(errors)@.warnings == old(errors)@.warnings,
            match r {
                Some((name, offset)) => {
                    &&& peek_kind(old(self)@.tokens, old(self)@.index) == Some(
                        TokenEnum::Identifier,
                    )
                    &&& name@ == old(self)@.tokens[old(self)@.index].content
                    &&& offset == old(self)@.tokens[old(self)@.index].offset
                },
                None => peek_kind(old(self)@.tokens, old(self)@.index) != Some(
                    TokenEnum::Identifier,
                ),
            },
    {
        match self.expect(TokenEnum::Identifier, errors) {
            Some(token) => Some((token.content.clone(), token.offset)),
            None => None,
        }
    }

    /// Reads one identifier of a list and declares it.
    fn list_entry(
        &mut self,
        vars: &mut VarTable,
        identifiers: &mut Vec<(String, usize)>,
        errors: &mut ErrorRecorder,
        Ghost(acc): Ghost<Names>,
        Ghost(base): Ghost<Seq<Diag>>,
    )
        requires
            acc.index == old(self)@.index,
            acc.decls == old(vars)@,
            acc.names == name_views(old(identifiers)@),
            old(errors)@.errors == base + acc.errors,
        ensures
            final(self)@.tokens == old(self)@.tokens,
            0 <= old(self)@.index <= final(self)@.index <= old(self)@.tokens.len(),
            final(self)@.index == with_identifier(old(self)@.tokens, acc).index,
            final(vars)@ == with_identifier(old(self)@.tokens, acc).decls,
            name_views(final(identifiers)@) == with_identifier(old(self)@.tokens, acc).names,
            final(errors)@.errors == base + with_identifier(old(self)@.tokens, acc).errors,
            final(errors)@.warnings == old(errors)@.warnings,
    {
        let ghost ts = self@.tokens;
        match self.identifier(errors) {
            Some(found) => {
                assert(errors@.errors =~= base + acc.errors);
                if !vars.declare(found.0.clone(), None) {
                    errors.error(found.1, "duplicate identifier");
                    assert(errors@.errors =~= base + with_identifier(ts, acc).errors);
                }
                identifiers.push(found);
                assert(name_views(identifiers@) =~= with_identifier(ts, acc).names);
            },
            None => {
                assert(errors@.errors =~= base + with_identifier(ts, acc).errors);
            },
        }
    }

    /// Reads an identifier list, `i0, i1, i2`, and declares its identifiers
    /// in `vars`, as yet without a type: an identifier, and for as long as
    /// a comma follows, the comma and one more identifier.
    ///
    /// An identifier that is declared already is recorded as a duplicate at
    /// its offset and keeps what was declared of it. An identifier that is
    /// missing is recorded, and the list goes on. Hands back the
    /// identifiers that were read, each with its offset.
    pub fn identifier_list(&mut self, vars: &mut VarTable, errors: &mut ErrorRecorder) -> (r: Vec<
        (String, usize),
    >)
        ensures
            final(self)@.tokens == old(self)@.tokens,
            0 <= old(self)@.index <= final(self)@.index <= old(self)@.tokens.len(),
            final(self)@.index == identifier_list_of(
                old(self)@.tokens,
                old(self)@.index,
                old(vars)@,
            ).index,
            final(vars)@ == identifier_list_of(
                old(self)@.tokens,
                old(self)@.index,
                old(vars)@,
            ).decls,
            name_views(r@) == identifier_list_of(
                old(self)@.tokens,
                old(self)@.index,
                old(vars)@,
            ).names,
            final(errors)@.errors == old(errors)@.errors + identifier_list_of(
                old(self)@.tokens,
                old(self)@.index,
                old(vars)@,
            ).errors,
            final(errors)@.warnings == old(errors)@.warnings,
            old(vars).well_formed() ==> final(vars).well_formed(),
    {
        let ghost ts = self@.tokens;
        let ghost start = self@.index;
        let ghost base = errors@.errors;
        proof {
            lemma_untyped_tail(ts, start, vars@);
        }
        let ghost first = Names {
            index: start,
            decls: vars@,
            names: Seq::empty(),
            errors: Seq::empty(),
        };
        let mut identifiers: Vec<(String, usize)> = Vec::new();
        assert(name_views(identifiers@) =~= first.names);
        assert(errors@.errors =~= base + first.errors);
        self.list_entry(vars, &mut identifiers, errors, Ghost(first), Ghost(base));
        let ghost mut acc = with_identifier(ts, first);
        while self.peek_is(TokenEnum::Comma)
            invariant
                self@.tokens == ts,
                0 <= start <= self@.index <= ts.len(),
                acc.index == self@.index,
                acc.decls == vars@,
                acc.names == name_views(identifiers@),
                list_tail(ts, acc) == identifier_list_of(ts, start, old(vars)@),
                errors@.errors == base + acc.errors,
                errors@.warnings == old(errors)@.warnings,
            decreases ts.len() - self@.index,
        {
            self.next();
            self.list_entry(vars, &mut identifiers, errors, Ghost(past_one(acc)), Ghost(base));
            proof {
                acc = with_identifier(ts, past_one(acc));
            }
        }
        identifiers
    }

    /// Checks one declaration line, `i0, i1, i2: type;`, and declares its
    /// identifiers in `vars`.
    ///
    /// A missing identifier, colon, type or semicolon is recorded and the
    /// line goes on with the token at hand. The identifiers that the line
    /// declares have the type of the line, where it names one, whatever
    /// else is wrong with the line; one that was declared before is
    /// recorded as a duplicate at its offset and keeps its first type.
    pub fn def_line(&mut self, vars: &mut VarTable, errors: &mut ErrorRecorder)
        ensures
            final(self)@.tokens == old(self)@.tokens,
            0 <= old(self)@.index <= final(self)@.index <= old(self)@.tokens.len(),
            final(self)@.index == def_line_of(
                old(self)@.tokens,
                old(self)@.index,
                old(vars)@,
            ).index,
            final(vars)@ == def_line_of(old(self)@.tokens, old(self)@.index, old(vars)@).decls,
            final(errors)@.errors == old(errors)@.errors + def_line_of(
                old(self)@.tokens,
                old(self)@.index,
                old(vars)@,
            ).errors,
            final(errors)@.warnings == old(errors)@.warnings,
            old(vars).well_formed() ==> final(vars).well_formed(),
    {
        let ghost ts = self@.tokens;
        let ghost start = self@.index;
        let ghost list = identifier_list_of(ts, start, vars@);
        let ghost colon = expect_of(ts, list.index, TokenEnum::Colon);
        let ghost ty_step = type_of_line(ts, colon.index);
        let first = vars.len();
        self.identifier_list(vars, errors);
        self.expect(TokenEnum::Colon, errors);
        let pos = self.peek_pos();
        let ty: Option<TypeEnum> = match self.peek() {
            Some(token) => match TypeEnum::try_from(*token) {
                Ok(t) => Some(t),
                Err(_) => None,
            },
            None => None,
        };
        match ty {
            Some(t) => {
                self.next();
                vars.assign_from(first, t);
                assert(errors@.errors =~= old(errors)@.errors + list.errors + colon.errors
                    + ty_step.errors);
            },
            None => {
                errors.error(pos, "expected type");
                assert(errors@.errors =~= old(errors)@.errors + list.errors + colon.errors
                    + ty_step.errors);
                proof {
                    lemma_untyped_tail(ts, start, old(vars)@);
                    assert(vars@ =~= typed_from(list.decls, old(vars)@.len() as int, None));
                }
            },
        }
        self.expect(TokenEnum::SemiColon, errors);
        proof {
            let semicolon = expect_of(ts, ty_step.index, TokenEnum::SemiColon);
            assert(errors@.errors =~= old(errors)@.errors + (list.errors + colon.errors
                + ty_step.errors + semicolon.errors));
        }
    }

    /// Checks the declarations, `var i0, i1: type; ...`, and hands back
    /// what they declare.
    ///
    /// `var` is consumed where it is there. Where it is not, that is
    /// recorded, unless the body starts right away with `begin`. Then
    /// declaration lines are checked for as long as the next token is an
    /// identifier.
    pub fn var_block(&mut self, errors: &mut ErrorRecorder) -> (vars: VarTable)
        ensures
            final(self)@.tokens == old(self)@.tokens,
            0 <= old(self)@.index <= final(self)@.index <= old(self)@.tokens.len(),
            final(self)@.index == var_block_of(old(self)@.tokens, old(self)@.index).index,
            vars@ == var_block_of(old(self)@.tokens, old(self)@.index).decls,
            vars.well_formed(),
            final(errors)@.errors == old(errors)@.errors + var_block_of(
                old(self)@.tokens,
                old(self)@.index,
            ).errors,
            final(errors)@.warnings == old(errors)@.warnings,
    {
        let ghost ts = self@.tokens;
        let ghost start = self@.index;
        let mut vars = VarTable::new();
        if self.peek_is(TokenEnum::Var) {
            self.next();
            assert(errors@.errors =~= old(errors)@.errors + Seq::<Diag>::empty());
        } else if self.peek_is(TokenEnum::Begin) {
            assert(errors@.errors =~= old(errors)@.errors + Seq::<Diag>::empty());
        } else {
            let pos = self.peek_pos();
            record_expected(errors, pos, TokenEnum::Var);
            assert(errors@.errors =~= old(errors)@.errors + seq![
                Diag { offset: pos as int, msg: expected(TokenEnum::Var) },
            ]);
        }
        let ghost mut acc = Checked {
            index: self@.index,
            decls: vars@,
            errors: if peek_kind(ts, start) == Some(TokenEnum::Var) || peek_kind(ts, start) == Some(
                TokenEnum::Begin,
            ) {
                Seq::empty()
            } else {
                seq![Diag { offset: peek_offset(ts, start), msg: expected(TokenEnum::Var) }]
            },
        };
        while self.peek_is(TokenEnum::Identifier)
            invariant
                self@.tokens == ts,
                0 <= start <= self@.index <= ts.len(),
                acc.index == self@.index,
                acc.decls == vars@,
                vars.well_formed(),
                lines_from(ts, acc) == var_block_of(ts, start),
                errors@.errors == old(errors)@.errors + acc.errors,
                errors@.warnings == old(errors)@.warnings,
            decreases ts.len() - self@.index,
        {
            let ghost line = def_line_of(ts, acc.index, acc.decls);
            proof {
                lemma_def_line_advances(ts, acc.index, acc.decls);
            }
            self.def_line(&mut vars, errors);
            proof {
                assert(errors@.errors =~= old(errors)@.errors + (acc.errors + line.errors));
                acc = Checked {
                    index: line.index,
                    decls: line.decls,
                    errors: acc.errors + line.errors,
                };
            }
        }
        vars
    }

    /// Checks the body, `begin ... end`, against the declarations `vars`.
    ///
    /// The absence of `begin` is recorded. Then every token up to the last
    /// is consumed: `begin` opens a block, `end` closes one or is recorded
    /// where none is open, and an identifier that is not declared is
    /// recorded by name. A block that is still open behind the last token
    /// is recorded there.
    pub fn program_block(&mut self, vars: &VarTable, errors: &mut ErrorRecorder)
        ensures
            final(self)@.tokens == old(self)@.tokens,
            0 <= old(self)@.index <= final(self)@.index,
            final(self)@.index == old(self)@.tokens.len(),
            final(errors)@.errors == old(errors)@.errors + program_block_of(
                old(self)@.tokens,
                old(self)@.index,
                vars@,
            ),
            final(errors)@.warnings == old(errors)@.warnings,
    {
        let ghost ts = self@.tokens;
        let ghost start = self@.index;
        let ghost decls = vars@;
        proof {
            use_type_invariant(&*self);
        }
        if !self.peek_is(TokenEnum::Begin) {
            let pos = self.peek_pos();
            record_expected(errors, pos, TokenEnum::Begin);
        }
        let ghost head = if peek_kind(ts, start) == Some(TokenEnum::Begin) {
            Seq::<Diag>::empty()
        } else {
            seq![Diag { offset: peek_offset(ts, start), msg: expected(TokenEnum::Begin) }]
        };
        assert(errors@.errors =~= old(errors)@.errors + head);
        let ghost mut acc = Body { index: start, depth: 0, errors: head };
        let mut depth: usize = 0;
        while self.index < self.tokens.len()
            invariant
                self@.tokens == ts,
                decls == vars@,
                0 <= start <= self.index <= self.tokens@.len(),
                ts.len() == self.tokens@.len(),
                acc.index == self.index,
                acc.depth == depth,
                depth <= self.index,
                body_from(ts, decls, acc) == body_from(
                    ts,
                    decls,
                    Body { index: start, depth: 0, errors: head },
                ),
                errors@.errors == old(errors)@.errors + acc.errors,
                errors@.warnings == old(errors)@.warnings,
            decreases self.tokens.len() - self.index,
        {
            let token = &self.tokens[self.index];
            let ghost t = ts[self.index as int];
            assert(t == token@);
            match token.token {
                TokenEnum::Begin => {
                    depth += 1;
                    assert(errors@.errors =~= old(errors)@.errors + (acc.errors
                        + Seq::<Diag>::empty()));
                },
                TokenEnum::End => {
                    if depth == 0 {
                        errors.error(token.offset, "unexpected end");
                        assert(errors@.errors =~= old(errors)@.errors + (acc.errors + body_errors(
                            t,
                            decls,
                            acc.depth,
                        )));
                    } else {
                        depth -= 1;
                        assert(errors@.errors =~= old(errors)@.errors + (acc.errors
                            + Seq::<Diag>::empty()));
                    }
                },
                TokenEnum::Identifier => {
                    if vars.position(&token.content).is_none() {
                        let mut msg = String::from_str("undeclared identifier: ");
                        msg.append(token.content.as_str());
                        errors.error(token.offset, msg.as_str());
                        assert(errors@.errors =~= old(errors)@.errors + (acc.errors + body_errors(
                            t,
                            decls,
                            acc.depth,
                        )));
                    } else {
                        assert(errors@.errors =~= old(errors)@.errors + (acc.errors
                            + Seq::<Diag>::empty()));
                    }
                },
                _ => {
                    assert(errors@.errors =~= old(errors)@.errors + (acc.errors
                        + Seq::<Diag>::empty()));
                },
            }
            proof {
                acc = Body {
                    index: acc.index + 1,
                    depth: depth_after(t, acc.depth),
                    errors: acc.errors + body_errors(t, decls, acc.depth),
                };
            }
            self.index += 1;
        }
        if depth > 0 {
            errors.error(usize::MAX, "missing end");
            assert(errors@.errors =~= old(errors)@.errors + acc.errors.push(
                Diag { offset: usize::MAX as int, msg: "missing end"@ },
            ));
        }
    }

    /// Checks a whole program: the declarations, then the body against what
    /// was declared. Every token is consumed.
    pub fn code(&mut self, errors: &mut ErrorRecorder)
        ensures
            final(self)@.tokens == old(self)@.tokens,
            final(self)@.index == old(self)@.tokens.len(),
            final(errors)@.errors == old(errors)@.errors + code_of(
                old(self)@.tokens,
                old(self)@.index,
            ),
            final(errors)@.warnings == old(errors)@.warnings,
    {
        let ghost ts = self@.tokens;
        let ghost start = self@.index;
        let vars = self.var_block(errors);
        self.program_block(&vars, errors);
        proof {
            let v = var_block_of(ts, start);
            assert(errors@.errors =~= old(errors)@.errors + (v.errors + program_block_of(
                ts,
                v.index,
                v.decls,
            )));
        }
    }

    /// The tokens that were consumed, in the order of their consumption.
    pub fn into_consumed(self) -> (r: Vec<Token>)
        ensures
            token_views(r@) == self@.tokens.take(self@.index),
    {
        proof {
            use_type_invariant(&self);
        }
        let mut tokens = self.tokens;
        tokens.truncate(self.index);
        assert(token_views(tokens@) =~= token_views(self.tokens@).take(self.index as int));
        tokens
    }
}

/// Lexes and checks the program `content`: hands back every token of the
/// program, in source order, and records the lexical and the structural
/// diagnostics. The lexical ones come first.
pub fn parse(content: &str, errors: &mut ErrorRecorder) -> (tokens: Vec<Token>)
    ensures
        token_views(tokens@) == lex_from(content@, 0).tokens,
        final(errors)@.errors == old(errors)@.errors + lex_from(content@, 0).errors + code_of(
            lex_from(content@, 0).tokens,
            0,
        ),
        final(errors)@.warnings == old(errors)@.warnings + lex_from(content@, 0).warnings,
{
    let tokens = lex(content, errors);
    let mut stream = TokenStream::new(tokens);
    stream.code(errors);
    let ghost ts = stream@.tokens;
    assert(ts.take(ts.len() as int) =~= ts);
    stream.into_consumed()
}

/// Lexes and checks the program `content` and hands back its tokens where
/// no error stands in the recorder afterwards, whatever it holds of
/// warnings. With any error there is no token output.
pub fn checked_tokens(content: &str, errors: &mut ErrorRecorder) -> (r: Option<Vec<Token>>)
    ensures
        final(errors)@.errors == old(errors)@.errors + lex_from(content@, 0).errors + code_of(
            lex_from(content@, 0).tokens,
            0,
        ),
        final(errors)@.warnings == old(errors)@.warnings + lex_from(content@, 0).warnings,
        r is Some <==> final(errors)@.errors.len() == 0,
        r matches Some(tokens) ==> token_views(tokens@) == lex_from(content@, 0).tokens,
{
    let tokens = parse(content, errors);
    if errors.no_error() {
        Some(tokens)
    } else {
        None
    }
}

} // verus!
