//! What the checker's rules amount to: a declaration is never lost or
//! changed by a later one, and every use of an undeclared identifier in the
//! body is recorded exactly once.

use crate::error::Diag;
use crate::lex::{TokenEnum, TokenView};
use crate::pre_grammar::{
    body_errors, body_from, declared, def_line_of, depth_after, distinct, expected,
    identifier_list_of, lemma_def_line_advances, lemma_list_extends,
    lemma_with_identifier_extends, lines_from, peek_kind, peek_offset, program_block_of, type_of,
    undeclared, var_block_of, with_identifier, Body, Checked, Decl, Names,
};
use vstd::prelude::*;

verus! {

/// Whether `front` is the beginning of `whole`.
pub open spec fn starts_with(whole: Seq<Decl>, front: Seq<Decl>) -> bool {
    &&& front.len() <= whole.len()
    &&& forall|k: int| 0 <= k < front.len() ==> whole[k] == front[k]
}

/// An identifier that is declared already is recorded as a duplicate
/// exactly once, at its own offset, and changes no declaration; one that
/// is new is declared and records nothing.
pub proof fn lemma_duplicate_recorded_once(ts: Seq<TokenView>, acc: Names)
    requires
        peek_kind(ts, acc.index) == Some(TokenEnum::Identifier),
    ensures
        declared(acc.decls, ts[acc.index].content) ==> ({
            &&& with_identifier(ts, acc).decls == acc.decls
            &&& with_identifier(ts, acc).errors == acc.errors.push(
                Diag { offset: ts[acc.index].offset, msg: "duplicate identifier"@ },
            )
        }),
        !declared(acc.decls, ts[acc.index].content) ==> ({
            &&& with_identifier(ts, acc).decls == acc.decls.push(
                Decl { name: ts[acc.index].content, ty: None },
            )
            &&& with_identifier(ts, acc).errors == acc.errors
        }),
{
}

/// A name that is declared in the beginning of a table has, in the whole
/// table, the type that it has there.
pub proof fn lemma_type_of_kept(whole: Seq<Decl>, front: Seq<Decl>, name: Seq<char>)
    requires
        starts_with(whole, front),
        declared(front, name),
    ensures
        declared(whole, name),
        type_of(whole, name) == type_of(front, name),
    decreases whole.len() - front.len(),
{
    let k = choose|k: int| 0 <= k < front.len() && #[trigger] front[k].name == name;
    assert(whole[k].name == name);
    if whole.len() > front.len() {
        let shorter = whole.drop_last();
        assert forall|j: int| 0 <= j < front.len() implies shorter[j] == front[j] by {
            assert(shorter[j] == whole[j]);
        }
        lemma_type_of_kept(shorter, front, name);
    } else {
        assert(whole =~= front);
    }
}

/// A declaration line leaves every earlier declaration as it was, name and
/// type, and declares no name twice.
pub proof fn lemma_def_line_keeps(ts: Seq<TokenView>, i: int, decls: Seq<Decl>)
    ensures
        starts_with(def_line_of(ts, i, decls).decls, decls),
        distinct(decls) ==> distinct(def_line_of(ts, i, decls).decls),
{
    let first = Names { index: i, decls, names: Seq::empty(), errors: Seq::empty() };
    lemma_with_identifier_extends(ts, first, decls);
    lemma_list_extends(ts, with_identifier(ts, first), decls);
    let list = identifier_list_of(ts, i, decls);
    let out = def_line_of(ts, i, decls).decls;
    assert forall|j: int, k: int| 0 <= j < k < out.len() && distinct(decls) implies out[j].name
        != out[k].name by {
        assert(out[j].name == list.decls[j].name);
        assert(out[k].name == list.decls[k].name);
    }
}

/// Declaration lines leave every earlier declaration as it was, name and
/// type, and declare no name twice.
pub proof fn lemma_lines_keep(ts: Seq<TokenView>, acc: Checked)
    ensures
        starts_with(lines_from(ts, acc).decls, acc.decls),
        distinct(acc.decls) ==> distinct(lines_from(ts, acc).decls),
    decreases ts.len() - acc.index,
{
    if 0 <= acc.index <= ts.len() && peek_kind(ts, acc.index) == Some(TokenEnum::Identifier) {
        let line = def_line_of(ts, acc.index, acc.decls);
        lemma_def_line_advances(ts, acc.index, acc.decls);
        lemma_def_line_keeps(ts, acc.index, acc.decls);
        lemma_lines_keep(
            ts,
            Checked { index: line.index, decls: line.decls, errors: acc.errors + line.errors },
        );
    }
}

/// An identifier keeps the type of its first declaration: whatever lines
/// follow, a declared name has the type that it had.
pub proof fn lemma_first_type_stays(ts: Seq<TokenView>, acc: Checked, name: Seq<char>)
    requires
        declared(acc.decls, name),
    ensures
        type_of(lines_from(ts, acc).decls, name) == type_of(acc.decls, name),
{
    lemma_lines_keep(ts, acc);
    lemma_type_of_kept(lines_from(ts, acc).decls, acc.decls, name);
}

/// The declarations of a program never hold a name twice.
pub proof fn lemma_var_block_distinct(ts: Seq<TokenView>, i: int)
    ensures
        distinct(var_block_of(ts, i).decls),
{
    let none = Seq::<Decl>::empty();
    let e0 = Seq::<Diag>::empty();
    lemma_lines_keep(ts, Checked { index: i + 1, decls: none, errors: e0 });
    lemma_lines_keep(ts, Checked { index: i, decls: none, errors: e0 });
    lemma_lines_keep(
        ts,
        Checked {
            index: i,
            decls: none,
            errors: seq![
                Diag {
                    offset: peek_offset(ts, i),
                    msg: expected(TokenEnum::Var),
                },
            ],
        },
    );
}

/// Whether a diagnostic reports the use of an undeclared identifier.
pub open spec fn reports_undeclared(d: Diag) -> bool {
    exists|name: Seq<char>| d.msg == #[trigger] undeclared(name)
}

/// The number of diagnostics that report the use of an undeclared identifier.
pub open spec fn count_undeclared(errors: Seq<Diag>) -> nat
    decreases errors.len(),
{
    if errors.len() == 0 {
        0
    } else {
        count_undeclared(errors.drop_last()) + if reports_undeclared(errors.last()) {
            1nat
        } else {
            0nat
        }
    }
}

/// The number of identifier tokens from index `from` on whose name is not
/// declared.
pub open spec fn undeclared_uses(ts: Seq<TokenView>, from: int, decls: Seq<Decl>) -> nat
    decreases ts.len() - from,
{
    if 0 <= from < ts.len() {
        undeclared_uses(ts, from + 1, decls) + if ts[from].token == TokenEnum::Identifier
            && !declared(decls, ts[from].content) {
            1nat
        } else {
            0nat
        }
    } else {
        0
    }
}

/// One more diagnostic counts where it reports an undeclared identifier.
proof fn lemma_count_push(errors: Seq<Diag>, d: Diag)
    ensures
        count_undeclared(errors.push(d)) == count_undeclared(errors) + if reports_undeclared(d) {
            1nat
        } else {
            0nat
        },
{
    assert(errors.push(d).drop_last() =~= errors);
}

/// The other messages of the body do not report an undeclared identifier.
proof fn lemma_other_messages()
    ensures
        !reports_undeclared(Diag { offset: 0, msg: "unexpected end"@ }),
        !reports_undeclared(Diag { offset: 0, msg: "missing end"@ }),
        !reports_undeclared(Diag { offset: 0, msg: expected(TokenEnum::Begin) }),
{
    reveal_strlit("undeclared identifier: ");
    reveal_strlit("unexpected end");
    reveal_strlit("missing end");
    reveal_strlit("expected ");
    reveal_strlit("begin");
    assert("undeclared identifier: "@.len() == 23);
    assert("unexpected end"@.len() == 14);
    assert("missing end"@.len() == 11);
    assert forall|name: Seq<char>| #[trigger] undeclared(name).len() >= 23 by {}
    assert(expected(TokenEnum::Begin).len() == 14);
}

/// What one token of the body records is the use of an undeclared
/// identifier exactly where the token is an identifier that is not
/// declared, and then it is one diagnostic, at the token's offset.
pub proof fn lemma_undeclared_recorded_once(t: TokenView, decls: Seq<Decl>, depth: int)
    ensures
        t.token == TokenEnum::Identifier && !declared(decls, t.content) ==> body_errors(
            t,
            decls,
            depth,
        ) == (seq![Diag { offset: t.offset, msg: undeclared(t.content) }]),
        count_undeclared(body_errors(t, decls, depth)) == if t.token == TokenEnum::Identifier
            && !declared(decls, t.content) {
            1nat
        } else {
            0nat
        },
{
    lemma_other_messages();
    let e = body_errors(t, decls, depth);
    if e.len() > 0 {
        assert(e.drop_last() =~= Seq::<Diag>::empty());
        assert(count_undeclared(Seq::<Diag>::empty()) == 0);
        if t.token == TokenEnum::Identifier {
            assert(e.last().msg == undeclared(t.content));
        } else {
            assert(e.last().msg == "unexpected end"@);
            assert(reports_undeclared(e.last()) == reports_undeclared(
                Diag { offset: 0, msg: "unexpected end"@ },
            ));
        }
    }
}

/// Checking the rest of the body adds one report of an undeclared
/// identifier for each use of one.
pub proof fn lemma_body_counts(ts: Seq<TokenView>, decls: Seq<Decl>, acc: Body)
    requires
        0 <= acc.index,
    ensures
        count_undeclared(body_from(ts, decls, acc).errors) == count_undeclared(acc.errors)
            + undeclared_uses(ts, acc.index, decls),
    decreases ts.len() - acc.index,
{
    if acc.index < ts.len() {
        let t = ts[acc.index];
        let e = body_errors(t, decls, acc.depth);
        lemma_undeclared_recorded_once(t, decls, acc.depth);
        if e.len() > 0 {
            assert(e =~= seq![e[0]]);
            assert(acc.errors + e =~= acc.errors.push(e[0]));
            lemma_count_push(acc.errors, e[0]);
            assert(e.drop_last() =~= Seq::<Diag>::empty());
            assert(count_undeclared(Seq::<Diag>::empty()) == 0);
        } else {
            assert(acc.errors + e =~= acc.errors);
        }
        lemma_body_counts(
            ts,
            decls,
            Body {
                index: acc.index + 1,
                depth: depth_after(t, acc.depth),
                errors: acc.errors + e,
            },
        );
    }
}

/// The body records exactly one undeclared identifier for each use of an
/// identifier that is not declared.
pub proof fn lemma_undeclared_counted(ts: Seq<TokenView>, i: int, decls: Seq<Decl>)
    requires
        0 <= i,
    ensures
        count_undeclared(program_block_of(ts, i, decls)) == undeclared_uses(ts, i, decls),
{
    lemma_other_messages();
    let head = if peek_kind(ts, i) == Some(TokenEnum::Begin) {
        Seq::<Diag>::empty()
    } else {
        seq![
            Diag { offset: peek_offset(ts, i), msg: expected(TokenEnum::Begin) },
        ]
    };
    let start = Body { index: i, depth: 0, errors: head };
    lemma_body_counts(ts, decls, start);
    assert(count_undeclared(Seq::<Diag>::empty()) == 0);
    if head.len() > 0 {
        assert(head.drop_last() =~= Seq::<Diag>::empty());
        assert(reports_undeclared(head.last()) == reports_undeclared(
            Diag { offset: 0, msg: expected(TokenEnum::Begin) },
        ));
    }
    let body = body_from(ts, decls, start);
    if body.depth > 0 {
        let last = Diag { offset: usize::MAX as int, msg: "missing end"@ };
        lemma_count_push(body.errors, last);
        assert(reports_undeclared(last) == reports_undeclared(
            Diag { offset: 0, msg: "missing end"@ },
        ));
    }
}


/// The number of `begin` less the number of `end` among the tokens from
/// index `from` up to index `to`.
pub open spec fn net_open(ts: Seq<TokenView>, from: int, to: int) -> int
    decreases to - from,
{
    if to <= from {
        0
    } else {
        net_open(ts, from, to - 1) + match ts[to - 1].token {
            TokenEnum::Begin => 1int,
            TokenEnum::End => -1int,
            _ => 0int,
        }
    }
}

/// Whether no `end` from index `from` on closes more than was opened.
pub open spec fn never_overclosed(ts: Seq<TokenView>, from: int) -> bool {
    forall|j: int| from <= j <= ts.len() ==> #[trigger] net_open(ts, from, j) >= 0
}

/// Whether every identifier from index `from` on is declared.
pub open spec fn all_declared(ts: Seq<TokenView>, from: int, decls: Seq<Decl>) -> bool {
    forall|k: int|
        from <= k < ts.len() && (#[trigger] ts[k]).token == TokenEnum::Identifier ==> declared(
            decls,
            ts[k].content,
        )
}

/// Where no `end` closes more than was opened, the blocks that are open at
/// the end are those that were opened and not closed, and a body that uses
/// declared identifiers only records nothing on the way.
proof fn lemma_body_balanced(ts: Seq<TokenView>, decls: Seq<Decl>, from: int, acc: Body)
    requires
        0 <= from <= acc.index <= ts.len(),
        acc.depth == net_open(ts, from, acc.index),
        never_overclosed(ts, from),
    ensures
        body_from(ts, decls, acc).depth == net_open(ts, from, ts.len() as int),
        all_declared(ts, acc.index, decls) ==> body_from(ts, decls, acc).errors == acc.errors,
    decreases ts.len() - acc.index,
{
    if acc.index < ts.len() {
        let t = ts[acc.index];
        assert(net_open(ts, from, acc.index + 1) >= 0);
        assert(net_open(ts, from, ts.len() as int) >= 0);
        let next = Body {
            index: acc.index + 1,
            depth: depth_after(t, acc.depth),
            errors: acc.errors + body_errors(t, decls, acc.depth),
        };
        lemma_body_balanced(ts, decls, from, next);
        if all_declared(ts, acc.index, decls) {
            assert(all_declared(ts, acc.index + 1, decls));
            assert(body_errors(t, decls, acc.depth) =~= Seq::<Diag>::empty());
            assert(acc.errors + body_errors(t, decls, acc.depth) =~= acc.errors);
        }
    }
}

/// A body that starts with `begin`, closes every block that it opens and
/// no other, and uses declared identifiers only, records nothing.
pub proof fn lemma_balanced_body_is_quiet(ts: Seq<TokenView>, i: int, decls: Seq<Decl>)
    requires
        0 <= i <= ts.len(),
        peek_kind(ts, i) == Some(TokenEnum::Begin),
        never_overclosed(ts, i),
        net_open(ts, i, ts.len() as int) == 0,
        all_declared(ts, i, decls),
    ensures
        program_block_of(ts, i, decls) == Seq::<Diag>::empty(),
{
    lemma_body_balanced(ts, decls, i, Body { index: i, depth: 0, errors: Seq::empty() });
}

/// Where no `end` closes more than was opened, a body that opens more
/// blocks than it closes records a missing `end`, behind everything else.
pub proof fn lemma_open_block_is_missing_end(ts: Seq<TokenView>, i: int, decls: Seq<Decl>)
    requires
        0 <= i <= ts.len(),
        never_overclosed(ts, i),
    ensures
        net_open(ts, i, ts.len() as int) > 0 ==> program_block_of(ts, i, decls).len() > 0
            && program_block_of(ts, i, decls).last() == (Diag {
            offset: usize::MAX as int,
            msg: "missing end"@,
        }),
{
    let head = if peek_kind(ts, i) == Some(TokenEnum::Begin) {
        Seq::<Diag>::empty()
    } else {
        seq![
            Diag { offset: peek_offset(ts, i), msg: expected(TokenEnum::Begin) },
        ]
    };
    lemma_body_balanced(ts, decls, i, Body { index: i, depth: 0, errors: head });
}


/// What the body has recorded stays, in its place, whatever follows.
pub proof fn lemma_body_errors_grow(ts: Seq<TokenView>, decls: Seq<Decl>, acc: Body)
    ensures
        acc.errors.is_prefix_of(body_from(ts, decls, acc).errors),
    decreases ts.len() - acc.index,
{
    if 0 <= acc.index < ts.len() {
        let t = ts[acc.index];
        let next = Body {
            index: acc.index + 1,
            depth: depth_after(t, acc.depth),
            errors: acc.errors + body_errors(t, decls, acc.depth),
        };
        lemma_body_errors_grow(ts, decls, next);
    }
}

/// The first `end` that closes more than was opened is recorded as
/// unexpected, from whatever state on the way the body is checked.
proof fn lemma_body_unexpected_end(
    ts: Seq<TokenView>,
    decls: Seq<Decl>,
    from: int,
    acc: Body,
    j: int,
)
    requires
        0 <= from <= acc.index <= j < ts.len(),
        acc.depth == net_open(ts, from, acc.index),
        forall|k: int| from <= k <= j ==> #[trigger] net_open(ts, from, k) >= 0,
        net_open(ts, from, j) == 0,
        ts[j].token == TokenEnum::End,
    ensures
        body_from(ts, decls, acc).errors.contains(
            Diag { offset: ts[j].offset, msg: "unexpected end"@ },
        ),
    decreases j - acc.index,
{
    let t = ts[acc.index];
    let next = Body {
        index: acc.index + 1,
        depth: depth_after(t, acc.depth),
        errors: acc.errors + body_errors(t, decls, acc.depth),
    };
    let d = Diag { offset: ts[j].offset, msg: "unexpected end"@ };
    if acc.index == j {
        lemma_body_errors_grow(ts, decls, next);
        let k = acc.errors.len() as int;
        assert(next.errors[k] == d);
        assert(body_from(ts, decls, next).errors[k] == d);
    } else {
        assert(net_open(ts, from, acc.index + 1) >= 0);
        lemma_body_unexpected_end(ts, decls, from, next, j);
    }
}

/// An `end` that finds no block open is recorded as unexpected, at its
/// offset: the first `end` that closes more than was opened.
pub proof fn lemma_overclosing_end_is_unexpected(
    ts: Seq<TokenView>,
    i: int,
    decls: Seq<Decl>,
    j: int,
)
    requires
        0 <= i <= j < ts.len(),
        ts[j].token == TokenEnum::End,
        net_open(ts, i, j) == 0,
        forall|k: int| i <= k <= j ==> #[trigger] net_open(ts, i, k) >= 0,
    ensures
        program_block_of(ts, i, decls).contains(
            Diag { offset: ts[j].offset, msg: "unexpected end"@ },
        ),
{
    let head = if peek_kind(ts, i) == Some(TokenEnum::Begin) {
        Seq::<Diag>::empty()
    } else {
        seq![
            Diag { offset: peek_offset(ts, i), msg: expected(TokenEnum::Begin) },
        ]
    };
    let start = Body { index: i, depth: 0, errors: head };
    lemma_body_unexpected_end(ts, decls, i, start, j);
    let body = body_from(ts, decls, start);
    let d = Diag { offset: ts[j].offset, msg: "unexpected end"@ };
    let k = choose|k: int| 0 <= k < body.errors.len() && body.errors[k] == d;
    if body.depth > 0 {
        let all = body.errors.push(Diag { offset: usize::MAX as int, msg: "missing end"@ });
        assert(all[k] == d);
    }
}

} // verus!
