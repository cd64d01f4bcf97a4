use vstd::prelude::*;

use crate::event::{
    lemma_log_view_push, log_view, EventView,
    lemma_well_nested_concat, lemma_well_nested_empty, lemma_well_nested_single,
    lemma_well_nested_wrap, single_node, well_nested, StepEvent,
};
use crate::parser::{kind_at, Parser};
use crate::syntax::SyntaxKind;

verus! {

/// `after` keeps `before` as it is and appends a well-nested run of events.
pub open spec fn extends_nested(before: Seq<StepEvent>, after: Seq<StepEvent>) -> bool {
    &&& before.len() <= after.len()
    &&& after.subrange(0, before.len() as int) == before
    &&& well_nested(after.subrange(before.len() as int, after.len() as int))
}

proof fn lemma_extend_refl(a: Seq<StepEvent>)
    ensures
        extends_nested(a, a),
{
    assert(a.subrange(0, a.len() as int) =~= a);
    assert(a.subrange(a.len() as int, a.len() as int) =~= Seq::<StepEvent>::empty());
    lemma_well_nested_empty();
}

proof fn lemma_extend_trans(a: Seq<StepEvent>, b: Seq<StepEvent>, c: Seq<StepEvent>)
    requires
        extends_nested(a, b),
        extends_nested(b, c),
    ensures
        extends_nested(a, c),
{
    let x = b.subrange(a.len() as int, b.len() as int);
    let y = c.subrange(b.len() as int, c.len() as int);
    lemma_well_nested_concat(x, y);
    assert(c.subrange(0, a.len() as int) =~= b.subrange(0, a.len() as int));
    assert(c.subrange(a.len() as int, c.len() as int) =~= x + y);
}

/// Appending a token or a diagnostic keeps a log well nested.
proof fn lemma_extend_push(a: Seq<StepEvent>, b: Seq<StepEvent>, x: StepEvent)
    requires
        extends_nested(a, b),
        x is Token || x is Error,
    ensures
        extends_nested(a, b.push(x)),
{
    lemma_well_nested_single(x);
    assert(b.push(x).subrange(b.len() as int, b.len() + 1 as int) =~= seq![x]);
    assert(b.push(x).subrange(0, b.len() as int) =~= b);
    assert(extends_nested(b, b.push(x)));
    lemma_extend_trans(a, b, b.push(x));
}

/// Completing the marker reserved at the end of `a` closes a well-nested node.
proof fn lemma_extend_complete(a: Seq<StepEvent>, b: Seq<StepEvent>, kind: SyntaxKind)
    requires
        extends_nested(a.push(StepEvent::Tombstone), b),
    ensures
        extends_nested(
            a,
            b.update(a.len() as int, StepEvent::Start { kind, forward_parent: None }).push(
                StepEvent::Finish,
            ),
        ),
        single_node(
            b.update(a.len() as int, StepEvent::Start { kind, forward_parent: None }).push(
                StepEvent::Finish,
            ).subrange(a.len() as int, b.len() + 1 as int),
        ),
{
    let start = StepEvent::Start { kind, forward_parent: None };
    let c = b.update(a.len() as int, start).push(StepEvent::Finish);
    let inner = b.subrange(a.len() + 1 as int, b.len() as int);
    lemma_well_nested_wrap(kind, inner);
    assert(b.subrange(0, a.len() + 1 as int)[a.len() as int] == StepEvent::Tombstone);
    assert(c.subrange(0, a.len() as int) =~= a) by {
        assert forall|i: int| 0 <= i < a.len() implies c.subrange(0, a.len() as int)[i] == a[i] by {
            assert(b.subrange(0, a.len() + 1 as int)[i] == a.push(StepEvent::Tombstone)[i]);
        }
    }
    assert(c.subrange(a.len() as int, c.len() as int) =~= seq![start] + inner + seq![
        StepEvent::Finish,
    ]);
}

pub open spec fn tok(k: SyntaxKind) -> EventView {
    EventView::Token(k)
}

/// What the loop over the rest of a non-empty parameter list, from index `j`,
/// records, and where it stops.
pub open spec fn param_rest(ks: Seq<SyntaxKind>, j: int) -> (Seq<EventView>, int)
    decreases ks.len() - j,
{
    if !(0 <= j < ks.len()) || ks[j] == SyntaxKind::CLOSE_PAREN || ks[j] == SyntaxKind::EOF {
        (seq![], j)
    } else if ks[j] == SyntaxKind::COMMA {
        if j + 1 < ks.len() && ks[j + 1] == SyntaxKind::IDENT {
            let r = param_rest(ks, j + 2);
            (seq![tok(SyntaxKind::COMMA), tok(SyntaxKind::IDENT)] + r.0, r.1)
        } else {
            (seq![tok(SyntaxKind::COMMA), EventView::Error("expected parameter name"@)], j + 1)
        }
    } else if ks[j] == SyntaxKind::IDENT {
        let r = param_rest(ks, j + 1);
        (seq![EventView::Error("expected `,`"@), tok(SyntaxKind::IDENT)] + r.0, r.1)
    } else {
        (seq![EventView::Error("expected `,`"@)], j)
    }
}

/// What `param_list` records for the list that opens at index `i`, and the
/// index after it.
pub open spec fn param_list_events(ks: Seq<SyntaxKind>, i: int) -> (Seq<EventView>, int) {
    let body = if kind_at(ks, i + 1) == SyntaxKind::IDENT {
        let r = param_rest(ks, i + 2);
        (seq![tok(SyntaxKind::IDENT)] + r.0, r.1)
    } else {
        (seq![], i + 1)
    };
    let close = if kind_at(ks, body.1) == SyntaxKind::CLOSE_PAREN {
        (seq![tok(SyntaxKind::CLOSE_PAREN)], body.1 + 1)
    } else {
        (seq![EventView::Error("expected ')'"@)], body.1)
    };
    (
        seq![EventView::Start(SyntaxKind::PARAM_LIST, None), tok(SyntaxKind::OPEN_PAREN)] + body.0
            + close.0 + seq![EventView::Finish],
        close.1,
    )
}

/// What `fun` records for the function named at index `i`, and the index after it.
pub open spec fn fun_events(ks: Seq<SyntaxKind>, i: int) -> (Seq<EventView>, int) {
    let inner = if kind_at(ks, i + 1) == SyntaxKind::OPEN_PAREN {
        param_list_events(ks, i + 1)
    } else {
        (seq![EventView::Error("expected `(`"@)], i + 1)
    };
    (
        seq![EventView::Start(SyntaxKind::FUN, None), tok(SyntaxKind::IDENT)] + inner.0 + seq![
            EventView::Finish,
        ],
        inner.1,
    )
}

/// What `item` records at index `i`, and the index after it.
pub open spec fn item_events(ks: Seq<SyntaxKind>, i: int) -> (Seq<EventView>, int) {
    if kind_at(ks, i) == SyntaxKind::IDENT {
        fun_events(ks, i)
    } else if 0 <= i < ks.len() {
        (seq![EventView::Error("expected an identifier"@), tok(ks[i])], i + 1)
    } else {
        (seq![EventView::Error("expected an identifier"@)], i)
    }
}

/// What the item loop records from index `i` to the end of input.
pub open spec fn items_events(ks: Seq<SyntaxKind>, i: int) -> (Seq<EventView>, int)
    decreases ks.len() - i,
{
    if kind_at(ks, i) == SyntaxKind::EOF {
        (seq![], i)
    } else {
        let e = item_events(ks, i);
        if i < e.1 <= ks.len() {
            let r = items_events(ks, e.1);
            (e.0 + r.0, r.1)
        } else {
            (e.0, e.1)
        }
    }
}

/// What `program` records from index `i`: one `PROGRAM` node around the items.
pub open spec fn program_events(ks: Seq<SyntaxKind>, i: int) -> Seq<EventView> {
    seq![EventView::Start(SyntaxKind::PROGRAM, None)] + items_events(ks, i).0 + seq![
        EventView::Finish,
    ]
}

/// Completing the marker reserved after `l0` turns its slot into the start
/// of the node and closes the node after what was recorded since.
proof fn lemma_view_complete(
    l0: Seq<StepEvent>,
    b: Seq<StepEvent>,
    kind: SyntaxKind,
    acc: Seq<EventView>,
)
    requires
        log_view(b) == log_view(l0) + seq![EventView::Tombstone] + acc,
    ensures
        log_view(
            b.update(l0.len() as int, StepEvent::Start { kind, forward_parent: None }).push(
                StepEvent::Finish,
            ),
        ) == log_view(l0) + seq![EventView::Start(kind, None)] + acc + seq![EventView::Finish],
{
    let c = b.update(l0.len() as int, StepEvent::Start { kind, forward_parent: None });
    lemma_log_view_push(c, StepEvent::Finish);
    assert(log_view(b).len() == b.len());
    assert forall|k: int| 0 <= k < c.len() implies #[trigger] log_view(c)[k] == (log_view(l0)
        + seq![EventView::Start(kind, None)] + acc)[k] by {
        if k != l0.len() {
            assert(log_view(c)[k] == log_view(b)[k]);
        }
    }
    assert(log_view(c) =~= log_view(l0) + seq![EventView::Start(kind, None)] + acc);
}

/// A whole program: items up to the end of input, inside one `PROGRAM` node.
/// Every marker reserved on the way is resolved, and the input is consumed
/// to its end.
pub fn program(p: &mut Parser)
    requires
        old(p).wf(),
    ensures
        final(p).wf(),
        final(p).kinds() == old(p).kinds(),
        final(p).open_markers() == old(p).open_markers(),
        final(p).current_kind() == SyntaxKind::EOF,
        final(p).cursor() >= old(p).cursor(),
        final(p).log()[old(p).log().len() as int] == (StepEvent::Start {
            kind: SyntaxKind::PROGRAM,
            forward_parent: None,
        }),
        final(p).log().len() > old(p).log().len(),
        final(p).log().last() == StepEvent::Finish,
        extends_nested(old(p).log(), final(p).log()),
        single_node(final(p).log().subrange(old(p).log().len() as int, final(p).log().len() as int)),
        log_view(final(p).log()) == log_view(old(p).log()) + program_events(
            old(p).kinds(),
            old(p).cursor() as int,
        ),
        final(p).cursor() == items_events(old(p).kinds(), old(p).cursor() as int).1,
{
    let ghost ks = old(p).kinds();
    let ghost i = old(p).cursor() as int;
    let ghost l0 = old(p).log();
    let m = p.start();
    proof {
        lemma_extend_refl(p.log());
        lemma_log_view_push(l0, StepEvent::Tombstone);
    }
    let ghost target = log_view(l0) + seq![EventView::Tombstone] + items_events(ks, i).0;
    proof {
        assert(log_view(p.log()) + items_events(ks, i).0 =~= target);
    }
    while !p.at(SyntaxKind::EOF)
        invariant
            log_view(p.log()) + items_events(ks, p.cursor() as int).0 == target,
            items_events(ks, p.cursor() as int).1 == items_events(ks, i).1,
            ks == p.kinds(),
            extends_nested(old(p).log().push(StepEvent::Tombstone), p.log()),
            p.wf(),
            p.kinds() == old(p).kinds(),
            p.open_markers() == old(p).open_markers().insert(m.pos()),
            p.cursor() >= old(p).cursor(),
            p.log().len() > m.pos(),
            m.pos() == old(p).log().len(),
        decreases p.kinds().len() - p.cursor(),
    {
        proof {
            p.lemma_cursor_in_range();
        }
        let ghost before = p.log();
        let ghost j = p.cursor() as int;
        item(p);
        proof {
            p.lemma_cursor_in_range();
            lemma_extend_trans(old(p).log().push(StepEvent::Tombstone), before, p.log());
            assert(log_view(p.log()) + items_events(ks, p.cursor() as int).0 =~= target);
        }
    }
    let ghost body = p.log();
    proof {
        assert(log_view(body) =~= log_view(l0) + seq![EventView::Tombstone] + items_events(ks, i).0);
    }
    m.complete(p, SyntaxKind::PROGRAM);
    proof {
        lemma_extend_complete(old(p).log(), body, SyntaxKind::PROGRAM);
        lemma_view_complete(l0, body, SyntaxKind::PROGRAM, items_events(ks, i).0);
        assert(log_view(p.log()) =~= log_view(l0) + program_events(ks, i));
    }
    assert(old(p).open_markers().insert(m.pos()).remove(m.pos()) =~= old(p).open_markers());
}

/// One top-level item. A token that starts no item is reported and skipped,
/// so an item always consumes at least one token when one is left.
pub fn item(p: &mut Parser)
    requires
        old(p).wf(),
    ensures
        final(p).wf(),
        final(p).kinds() == old(p).kinds(),
        final(p).open_markers() == old(p).open_markers(),
        final(p).log().len() >= old(p).log().len(),
        old(p).cursor() < old(p).kinds().len() ==> final(p).cursor() > old(p).cursor(),
        final(p).cursor() >= old(p).cursor(),
        extends_nested(old(p).log(), final(p).log()),
        log_view(final(p).log()) == log_view(old(p).log()) + item_events(
            old(p).kinds(),
            old(p).cursor() as int,
        ).0,
        final(p).cursor() == item_events(old(p).kinds(), old(p).cursor() as int).1,
{
    proof {
        p.lemma_cursor_in_range();
    }
    if p.current() == SyntaxKind::IDENT {
        fun(p)
    } else {
        proof {
            lemma_extend_refl(p.log());
        }
        error_here(p, "expected an identifier");
        let ghost before = p.log();
        p.bump_any();
        proof {
            if p.log() != before {
                lemma_extend_push(old(p).log(), before, p.log().last());
                assert(p.log() =~= before.push(p.log().last()));
                lemma_log_view_push(before, p.log().last());
            }
        }
    }
}

/// Records a diagnostic, keeping what the log already extends.
fn error_here(p: &mut Parser, message: &str)
    requires
        old(p).wf(),
    ensures
        final(p).wf(),
        final(p).kinds() == old(p).kinds(),
        final(p).cursor() == old(p).cursor(),
        final(p).open_markers() == old(p).open_markers(),
        final(p).log().len() == old(p).log().len() + 1,
        forall|a: Seq<StepEvent>|
            extends_nested(a, old(p).log()) ==> #[trigger] extends_nested(a, final(p).log()),
        log_view(final(p).log()) == log_view(old(p).log()).push(EventView::Error(message@)),
{
    let ghost before = p.log();
    p.error(message);
    proof {
        assert(p.log() =~= before.push(p.log().last()));
        lemma_log_view_push(before, p.log().last());
        assert forall|a: Seq<StepEvent>|
            extends_nested(a, before) implies #[trigger] extends_nested(a, p.log()) by {
            lemma_extend_push(a, before, p.log().last());
        }
    }
}

/// Consumes a token if it is of `kind`, keeping what the log already extends.
fn eat_here(p: &mut Parser, kind: SyntaxKind) -> (r: bool)
    requires
        old(p).wf(),
    ensures
        final(p).wf(),
        r == (old(p).cursor() < old(p).kinds().len() && old(p).current_kind() == kind),
        final(p).kinds() == old(p).kinds(),
        final(p).open_markers() == old(p).open_markers(),
        r ==> final(p).cursor() == old(p).cursor() + 1,
        !r ==> final(p).cursor() == old(p).cursor() && final(p).log() == old(p).log(),
        final(p).log().len() >= old(p).log().len(),
        forall|a: Seq<StepEvent>|
            extends_nested(a, old(p).log()) ==> #[trigger] extends_nested(a, final(p).log()),
        r ==> log_view(final(p).log()) == log_view(old(p).log()).push(tok(kind)),
{
    let ghost before = p.log();
    let r = p.eat(kind);
    proof {
        if r {
            lemma_log_view_push(before, StepEvent::Token { kind });
            assert forall|a: Seq<StepEvent>|
                extends_nested(a, before) implies #[trigger] extends_nested(a, p.log()) by {
                lemma_extend_push(a, before, StepEvent::Token { kind });
            }
        }
    }
    r
}

/// A function: its name, then a parameter list; a missing list is reported.
pub fn fun(p: &mut Parser)
    requires
        old(p).wf(),
        old(p).current_kind() == SyntaxKind::IDENT,
    ensures
        final(p).wf(),
        final(p).kinds() == old(p).kinds(),
        final(p).open_markers() == old(p).open_markers(),
        final(p).log().len() >= old(p).log().len(),
        final(p).cursor() > old(p).cursor(),
        extends_nested(old(p).log(), final(p).log()),
        log_view(final(p).log()) == log_view(old(p).log()) + fun_events(
            old(p).kinds(),
            old(p).cursor() as int,
        ).0,
        final(p).cursor() == fun_events(old(p).kinds(), old(p).cursor() as int).1,
{
    let ghost ks = old(p).kinds();
    let ghost i = old(p).cursor() as int;
    let ghost l0 = old(p).log();
    let ghost a = old(p).log().push(StepEvent::Tombstone);
    let m = p.start();
    proof {
        lemma_extend_refl(p.log());
        lemma_log_view_push(l0, StepEvent::Tombstone);
    }
    let ghost before = p.log();
    p.bump(SyntaxKind::IDENT);
    proof {
        lemma_extend_push(a, before, StepEvent::Token { kind: SyntaxKind::IDENT });
        lemma_log_view_push(before, StepEvent::Token { kind: SyntaxKind::IDENT });
    }
    let ghost inner = if kind_at(ks, i + 1) == SyntaxKind::OPEN_PAREN {
        param_list_events(ks, i + 1)
    } else {
        (seq![EventView::Error("expected `(`"@)], i + 1)
    };
    let ghost mid = p.log();
    if p.at(SyntaxKind::OPEN_PAREN) {
        let ghost before = p.log();
        param_list(p);
        proof {
            lemma_extend_trans(a, before, p.log());
        }
    } else {
        error_here(p, "expected `(`")
    }
    let ghost body = p.log();
    proof {
        assert(log_view(body) =~= log_view(l0) + seq![EventView::Tombstone] + (seq![
            tok(SyntaxKind::IDENT),
        ] + inner.0));
    }
    m.complete(p, SyntaxKind::FUN);
    proof {
        lemma_extend_complete(old(p).log(), body, SyntaxKind::FUN);
        lemma_view_complete(l0, body, SyntaxKind::FUN, seq![tok(SyntaxKind::IDENT)] + inner.0);
        assert(log_view(p.log()) =~= log_view(l0) + fun_events(ks, i).0);
    }
    assert(old(p).open_markers().insert(m.pos()).remove(m.pos()) =~= old(p).open_markers());
}

/// A parenthesized, comma-separated list of parameter names, possibly empty.
/// A missing comma is reported and the list goes on; a missing name or a
/// missing `)` is reported and ends the list.
pub fn param_list(p: &mut Parser)
    requires
        old(p).wf(),
        old(p).current_kind() == SyntaxKind::OPEN_PAREN,
    ensures
        final(p).wf(),
        final(p).kinds() == old(p).kinds(),
        final(p).open_markers() == old(p).open_markers(),
        final(p).log().len() >= old(p).log().len(),
        final(p).cursor() > old(p).cursor(),
        extends_nested(old(p).log(), final(p).log()),
        log_view(final(p).log()) == log_view(old(p).log()) + param_list_events(
            old(p).kinds(),
            old(p).cursor() as int,
        ).0,
        final(p).cursor() == param_list_events(old(p).kinds(), old(p).cursor() as int).1,
{
    let ghost ks = old(p).kinds();
    let ghost i = old(p).cursor() as int;
    let ghost l0 = old(p).log();
    let ghost a = old(p).log().push(StepEvent::Tombstone);
    let m = p.start();
    proof {
        lemma_extend_refl(p.log());
        lemma_log_view_push(l0, StepEvent::Tombstone);
    }
    let ghost before = p.log();
    p.bump(SyntaxKind::OPEN_PAREN);
    proof {
        lemma_extend_push(a, before, StepEvent::Token { kind: SyntaxKind::OPEN_PAREN });
        lemma_log_view_push(before, StepEvent::Token { kind: SyntaxKind::OPEN_PAREN });
    }
    let ghost pre = log_view(l0) + seq![EventView::Tombstone, tok(SyntaxKind::OPEN_PAREN)];
    let ghost body = if kind_at(ks, i + 1) == SyntaxKind::IDENT {
        let r = param_rest(ks, i + 2);
        (seq![tok(SyntaxKind::IDENT)] + r.0, r.1)
    } else {
        (seq![], i + 1)
    };
    let ghost target = pre + body.0;
    proof {
        assert(log_view(p.log()) =~= pre);
    }
    if p.at(SyntaxKind::IDENT) {
        let ghost before = p.log();
        p.bump(SyntaxKind::IDENT);
        proof {
            lemma_extend_push(a, before, StepEvent::Token { kind: SyntaxKind::IDENT });
            lemma_log_view_push(before, StepEvent::Token { kind: SyntaxKind::IDENT });
            assert(log_view(p.log()) + param_rest(ks, i + 2).0 =~= target);
        }
        while !p.at(SyntaxKind::CLOSE_PAREN) && !p.at(SyntaxKind::EOF)
            invariant_except_break
                log_view(p.log()) + param_rest(ks, p.cursor() as int).0 == target,
                param_rest(ks, p.cursor() as int).1 == body.1,
            invariant
                ks == p.kinds(),
                p.wf(),
                p.kinds() == old(p).kinds(),
                p.open_markers() == old(p).open_markers().insert(m.pos()),
                p.cursor() > old(p).cursor(),
                p.log().len() > m.pos(),
                m.pos() == old(p).log().len(),
                a == old(p).log().push(StepEvent::Tombstone),
                extends_nested(a, p.log()),
            ensures
                log_view(p.log()) == target,
                p.cursor() == body.1,
            decreases p.kinds().len() - p.cursor(),
        {
            let ghost j = p.cursor() as int;
            let ghost v0 = log_view(p.log());
            proof {
                p.lemma_cursor_in_range();
            }
            if !eat_here(p, SyntaxKind::COMMA) {
                error_here(p, "expected `,`");
                if !p.at(SyntaxKind::IDENT) {
                    proof {
                        assert(log_view(p.log()) =~= target);
                    }
                    break;
                }
            }
            if !eat_here(p, SyntaxKind::IDENT) {
                error_here(p, "expected parameter name");
                proof {
                    assert(log_view(p.log()) =~= target);
                }
                break;
            }
            proof {
                if ks[j] == SyntaxKind::COMMA {
                    assert(log_view(p.log()) + param_rest(ks, p.cursor() as int).0 =~= target);
                } else {
                    assert(log_view(p.log()) + param_rest(ks, p.cursor() as int).0 =~= target);
                }
            }
        }
    }
    let ghost v1 = log_view(p.log());
    proof {
        assert(v1 == target);
        p.lemma_cursor_in_range();
    }
    if !eat_here(p, SyntaxKind::CLOSE_PAREN) {
        error_here(p, "expected ')'")
    }
    let ghost body_log = p.log();
    proof {
        let close = if kind_at(ks, body.1) == SyntaxKind::CLOSE_PAREN {
            (seq![tok(SyntaxKind::CLOSE_PAREN)], body.1 + 1)
        } else {
            (seq![EventView::Error("expected ')'"@)], body.1)
        };
        assert(log_view(body_log) =~= log_view(l0) + seq![EventView::Tombstone] + (seq![
            tok(SyntaxKind::OPEN_PAREN),
        ] + body.0 + close.0));
    }
    m.complete(p, SyntaxKind::PARAM_LIST);
    proof {
        lemma_extend_complete(old(p).log(), body_log, SyntaxKind::PARAM_LIST);
        let close = if kind_at(ks, body.1) == SyntaxKind::CLOSE_PAREN {
            (seq![tok(SyntaxKind::CLOSE_PAREN)], body.1 + 1)
        } else {
            (seq![EventView::Error("expected ')'"@)], body.1)
        };
        lemma_view_complete(
            l0,
            body_log,
            SyntaxKind::PARAM_LIST,
            seq![tok(SyntaxKind::OPEN_PAREN)] + body.0 + close.0,
        );
        assert(log_view(p.log()) =~= log_view(l0) + param_list_events(ks, i).0);
    }
    assert(old(p).open_markers().insert(m.pos()).remove(m.pos()) =~= old(p).open_markers());
}

} // verus!
