use vstd::prelude::*;

use crate::syntax::SyntaxKind;

verus! {

/// A step in the building of a syntax tree, with forward parents already
/// resolved into nesting order.
#[derive(Debug, Clone, PartialEq, Eq)]
pub enum Step {
    Start(SyntaxKind),
    Finish,
    Token(SyntaxKind),
    Error(String),
}

/// An entry of the parser's event log. `Start` may name a forward parent: the
/// index of a later `Start` whose node encloses this one.
#[derive(Debug, Clone, PartialEq, Eq)]
pub enum StepEvent {
    Start { kind: SyntaxKind, forward_parent: Option<usize> },
    Finish,
    Token { kind: SyntaxKind },
    Error { message: String },
    Tombstone,
}

/// An event as a mathematical value: a diagnostic is seen by its text.
pub enum EventView {
    Start(SyntaxKind, Option<usize>),
    Finish,
    Token(SyntaxKind),
    Error(Seq<char>),
    Tombstone,
}

pub open spec fn event_view(x: StepEvent) -> EventView {
    match x {
        StepEvent::Start { kind, forward_parent } => EventView::Start(kind, forward_parent),
        StepEvent::Finish => EventView::Finish,
        StepEvent::Token { kind } => EventView::Token(kind),
        StepEvent::Error { message } => EventView::Error(message@),
        StepEvent::Tombstone => EventView::Tombstone,
    }
}

/// A log as a sequence of mathematical values.
pub open spec fn log_view(e: Seq<StepEvent>) -> Seq<EventView> {
    e.map_values(|x: StepEvent| event_view(x))
}

/// The texts of the diagnostics of a log view, in order.
pub open spec fn view_errors(v: Seq<EventView>) -> Seq<Seq<char>>
    decreases v.len(),
{
    if v.len() == 0 {
        seq![]
    } else {
        match v.last() {
            EventView::Error(m) => view_errors(v.drop_last()).push(m),
            _ => view_errors(v.drop_last()),
        }
    }
}

pub proof fn lemma_log_view_push(e: Seq<StepEvent>, x: StepEvent)
    ensures
        log_view(e.push(x)) == log_view(e).push(event_view(x)),
{
    assert(log_view(e.push(x)) =~= log_view(e).push(event_view(x)));
}

pub proof fn lemma_view_errors_concat(a: Seq<EventView>, b: Seq<EventView>)
    ensures
        view_errors(a + b) == view_errors(a) + view_errors(b),
    decreases b.len(),
{
    if b.len() == 0 {
        assert(a + b =~= a);
        assert(view_errors(a) + view_errors(b) =~= view_errors(a));
    } else {
        assert((a + b).drop_last() =~= a + b.drop_last());
        lemma_view_errors_concat(a, b.drop_last());
        match b.last() {
            EventView::Error(m) => {
                assert(view_errors(a) + view_errors(b) =~= (view_errors(a) + view_errors(
                    b.drop_last(),
                )).push(m));
            },
            _ => {},
        }
    }
}

/// The diagnostics of a log, seen by their texts, are those of its view.
pub proof fn lemma_error_messages_view(e: Seq<StepEvent>)
    ensures
        error_messages(e).map_values(|m: String| m@) == view_errors(log_view(e)),
    decreases e.len(),
{
    if e.len() == 0 {
        assert(error_messages(e).map_values(|m: String| m@) =~= Seq::<Seq<char>>::empty());
    } else {
        lemma_error_messages_view(e.drop_last());
        assert(log_view(e).drop_last() =~= log_view(e.drop_last()));
        match e.last() {
            StepEvent::Error { message } => {
                assert(error_messages(e).map_values(|m: String| m@) =~= error_messages(
                    e.drop_last(),
                ).map_values(|m: String| m@).push(message@));
            },
            _ => {},
        }
    }
}

/// The kinds of the `Token` events of a log, in order.
pub open spec fn token_kinds(e: Seq<StepEvent>) -> Seq<SyntaxKind>
    decreases e.len(),
{
    if e.len() == 0 {
        seq![]
    } else {
        let init = token_kinds(e.drop_last());
        match e.last() {
            StepEvent::Token { kind } => init.push(kind),
            _ => init,
        }
    }
}

/// The messages of the `Error` events of a log, in order.
pub open spec fn error_messages(e: Seq<StepEvent>) -> Seq<String>
    decreases e.len(),
{
    if e.len() == 0 {
        seq![]
    } else {
        let init = error_messages(e.drop_last());
        match e.last() {
            StepEvent::Error { message } => init.push(message),
            _ => init,
        }
    }
}

pub proof fn lemma_token_kinds_push(e: Seq<StepEvent>, x: StepEvent)
    ensures
        token_kinds(e.push(x)) == match x {
            StepEvent::Token { kind } => token_kinds(e).push(kind),
            _ => token_kinds(e),
        },
{
    assert(e.push(x).drop_last() =~= e);
}

/// Replacing an event that is no token by another that is none keeps the
/// token kinds.
pub proof fn lemma_token_kinds_update(e: Seq<StepEvent>, i: int, x: StepEvent)
    requires
        0 <= i < e.len(),
        !(e[i] is Token),
        !(x is Token),
    ensures
        token_kinds(e.update(i, x)) == token_kinds(e),
    decreases e.len(),
{
    if i < e.len() - 1 {
        lemma_token_kinds_update(e.drop_last(), i, x);
        assert(e.update(i, x).drop_last() =~= e.drop_last().update(i, x));
    } else {
        assert(e.update(i, x).drop_last() =~= e.drop_last());
    }
}

/// How an event changes the nesting depth: a start opens, a finish closes.
pub open spec fn delta(x: StepEvent) -> int {
    match x {
        StepEvent::Start { .. } => 1,
        StepEvent::Finish => -1,
        _ => 0,
    }
}

/// The depth after a log.
pub open spec fn depth(e: Seq<StepEvent>) -> int
    decreases e.len(),
{
    if e.len() == 0 {
        0
    } else {
        depth(e.drop_last()) + delta(e.last())
    }
}

/// A log in which no node has a forward parent.
pub open spec fn no_forward_parents(e: Seq<StepEvent>) -> bool {
    forall|i: int| 0 <= i < e.len() ==> !(#[trigger] e[i] matches StepEvent::Start {
        forward_parent: Some(_),
        ..
    })
}

/// A well-nested log: no prefix closes more nodes than it opened, the whole
/// closes all that it opened, and no node has a forward parent.
pub open spec fn well_nested(e: Seq<StepEvent>) -> bool {
    &&& depth(e) == 0
    &&& forall|k: int| 0 <= k <= e.len() ==> depth(#[trigger] e.subrange(0, k)) >= 0
    &&& no_forward_parents(e)
}

pub proof fn lemma_depth_concat(a: Seq<StepEvent>, b: Seq<StepEvent>)
    ensures
        depth(a + b) == depth(a) + depth(b),
    decreases b.len(),
{
    if b.len() > 0 {
        assert((a + b).drop_last() =~= a + b.drop_last());
        lemma_depth_concat(a, b.drop_last());
    } else {
        assert(a + b =~= a);
    }
}

pub proof fn lemma_well_nested_empty()
    ensures
        well_nested(Seq::<StepEvent>::empty()),
{
    assert forall|k: int| 0 <= k <= 0 implies depth(
        #[trigger] Seq::<StepEvent>::empty().subrange(0, k),
    ) >= 0 by {
        assert(Seq::<StepEvent>::empty().subrange(0, k) =~= Seq::<StepEvent>::empty());
    }
}

/// Two well-nested logs in a row are well nested.
pub proof fn lemma_well_nested_concat(a: Seq<StepEvent>, b: Seq<StepEvent>)
    requires
        well_nested(a),
        well_nested(b),
    ensures
        well_nested(a + b),
{
    lemma_depth_concat(a, b);
    assert forall|k: int| 0 <= k <= (a + b).len() implies depth(
        #[trigger] (a + b).subrange(0, k),
    ) >= 0 by {
        if k <= a.len() {
            assert((a + b).subrange(0, k) =~= a.subrange(0, k));
        } else {
            assert((a + b).subrange(0, k) =~= a + b.subrange(0, k - a.len()));
            lemma_depth_concat(a, b.subrange(0, k - a.len()));
        }
    }
}

pub proof fn lemma_depth_single(x: StepEvent)
    ensures
        depth(seq![x]) == delta(x),
{
    assert(seq![x].drop_last() =~= Seq::<StepEvent>::empty());
    assert(depth(Seq::<StepEvent>::empty()) == 0);
}

/// A single event that neither opens nor closes a node is well nested.
pub proof fn lemma_well_nested_single(x: StepEvent)
    requires
        delta(x) == 0,
    ensures
        well_nested(seq![x]),
{
    lemma_depth_single(x);
    assert forall|k: int| 0 <= k <= 1 implies depth(#[trigger] seq![x].subrange(0, k)) >= 0 by {
        if k == 0 {
            assert(seq![x].subrange(0, k) =~= Seq::<StepEvent>::empty());
        } else {
            assert(seq![x].subrange(0, k) =~= seq![x]);
        }
    }
}

/// A log that is one node: every proper, non-empty prefix leaves that node open.
pub open spec fn single_node(e: Seq<StepEvent>) -> bool {
    &&& well_nested(e)
    &&& e.len() >= 2
    &&& forall|k: int| 0 < k < e.len() ==> depth(#[trigger] e.subrange(0, k)) >= 1
}

/// A well-nested log between the start and the finish of a node makes one node.
pub proof fn lemma_well_nested_wrap(kind: SyntaxKind, b: Seq<StepEvent>)
    requires
        well_nested(b),
    ensures
        single_node(
            seq![StepEvent::Start { kind, forward_parent: None }] + b + seq![StepEvent::Finish],
        ),
{
    let s = seq![StepEvent::Start { kind, forward_parent: None }];
    let f = seq![StepEvent::Finish];
    let w = s + b + f;
    lemma_depth_single(StepEvent::Start { kind, forward_parent: None });
    lemma_depth_single(StepEvent::Finish);
    lemma_depth_concat(s, b);
    lemma_depth_concat(s + b, f);
    assert forall|k: int| 0 <= k <= w.len() implies depth(#[trigger] w.subrange(0, k)) >= 0 by {
        if k == 0 {
            assert(w.subrange(0, k) =~= Seq::<StepEvent>::empty());
        } else if k <= b.len() + 1 {
            assert(depth(b.subrange(0, k - 1)) >= 0);
            assert(w.subrange(0, k) =~= s + b.subrange(0, k - 1));
            lemma_depth_concat(s, b.subrange(0, k - 1));
        } else {
            assert(w.subrange(0, k) =~= w);
        }
    }
    assert forall|k: int| 0 < k < w.len() implies depth(#[trigger] w.subrange(0, k)) >= 1 by {
        assert(depth(b.subrange(0, k - 1)) >= 0);
        assert(w.subrange(0, k) =~= s + b.subrange(0, k - 1));
        lemma_depth_concat(s, b.subrange(0, k - 1));
    }
    assert forall|i: int| 0 <= i < w.len() implies !(#[trigger] w[i] matches StepEvent::Start {
        forward_parent: Some(_),
        ..
    }) by {
        if 1 <= i < b.len() + 1 {
            assert(w[i] == b[i - 1]);
        }
    }
}

} // verus!
