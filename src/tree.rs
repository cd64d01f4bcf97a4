use vstd::prelude::*;

use crate::event::{
    lemma_error_messages_view, log_view, view_errors, EventView,
    delta, depth, error_messages, lemma_token_kinds_push, no_forward_parents, single_node,
    token_kinds, well_nested,
    Step, StepEvent,
};
use crate::lexer::{
    lemma_lex_from_no_eof, byte_len, lemma_byte_len_at_least, lemma_lex_covers_input, lemma_tokens_cover_input, lex,
    lex_bytes, lexeme_view, lexemes, token_view, tokenize, total_len, Lexeme, Token, TokenKind,
};
use crate::grammar::{program, program_events};
use crate::parser::Parser;
use crate::syntax::{kind_of_token, SyntaxKind};

verus! {

/// An event of a finished tree, in document order: a node opens, a leaf with
/// its exact source text, or a node closes.
#[derive(Debug, Clone, PartialEq, Eq)]
pub enum TreeEvent {
    Enter(SyntaxKind),
    Leaf { kind: SyntaxKind, text: String },
    Exit,
}

/// A diagnostic with the character offset at which it was recorded.
#[derive(Debug, Clone, PartialEq, Eq)]
pub struct SyntaxError {
    pub message: String,
    pub offset: usize,
}

/// The concatenated texts of the leaves of a tree, in order.
pub open spec fn leaf_text(t: Seq<TreeEvent>) -> Seq<char>
    decreases t.len(),
{
    if t.len() == 0 {
        seq![]
    } else {
        match t.last() {
            TreeEvent::Leaf { kind, text } => leaf_text(t.drop_last()) + text@,
            _ => leaf_text(t.drop_last()),
        }
    }
}

/// The kinds of the leaves of a tree, in order.
pub open spec fn leaf_kinds(t: Seq<TreeEvent>) -> Seq<SyntaxKind>
    decreases t.len(),
{
    if t.len() == 0 {
        seq![]
    } else {
        match t.last() {
            TreeEvent::Leaf { kind, text } => leaf_kinds(t.drop_last()).push(kind),
            _ => leaf_kinds(t.drop_last()),
        }
    }
}

/// The kinds of the `Token` steps, in order.
pub open spec fn step_tokens(s: Seq<Step>) -> Seq<SyntaxKind>
    decreases s.len(),
{
    if s.len() == 0 {
        seq![]
    } else {
        match s.last() {
            Step::Token(kind) => step_tokens(s.drop_last()).push(kind),
            _ => step_tokens(s.drop_last()),
        }
    }
}

/// The messages of the `Error` steps, in order.
pub open spec fn step_errors(s: Seq<Step>) -> Seq<String>
    decreases s.len(),
{
    if s.len() == 0 {
        seq![]
    } else {
        match s.last() {
            Step::Error(message) => step_errors(s.drop_last()).push(message),
            _ => step_errors(s.drop_last()),
        }
    }
}

/// The kinds of the nodes of a tree, in the order they open.
pub open spec fn node_kinds(t: Seq<TreeEvent>) -> Seq<SyntaxKind>
    decreases t.len(),
{
    if t.len() == 0 {
        seq![]
    } else {
        match t.last() {
            TreeEvent::Enter(kind) => node_kinds(t.drop_last()).push(kind),
            _ => node_kinds(t.drop_last()),
        }
    }
}

/// The kinds of the `Start` steps, in order.
pub open spec fn step_starts(s: Seq<Step>) -> Seq<SyntaxKind>
    decreases s.len(),
{
    if s.len() == 0 {
        seq![]
    } else {
        match s.last() {
            Step::Start(kind) => step_starts(s.drop_last()).push(kind),
            _ => step_starts(s.drop_last()),
        }
    }
}

/// The kinds of the `Start` events of a log view, in order.
pub open spec fn view_starts(v: Seq<EventView>) -> Seq<SyntaxKind>
    decreases v.len(),
{
    if v.len() == 0 {
        seq![]
    } else {
        match v.last() {
            EventView::Start(kind, _) => view_starts(v.drop_last()).push(kind),
            _ => view_starts(v.drop_last()),
        }
    }
}

proof fn lemma_step_starts_concat(a: Seq<Step>, b: Seq<Step>)
    ensures
        step_starts(a + b) == step_starts(a) + step_starts(b),
    decreases b.len(),
{
    if b.len() == 0 {
        assert(a + b =~= a);
        assert(step_starts(a) + step_starts(b) =~= step_starts(a));
    } else {
        assert((a + b).drop_last() =~= a + b.drop_last());
        lemma_step_starts_concat(a, b.drop_last());
        match b.last() {
            Step::Start(k) => {
                assert(step_starts(a) + step_starts(b) =~= (step_starts(a) + step_starts(
                    b.drop_last(),
                )).push(k));
            },
            _ => {},
        }
    }
}

/// The node kinds of the steps of a log without forward parents are the
/// kinds of its `Start` events.
proof fn lemma_plain_steps_starts(e: Seq<StepEvent>)
    ensures
        step_starts(plain_steps(e)) == view_starts(log_view(e)),
    decreases e.len(),
{
    if e.len() > 0 {
        lemma_plain_steps_starts(e.drop_last());
        lemma_step_starts_concat(plain_steps(e.drop_last()), plain_step(e.last()));
        assert(log_view(e).drop_last() =~= log_view(e.drop_last()));
        let b = plain_step(e.last());
        if b.len() == 1 {
            assert(b.drop_last() =~= Seq::<Step>::empty());
        } else {
            assert(b =~= Seq::<Step>::empty());
        }
        assert(step_starts(Seq::<Step>::empty()) == Seq::<SyntaxKind>::empty());
        match e.last() {
            StepEvent::Start { kind, .. } => {
                assert(b.drop_last() =~= Seq::<Step>::empty());
                assert(step_starts(b) == step_starts(b.drop_last()).push(kind));
                assert(step_starts(b) =~= seq![kind]);
            },
            StepEvent::Tombstone => {
                assert(b =~= Seq::<Step>::empty());
            },
            _ => {
                assert(b.drop_last() =~= Seq::<Step>::empty());
                assert(step_starts(b) == step_starts(b.drop_last()));
            },
        }
    } else {
        assert(log_view(e) =~= Seq::<EventView>::empty());
    }
}

proof fn lemma_node_kinds_push(t: Seq<TreeEvent>, x: TreeEvent)
    ensures
        node_kinds(t.push(x)) == match x {
            TreeEvent::Enter(kind) => node_kinds(t).push(kind),
            _ => node_kinds(t),
        },
{
    assert(t.push(x).drop_last() =~= t);
}

pub open spec fn is_space_leaf(x: TreeEvent) -> bool {
    x matches TreeEvent::Leaf { kind, .. } && kind == SyntaxKind::WHITESPACE
}

/// No node but the first opens with a whitespace leaf: whitespace before a
/// node's first token stays outside it.
pub open spec fn no_leading_space(t: Seq<TreeEvent>) -> bool {
    forall|k: int| 0 < k < t.len() - 1 && #[trigger] t[k] is Enter ==> !is_space_leaf(t[k + 1])
}

/// `no_leading_space`, and a node that has just opened (not the first) is
/// followed in the stream by a token that is no whitespace.
pub open spec fn lead_ok(t: Seq<TreeEvent>, tokens: Seq<Lexeme>, pos: int) -> bool {
    &&& no_leading_space(t)
    &&& t.len() > 1 && t.last() is Enter ==> pos == tokens.len() || tokens[pos].kind
        != TokenKind::Whitespace
}

/// The shape of a tree: its nodes and its significant leaves by kind, the
/// whitespace leaves left out.
pub open spec fn skeleton(t: Seq<TreeEvent>) -> Seq<Step>
    decreases t.len(),
{
    if t.len() == 0 {
        seq![]
    } else {
        let init = skeleton(t.drop_last());
        match t.last() {
            TreeEvent::Enter(k) => init.push(Step::Start(k)),
            TreeEvent::Exit => init.push(Step::Finish),
            TreeEvent::Leaf { kind, .. } => if kind == SyntaxKind::WHITESPACE {
                init
            } else {
                init.push(Step::Token(kind))
            },
        }
    }
}

/// Steps without their diagnostics.
pub open spec fn step_skeleton(s: Seq<Step>) -> Seq<Step>
    decreases s.len(),
{
    if s.len() == 0 {
        seq![]
    } else {
        match s.last() {
            Step::Error(_) => step_skeleton(s.drop_last()),
            x => step_skeleton(s.drop_last()).push(x),
        }
    }
}

/// The nodes and tokens of a log view, as steps.
pub open spec fn view_skeleton(v: Seq<EventView>) -> Seq<Step>
    decreases v.len(),
{
    if v.len() == 0 {
        seq![]
    } else {
        let init = view_skeleton(v.drop_last());
        match v.last() {
            EventView::Start(k, _) => init.push(Step::Start(k)),
            EventView::Finish => init.push(Step::Finish),
            EventView::Token(k) => init.push(Step::Token(k)),
            _ => init,
        }
    }
}

proof fn lemma_step_tokens_concat(a: Seq<Step>, b: Seq<Step>)
    ensures
        step_tokens(a + b) == step_tokens(a) + step_tokens(b),
    decreases b.len(),
{
    if b.len() == 0 {
        assert(a + b =~= a);
        assert(step_tokens(a) + step_tokens(b) =~= step_tokens(a));
    } else {
        assert((a + b).drop_last() =~= a + b.drop_last());
        lemma_step_tokens_concat(a, b.drop_last());
        match b.last() {
            Step::Token(k) => {
                assert(step_tokens(a) + step_tokens(b) =~= (step_tokens(a) + step_tokens(
                    b.drop_last(),
                )).push(k));
            },
            _ => {},
        }
    }
}

proof fn lemma_significant_concat(a: Seq<(TokenKind, nat)>, b: Seq<(TokenKind, nat)>)
    ensures
        significant_kinds(a + b) == significant_kinds(a) + significant_kinds(b),
    decreases b.len(),
{
    if b.len() == 0 {
        assert(a + b =~= a);
        assert(significant_kinds(a) + significant_kinds(b) =~= significant_kinds(a));
    } else {
        assert((a + b).drop_last() =~= a + b.drop_last());
        lemma_significant_concat(a, b.drop_last());
        if b.last().0 != TokenKind::Whitespace {
            assert(significant_kinds(a) + significant_kinds(b) =~= (significant_kinds(a)
                + significant_kinds(b.drop_last())).push(kind_of_token(b.last().0)));
        }
    }
}

/// The significant kinds from index `p` on: those of the token at `p`, then the rest.
proof fn lemma_significant_front(v: Seq<(TokenKind, nat)>, p: int)
    requires
        0 <= p < v.len(),
    ensures
        significant_kinds(v.subrange(p, v.len() as int)) == (if v[p].0 == TokenKind::Whitespace {
            seq![]
        } else {
            seq![kind_of_token(v[p].0)]
        }) + significant_kinds(v.subrange(p + 1, v.len() as int)),
{
    assert(v.subrange(p, v.len() as int) =~= seq![v[p]] + v.subrange(p + 1, v.len() as int));
    lemma_significant_concat(seq![v[p]], v.subrange(p + 1, v.len() as int));
    let one = seq![v[p]];
    assert(one.drop_last() =~= Seq::<(TokenKind, nat)>::empty());
    assert(significant_kinds(Seq::<(TokenKind, nat)>::empty()) =~= Seq::<SyntaxKind>::empty());
    assert(one.last() == v[p]);
    if v[p].0 == TokenKind::Whitespace {
        assert(significant_kinds(one) =~= Seq::<SyntaxKind>::empty());
    } else {
        assert(significant_kinds(one) =~= seq![kind_of_token(v[p].0)]);
    }
}

/// The tokens of the steps from index `i` on: those of step `i`, then the rest.
proof fn lemma_step_tokens_front(s: Seq<Step>, i: int)
    requires
        0 <= i < s.len(),
    ensures
        step_tokens(s.subrange(i, s.len() as int)) == (match s[i] {
            Step::Token(k) => seq![k],
            _ => seq![],
        }) + step_tokens(s.subrange(i + 1, s.len() as int)),
{
    assert(s.subrange(i, s.len() as int) =~= seq![s[i]] + s.subrange(i + 1, s.len() as int));
    lemma_step_tokens_concat(seq![s[i]], s.subrange(i + 1, s.len() as int));
    let one = seq![s[i]];
    assert(one.drop_last() =~= Seq::<Step>::empty());
    assert(step_tokens(Seq::<Step>::empty()) =~= Seq::<SyntaxKind>::empty());
    assert(one.last() == s[i]);
    match s[i] {
        Step::Token(k) => {
            assert(step_tokens(one) =~= seq![k]);
        },
        _ => {
            assert(step_tokens(one) =~= Seq::<SyntaxKind>::empty());
        },
    }
}

/// The skeleton of the steps of a log without forward parents is that of its view.
proof fn lemma_plain_steps_skeleton(e: Seq<StepEvent>)
    ensures
        step_skeleton(plain_steps(e)) == view_skeleton(log_view(e)),
    decreases e.len(),
{
    if e.len() > 0 {
        lemma_plain_steps_skeleton(e.drop_last());
        assert(log_view(e).drop_last() =~= log_view(e.drop_last()));
        let a = plain_steps(e.drop_last());
        let b = plain_step(e.last());
        assert(plain_steps(e) == a + b);
        if b.len() == 1 {
            assert((a + b).drop_last() =~= a);
            assert((a + b).last() == b[0]);
        } else {
            assert(a + b =~= a);
        }
    } else {
        assert(log_view(e) =~= Seq::<EventView>::empty());
    }
}

/// The kinds of a lexed token sequence in the unified kind space.
pub open spec fn lexed_kinds(t: Seq<(TokenKind, nat)>) -> Seq<SyntaxKind> {
    t.map_values(|x: (TokenKind, nat)| kind_of_token(x.0))
}

/// Offsets of diagnostics that never decrease and stay within a text of `n` characters.
pub open spec fn offsets_in_order(errors: Seq<SyntaxError>, n: nat) -> bool {
    &&& forall|m: int| 0 <= m < errors.len() ==> #[trigger] errors[m].offset <= n
    &&& forall|a: int, b: int|
        0 <= a < b < errors.len() ==> #[trigger] errors[a].offset <= #[trigger] errors[b].offset
}

/// The result of a parse: the lossless tree and the diagnostics.
pub struct Parse {
    pub tree: Vec<TreeEvent>,
    pub errors: Vec<SyntaxError>,
}

proof fn lemma_step_tokens_push(s: Seq<Step>, x: Step)
    ensures
        step_tokens(s.push(x)) == match x {
            Step::Token(kind) => step_tokens(s).push(kind),
            _ => step_tokens(s),
        },
{
    assert(s.push(x).drop_last() =~= s);
}

proof fn lemma_step_errors_push(s: Seq<Step>, x: Step)
    ensures
        step_errors(s.push(x)) == match x {
            Step::Error(message) => step_errors(s).push(message),
            _ => step_errors(s),
        },
{
    assert(s.push(x).drop_last() =~= s);
}

proof fn lemma_leaf_push(t: Seq<TreeEvent>, x: TreeEvent)
    ensures
        leaf_text(t.push(x)) == match x {
            TreeEvent::Leaf { kind, text } => leaf_text(t) + text@,
            _ => leaf_text(t),
        },
        leaf_kinds(t.push(x)) == match x {
            TreeEvent::Leaf { kind, text } => leaf_kinds(t).push(kind),
            _ => leaf_kinds(t),
        },
{
    assert(t.push(x).drop_last() =~= t);
}

/// How a step changes the nesting depth.
pub open spec fn step_delta(s: Step) -> int {
    match s {
        Step::Start(_) => 1,
        Step::Finish => -1,
        _ => 0,
    }
}

/// How a tree event changes the nesting depth.
pub open spec fn tree_delta(t: TreeEvent) -> int {
    match t {
        TreeEvent::Enter(_) => 1,
        TreeEvent::Exit => -1,
        _ => 0,
    }
}

pub open spec fn sum(d: Seq<int>) -> int
    decreases d.len(),
{
    if d.len() == 0 {
        0
    } else {
        sum(d.drop_last()) + d.last()
    }
}

/// No prefix has a negative sum.
pub open spec fn prefixes_nonneg(d: Seq<int>) -> bool {
    forall|k: int| 0 <= k <= d.len() ==> sum(#[trigger] d.subrange(0, k)) >= 0
}

/// Depth changes that never close more than was opened, and close all of it.
pub open spec fn balanced(d: Seq<int>) -> bool {
    sum(d) == 0 && prefixes_nonneg(d)
}

/// Steps that open and close nodes in a well-nested way.
pub open spec fn steps_nested(s: Seq<Step>) -> bool {
    balanced(step_deltas(s))
}

/// The depth changes of a tree's events.
pub open spec fn tree_deltas(t: Seq<TreeEvent>) -> Seq<int> {
    t.map_values(|x: TreeEvent| tree_delta(x))
}

/// The depth changes of steps.
pub open spec fn step_deltas(s: Seq<Step>) -> Seq<int> {
    s.map_values(|x: Step| step_delta(x))
}

/// Every non-empty prefix has a positive sum.
pub open spec fn inside_first(d: Seq<int>) -> bool {
    forall|k: int| 0 < k <= d.len() ==> sum(#[trigger] d.subrange(0, k)) >= 1
}

/// Depth changes of one node: balanced, and the node stays open until the end.
pub open spec fn one_node(d: Seq<int>) -> bool {
    &&& balanced(d)
    &&& d.len() >= 2
    &&& forall|k: int| 0 < k < d.len() ==> sum(#[trigger] d.subrange(0, k)) >= 1
}

/// A tree that is a single node holding every other event.
pub open spec fn single_tree(t: Seq<TreeEvent>) -> bool {
    one_node(tree_deltas(t))
}

/// Steps that form a single node.
pub open spec fn single_step_node(s: Seq<Step>) -> bool {
    one_node(step_deltas(s)) && s[0] is Start
}

/// A tree whose nodes open and close in a well-nested way.
pub open spec fn tree_nested(t: Seq<TreeEvent>) -> bool {
    balanced(tree_deltas(t))
}

proof fn lemma_sum_concat(a: Seq<int>, b: Seq<int>)
    ensures
        sum(a + b) == sum(a) + sum(b),
    decreases b.len(),
{
    if b.len() > 0 {
        assert((a + b).drop_last() =~= a + b.drop_last());
        lemma_sum_concat(a, b.drop_last());
    } else {
        assert(a + b =~= a);
    }
}

proof fn lemma_prefixes_push(d: Seq<int>, x: int)
    requires
        prefixes_nonneg(d),
        sum(d) + x >= 0,
    ensures
        prefixes_nonneg(d.push(x)),
        sum(d.push(x)) == sum(d) + x,
{
    assert(d.push(x).drop_last() =~= d);
    assert forall|k: int| 0 <= k <= d.len() + 1 implies sum(#[trigger] d.push(x).subrange(0, k)) >= 0 by {
        if k <= d.len() {
            assert(d.push(x).subrange(0, k) =~= d.subrange(0, k));
        } else {
            assert(d.push(x).subrange(0, k) =~= d.push(x));
        }
    }
}

proof fn lemma_tree_push(t: Seq<TreeEvent>, x: TreeEvent)
    ensures
        tree_deltas(t.push(x)) == tree_deltas(t).push(tree_delta(x)),
        sum(tree_deltas(t.push(x))) == sum(tree_deltas(t)) + tree_delta(x),
        prefixes_nonneg(tree_deltas(t)) && sum(tree_deltas(t)) + tree_delta(x) >= 0
            ==> prefixes_nonneg(tree_deltas(t.push(x))),
        prefixes_nonneg(tree_deltas(t)) && tree_delta(x) >= 0 ==> prefixes_nonneg(
            tree_deltas(t.push(x)),
        ),
{
    let d = tree_deltas(t);
    if prefixes_nonneg(d) {
        assert(d.subrange(0, d.len() as int) =~= d);
    }
    assert(tree_deltas(t.push(x)) =~= d.push(tree_delta(x)));
    assert(d.push(tree_delta(x)).drop_last() =~= d);
    if prefixes_nonneg(d) && (sum(d) + tree_delta(x) >= 0 || tree_delta(x) >= 0) {
        lemma_prefixes_push(d, tree_delta(x));
    }
}

proof fn lemma_inside_first_push(d: Seq<int>, x: int)
    requires
        inside_first(d),
        d.len() > 0 || x >= 1,
        sum(d) + x >= 1,
    ensures
        inside_first(d.push(x)),
        sum(d.push(x)) == sum(d) + x,
{
    assert(d.push(x).drop_last() =~= d);
    assert forall|k: int| 0 < k <= d.len() + 1 implies sum(#[trigger] d.push(x).subrange(0, k)) >= 1 by {
        if k <= d.len() {
            assert(d.push(x).subrange(0, k) =~= d.subrange(0, k));
        } else {
            assert(d.push(x).subrange(0, k) =~= d.push(x));
        }
    }
}

proof fn lemma_tree_push_inside(t: Seq<TreeEvent>, x: TreeEvent)
    requires
        inside_first(tree_deltas(t)),
        t.len() > 0 || tree_delta(x) >= 1,
        t.len() > 0 ==> sum(tree_deltas(t)) + tree_delta(x) >= 1,
    ensures
        inside_first(tree_deltas(t.push(x))),
{
    let d = tree_deltas(t);
    lemma_tree_push(t, x);
    if t.len() == 0 {
        assert(d =~= Seq::<int>::empty());
        assert(sum(d) == 0);
    }
    lemma_inside_first_push(d, tree_delta(x));
}

/// Pushing a leaf keeps every non-empty prefix inside the first node.
proof fn lemma_tree_push_leaf_inside(t: Seq<TreeEvent>, x: TreeEvent)
    requires
        inside_first(tree_deltas(t)),
        t.len() > 0,
        tree_delta(x) == 0,
    ensures
        inside_first(tree_deltas(t.push(x))),
{
    assert(tree_deltas(t).subrange(0, t.len() as int) =~= tree_deltas(t));
    lemma_tree_push_inside(t, x);
}

/// The depth of the steps of a log without forward parents is the log's depth.
proof fn lemma_plain_steps_depth(e: Seq<StepEvent>)
    ensures
        sum(plain_steps(e).map_values(|x: Step| step_delta(x))) == depth(e),
    decreases e.len(),
{
    if e.len() > 0 {
        let init = e.drop_last();
        lemma_plain_steps_depth(init);
        let a = plain_steps(init).map_values(|x: Step| step_delta(x));
        let b = plain_step(e.last()).map_values(|x: Step| step_delta(x));
        assert(plain_steps(e).map_values(|x: Step| step_delta(x)) =~= a + b);
        lemma_sum_concat(a, b);
        assert(e =~= init.push(e.last()));
        assert(depth(e) == depth(init) + delta(e.last()));
        match e.last() {
            StepEvent::Tombstone => {
                assert(b =~= Seq::<int>::empty());
            },
            _ => {
                assert(b.len() == 1);
                assert(b.drop_last() =~= Seq::<int>::empty());
                assert(sum(Seq::<int>::empty()) == 0);
                assert(sum(b) == sum(b.drop_last()) + b.last());
                assert(sum(b) == b[0]);
            },
        }
    } else {
        assert(plain_steps(e).map_values(|x: Step| step_delta(x)) =~= Seq::<int>::empty());
    }
}

/// Every prefix of the steps of a log is the steps of a prefix of the log.
proof fn lemma_plain_steps_prefix(e: Seq<StepEvent>, k: int) -> (j: int)
    requires
        0 <= k <= plain_steps(e).len(),
    ensures
        0 <= j <= e.len(),
        plain_steps(e).subrange(0, k) == plain_steps(e.subrange(0, j)),
    decreases e.len(),
{
    if e.len() == 0 {
        assert(plain_steps(e).subrange(0, k) =~= plain_steps(e));
        assert(e.subrange(0, 0) =~= e);
        0
    } else {
        let init = e.drop_last();
        if k <= plain_steps(init).len() {
            let j = lemma_plain_steps_prefix(init, k);
            assert(plain_steps(e).subrange(0, k) =~= plain_steps(init).subrange(0, k));
            assert(init.subrange(0, j) =~= e.subrange(0, j));
            j
        } else {
            assert(plain_steps(e).subrange(0, k) =~= plain_steps(e));
            assert(e.subrange(0, e.len() as int) =~= e);
            e.len() as int
        }
    }
}

/// The steps of a log that is one node form one node.
pub proof fn lemma_plain_steps_single(e: Seq<StepEvent>)
    requires
        single_node(e),
        e[0] is Start,
    ensures
        single_step_node(plain_steps(e)),
{
    let ps = plain_steps(e);
    let d = step_deltas(ps);
    lemma_plain_steps_nested(e);
    lemma_plain_steps_first(e);
    assert forall|k: int| 0 < k < d.len() implies sum(#[trigger] d.subrange(0, k)) >= 1 by {
        let j = lemma_plain_steps_prefix(e, k);
        if j == 0 {
            assert(e.subrange(0, 0) =~= Seq::<StepEvent>::empty());
            assert(plain_steps(e.subrange(0, 0)) =~= Seq::<Step>::empty());
        }
        if j == e.len() {
            assert(e.subrange(0, j) =~= e);
        }
        lemma_plain_steps_depth(e.subrange(0, j));
        assert(d.subrange(0, k) =~= step_deltas(ps.subrange(0, k)));
    }
    if ps.len() < 2 {
        assert(d.len() == 1);
        assert(d.drop_last() =~= Seq::<int>::empty());
        assert(sum(d) == 1);
    }
}

/// The steps of a log without forward parents begin with the step of its first event.
proof fn lemma_plain_steps_first(e: Seq<StepEvent>)
    requires
        e.len() > 0,
        e[0] is Start,
    ensures
        plain_steps(e).len() > 0,
        plain_steps(e)[0] == Step::Start(e[0]->Start_kind),
    decreases e.len(),
{
    if e.len() == 1 {
        assert(e.drop_last() =~= Seq::<StepEvent>::empty());
        assert(plain_steps(e.drop_last()) =~= Seq::<Step>::empty());
        assert(e.last() == e[0]);
        assert(plain_steps(e) =~= plain_step(e[0]));
    } else {
        let init = e.drop_last();
        assert(init[0] == e[0]);
        lemma_plain_steps_first(init);
        assert(plain_steps(e) == plain_steps(init) + plain_step(e.last()));
        assert(plain_steps(e)[0] == plain_steps(init)[0]);
    }
}

/// The steps of a well-nested log are well nested.
pub proof fn lemma_plain_steps_nested(e: Seq<StepEvent>)
    requires
        well_nested(e),
    ensures
        steps_nested(plain_steps(e)),
{
    let ps = plain_steps(e);
    let d = ps.map_values(|x: Step| step_delta(x));
    lemma_plain_steps_depth(e);
    assert forall|k: int| 0 <= k <= d.len() implies sum(#[trigger] d.subrange(0, k)) >= 0 by {
        let j = lemma_plain_steps_prefix(e, k);
        lemma_plain_steps_depth(e.subrange(0, j));
        assert(d.subrange(0, k) =~= ps.subrange(0, k).map_values(|x: Step| step_delta(x)));
    }
}

/// The step of one event of a log without forward parents.
pub open spec fn plain_step(x: StepEvent) -> Seq<Step> {
    match x {
        StepEvent::Start { kind, forward_parent } => seq![Step::Start(kind)],
        StepEvent::Finish => seq![Step::Finish],
        StepEvent::Token { kind } => seq![Step::Token(kind)],
        StepEvent::Error { message } => seq![Step::Error(message)],
        StepEvent::Tombstone => seq![],
    }
}

/// The steps of a log without forward parents: each event in place, the
/// tombstones dropped.
pub open spec fn plain_steps(e: Seq<StepEvent>) -> Seq<Step>
    decreases e.len(),
{
    if e.len() == 0 {
        seq![]
    } else {
        plain_steps(e.drop_last()) + plain_step(e.last())
    }
}

/// The forward parent that flattening follows from event `i`: a later `Start`.
pub open spec fn link(e: Seq<StepEvent>, i: int) -> Option<int> {
    if 0 <= i < e.len() {
        match e[i] {
            StepEvent::Start { forward_parent: Some(f), .. } => {
                if i < f < e.len() && e[f as int] is Start {
                    Some(f as int)
                } else {
                    None
                }
            },
            _ => None,
        }
    } else {
        None
    }
}

/// Whether `j` lies on the forward-parent chain that starts at `i`.
pub open spec fn in_chain(e: Seq<StepEvent>, i: int, j: int) -> bool
    decreases e.len() - i,
{
    i == j || match link(e, i) {
        Some(f) => i < f <= e.len() && in_chain(e, f, j),
        None => false,
    }
}

/// The kinds along the chain that starts at `i`, innermost first.
pub open spec fn chain_kinds(e: Seq<StepEvent>, i: int) -> Seq<SyntaxKind>
    decreases e.len() - i,
{
    if 0 <= i < e.len() && e[i] is Start {
        match link(e, i) {
            Some(f) => if i < f <= e.len() {
                seq![e[i]->Start_kind] + chain_kinds(e, f)
            } else {
                seq![e[i]->Start_kind]
            },
            None => seq![e[i]->Start_kind],
        }
    } else {
        seq![]
    }
}

/// Whether an event before both `c` and `j` has `j` on its chain.
pub open spec fn claimed_before(e: Seq<StepEvent>, c: int, j: int) -> bool {
    exists|i: int| 0 <= i < c && i < j && #[trigger] in_chain(e, i, j)
}

/// The starts of a chain, outermost first.
pub open spec fn outermost_first(ks: Seq<SyntaxKind>) -> Seq<Step> {
    Seq::new(ks.len(), |k: int| Step::Start(ks[ks.len() - 1 - k]))
}

/// The steps that event `i` gives: nothing when it is the forward parent of
/// an earlier node; for the start of a chain, its starts outermost first.
pub open spec fn flat_step(e: Seq<StepEvent>, i: int) -> Seq<Step> {
    if claimed_before(e, i, i) {
        seq![]
    } else if e[i] is Start {
        outermost_first(chain_kinds(e, i))
    } else {
        plain_step(e[i])
    }
}

/// The steps of the first `n` events.
pub open spec fn flat(e: Seq<StepEvent>, n: int) -> Seq<Step>
    decreases n,
{
    if n <= 0 {
        seq![]
    } else {
        flat(e, n - 1) + flat_step(e, n - 1)
    }
}

proof fn lemma_chain_order(e: Seq<StepEvent>, a: int, b: int)
    requires
        in_chain(e, a, b),
    ensures
        a <= b,
    decreases e.len() - a,
{
    if a != b {
        let f = link(e, a)->0;
        lemma_chain_order(e, f, b);
    }
}

proof fn lemma_chain_trans(e: Seq<StepEvent>, a: int, b: int, c: int)
    requires
        in_chain(e, a, b),
        in_chain(e, b, c),
    ensures
        in_chain(e, a, c),
    decreases e.len() - a,
{
    if a != b {
        let f = link(e, a)->0;
        lemma_chain_trans(e, f, b, c);
    }
}

proof fn lemma_chain_linear(e: Seq<StepEvent>, a: int, b: int, c: int)
    requires
        in_chain(e, a, b),
        in_chain(e, a, c),
    ensures
        in_chain(e, b, c) || in_chain(e, c, b),
    decreases e.len() - a,
{
    if a != b && a != c {
        let f = link(e, a)->0;
        lemma_chain_linear(e, f, b, c);
    }
}

/// Resolves forward parents: each chain of `Start` events linked by forward
/// parents is emitted outermost first where its innermost member stood, the
/// later members are skipped where they stand, and tombstones vanish. The
/// tokens come out exactly as the log holds them.
pub fn flatten(events: &Vec<StepEvent>) -> (r: Vec<Step>)
    ensures
        step_tokens(r@) == token_kinds(events@),
        step_errors(r@) == error_messages(events@),
        no_forward_parents(events@) ==> r@ == plain_steps(events@),
        well_nested(events@) ==> steps_nested(r@),
        r@ == flat(events@, events@.len() as int),
{
    let n = events.len();
    let mut claimed: Vec<bool> = Vec::new();
    let mut k: usize = 0;
    while k < n
        invariant
            k <= n,
            n == events@.len(),
            claimed@.len() == k,
            forall|j: int| 0 <= j < k ==> !claimed@[j],
        decreases n - k,
    {
        claimed.push(false);
        k = k + 1;
    }
    proof {
        assert forall|j: int| 0 <= j < n implies #[trigger] claimed@[j] == claimed_before(
            events@,
            0,
            j,
        ) by {}
    }
    let mut out: Vec<Step> = Vec::new();
    let mut i: usize = 0;
    while i < n
        invariant
            i <= n,
            n == events@.len(),
            claimed@.len() == n,
            forall|j: int| 0 <= j < n && #[trigger] claimed@[j] ==> events@[j] is Start,
            step_tokens(out@) == token_kinds(events@.subrange(0, i as int)),
            step_errors(out@) == error_messages(events@.subrange(0, i as int)),
            no_forward_parents(events@) ==> out@ == plain_steps(events@.subrange(0, i as int)),
            no_forward_parents(events@) ==> forall|j: int| 0 <= j < n ==> !#[trigger] claimed@[j],
            forall|j: int| 0 <= j < n ==> #[trigger] claimed@[j] == claimed_before(events@, i as int, j),
            out@ == flat(events@, i as int),
        decreases n - i,
    {
        let ghost before = out@;
        let ghost e = events@;
        let ghost cb = claimed@;
        proof {
            assert(events@.subrange(0, i + 1).drop_last() =~= events@.subrange(0, i as int));
            assert(events@.subrange(0, i + 1) =~= events@.subrange(0, i as int).push(events@[i as int]));
            lemma_token_kinds_push(events@.subrange(0, i as int), events@[i as int]);
        }
        if !claimed[i] {
            match &events[i] {
                StepEvent::Start { kind, forward_parent } => {
                    let mut chain: Vec<SyntaxKind> = Vec::new();
                    chain.push(*kind);
                    let mut fp = *forward_parent;
                    let mut idx: usize = i;
                    loop
                        invariant
                            i <= idx < n,
                            n == events@.len(),
                            claimed@.len() == n,
                            forall|j: int| 0 <= j < n && #[trigger] claimed@[j] ==> events@[j] is Start,
                            out@ == before,
                            no_forward_parents(events@) ==> fp is None,
                            no_forward_parents(events@) ==> chain@ == seq![*kind],
                            no_forward_parents(events@) ==> forall|j: int| 0 <= j < n ==> !#[trigger] claimed@[j],
                            e == events@,
                            events@[idx as int] matches StepEvent::Start { forward_parent: g, .. } && g == fp,
                            in_chain(e, i as int, idx as int),
                            chain@ + chain_kinds(e, idx as int).drop_first() == chain_kinds(e, i as int),
                            forall|j: int| 0 <= j < n ==> #[trigger] claimed@[j] == (cb[j] || (i < j <= idx
                                && in_chain(e, i as int, j))),
                        ensures
                            link(e, idx as int) is None,
                        decreases n - idx,
                    {
                        let ghost c0 = claimed@;
                        let ghost k0 = chain@;
                        let ghost idx0 = idx as int;
                        match fp {
                            Some(f) => {
                                if f <= idx || f >= n {
                                    break;
                                }
                                match &events[f] {
                                    StepEvent::Start { kind: parent, forward_parent: next } => {
                                        claimed.set(f, true);
                                        chain.push(*parent);
                                        fp = *next;
                                        idx = f;
                                        proof {
                                            let fi = f as int;
                                            assert(link(e, idx0) == Some(fi));
                                            assert(in_chain(e, fi, fi));
                                            assert(in_chain(e, idx0, fi));
                                            lemma_chain_trans(e, i as int, idx0, fi);
                                            assert(chain_kinds(e, idx0) == seq![e[idx0]->Start_kind]
                                                + chain_kinds(e, fi));
                                            assert(chain_kinds(e, fi)[0] == *parent);
                                            assert(chain@ + chain_kinds(e, fi).drop_first() =~= k0
                                                + chain_kinds(e, idx0).drop_first());
                                            assert forall|j: int| 0 <= j < n implies #[trigger] claimed@[j]
                                                == (cb[j] || (i < j <= fi && in_chain(e, i as int, j))) by {
                                                if j != fi && idx0 < j < fi && in_chain(e, i as int, j) {
                                                    lemma_chain_linear(e, i as int, idx0, j);
                                                    if in_chain(e, j, idx0) {
                                                        lemma_chain_order(e, j, idx0);
                                                    } else {
                                                        assert(in_chain(e, fi, j));
                                                        lemma_chain_order(e, fi, j);
                                                    }
                                                }
                                            }
                                        }
                                    },
                                    _ => {
                                        break;
                                    },
                                }
                            },
                            None => {
                                break;
                            },
                        }
                    }
                    proof {
                        assert(chain_kinds(e, idx as int) == seq![e[idx as int]->Start_kind]);
                        assert(chain@ =~= chain_kinds(e, i as int));
                        assert forall|j: int| 0 <= j < n implies #[trigger] claimed@[j]
                            == claimed_before(e, i + 1, j) by {
                            if i < j && in_chain(e, i as int, j) {
                                lemma_chain_linear(e, i as int, idx as int, j);
                                if in_chain(e, j, idx as int) {
                                    lemma_chain_order(e, j, idx as int);
                                }
                                assert(claimed_before(e, i + 1, j));
                            }
                            if claimed_before(e, i + 1, j) && !cb[j] {
                                let w = choose|w: int| 0 <= w < i + 1 && w < j && #[trigger] in_chain(e, w, j);
                                assert(w == i);
                            }
                        }
                    }
                    let ghost full = chain@;
                    let mut c: usize = chain.len();
                    while c > 0
                        invariant
                            chain@ == full,
                            out@ == before + Seq::new(
                                (chain@.len() - c) as nat,
                                |k: int| Step::Start(chain@[chain@.len() - 1 - k]),
                            ),
                            c <= chain@.len(),
                            step_tokens(out@) == step_tokens(before),
                            step_errors(out@) == step_errors(before),
                            no_forward_parents(events@) ==> chain@ == seq![*kind],
                            no_forward_parents(events@) ==> (c == 1 ==> out@ == before),
                            no_forward_parents(events@) ==> (c == 0 ==> out@ == before + seq![Step::Start(*kind)]),
                        decreases c,
                    {
                        c = c - 1;
                        let ghost o = out@;
                        out.push(Step::Start(chain[c]));
                        proof {
                            assert(out@ =~= before + Seq::new(
                                (chain@.len() - c) as nat,
                                |k: int| Step::Start(chain@[chain@.len() - 1 - k]),
                            ));
                            lemma_step_tokens_push(o, Step::Start(chain@[c as int]));
                            lemma_step_errors_push(o, Step::Start(chain@[c as int]));
                        }
                    }
                    proof {
                        assert(out@ =~= before + outermost_first(chain_kinds(e, i as int)));
                    }
                },
                StepEvent::Finish => {
                    out.push(Step::Finish);
                    proof {
                        lemma_step_tokens_push(before, Step::Finish);
                        lemma_step_errors_push(before, Step::Finish);
                    }
                },
                StepEvent::Token { kind } => {
                    out.push(Step::Token(*kind));
                    proof {
                        lemma_step_tokens_push(before, Step::Token(*kind));
                        lemma_step_errors_push(before, Step::Token(*kind));
                    }
                },
                StepEvent::Error { message } => {
                    let step = Step::Error(message.clone());
                    out.push(step);
                    proof {
                        lemma_step_tokens_push(before, step);
                        lemma_step_errors_push(before, step);
                    }
                },
                StepEvent::Tombstone => {},
            }
        }
        proof {
            assert(flat(e, i + 1) == flat(e, i as int) + flat_step(e, i as int));
            if cb[i as int] {
                assert(claimed_before(e, i as int, i as int));
                assert forall|j: int| 0 <= j < n implies #[trigger] claimed@[j] == claimed_before(
                    e,
                    i + 1,
                    j,
                ) by {
                    if claimed_before(e, i + 1, j) && !claimed_before(e, i as int, j) {
                        let w = choose|w: int| 0 <= w < i + 1 && w < j && #[trigger] in_chain(e, w, j);
                        assert(w == i);
                        let k = choose|k: int| 0 <= k < i && k < i && #[trigger] in_chain(e, k, i as int);
                        lemma_chain_trans(e, k, i as int, j);
                        assert(claimed_before(e, i as int, j));
                    }
                }
                assert(out@ =~= flat(e, i + 1));
            } else if !(e[i as int] is Start) {
                assert forall|j: int| 0 <= j < n implies #[trigger] claimed@[j] == claimed_before(
                    e,
                    i + 1,
                    j,
                ) by {
                    if claimed_before(e, i + 1, j) && !claimed_before(e, i as int, j) {
                        let w = choose|w: int| 0 <= w < i + 1 && w < j && #[trigger] in_chain(e, w, j);
                        assert(w == i);
                        assert(link(e, i as int) is None);
                    }
                }
                assert(out@ =~= flat(e, i + 1));
            } else {
                assert(out@ =~= flat(e, i + 1));
            }
        }
        i = i + 1;
    }
    proof {
        assert(events@.subrange(0, n as int) =~= events@);
    }
    proof {
        if well_nested(events@) {
            lemma_plain_steps_nested(events@);
        }
    }
    out
}

/// The (kind, length) views of a token sequence.
pub open spec fn views(tokens: Seq<Lexeme>) -> Seq<(TokenKind, nat)> {
    tokens.map_values(|t: Lexeme| lexeme_view(t))
}

/// The (kind, length in bytes) views of a token sequence.
pub open spec fn token_views(tokens: Seq<Token>) -> Seq<(TokenKind, nat)> {
    tokens.map_values(|t: Token| token_view(t))
}

proof fn lemma_skeleton_push(t: Seq<TreeEvent>, x: TreeEvent)
    ensures
        skeleton(t.push(x)) == match x {
            TreeEvent::Enter(k) => skeleton(t).push(Step::Start(k)),
            TreeEvent::Exit => skeleton(t).push(Step::Finish),
            TreeEvent::Leaf { kind, .. } => if kind == SyntaxKind::WHITESPACE {
                skeleton(t)
            } else {
                skeleton(t).push(Step::Token(kind))
            },
        },
{
    assert(t.push(x).drop_last() =~= t);
}

/// The significant kinds of the tokens from index `p` on.
pub open spec fn suffix_sig(tokens: Seq<Lexeme>, p: int) -> Seq<SyntaxKind> {
    significant_kinds(views(tokens).subrange(p, tokens.len() as int))
}

/// Replays steps together with the full token stream into a tree.
struct Builder {
    tree: Vec<TreeEvent>,
    errors: Vec<SyntaxError>,
    tokens_pos: usize,
    input_pos: usize,
}

impl Builder {
    /// The tokens before `tokens_pos` are leaves, and their texts are the
    /// input up to `input_pos`; the remaining tokens cover the rest exactly.
    spec fn inv(&self, input: Seq<char>, tokens: Seq<Lexeme>) -> bool {
        &&& self.tokens_pos <= tokens.len()
        &&& self.input_pos <= input.len()
        &&& input.len() < usize::MAX
        &&& total_len(views(tokens).subrange(self.tokens_pos as int, tokens.len() as int))
            == input.len() - self.input_pos
        &&& leaf_text(self.tree@) == input.subrange(0, self.input_pos as int)
        &&& leaf_kinds(self.tree@) == lexed_kinds(views(tokens).subrange(0, self.tokens_pos as int))
    }

    fn new() -> (b: Builder)
        ensures
            b.tokens_pos == 0,
            b.input_pos == 0,
            b.tree@.len() == 0,
            b.errors@.len() == 0,
    {
        Builder { tree: Vec::new(), errors: Vec::new(), tokens_pos: 0, input_pos: 0 }
    }

    /// Emits the next token of the stream as a leaf with its exact text.
    fn do_token(&mut self, input: &str, tokens: &Vec<Lexeme>)
        requires
            old(self).inv(input@, tokens@),
            old(self).tokens_pos < tokens@.len(),
        ensures
            final(self).inv(input@, tokens@),
            final(self).tokens_pos == old(self).tokens_pos + 1,
            final(self).errors == old(self).errors,
            final(self).input_pos == old(self).input_pos + tokens@[old(self).tokens_pos as int].len,
            final(self).tree@.drop_last() == old(self).tree@,
            final(self).tree@.len() == old(self).tree@.len() + 1,
            final(self).tree@.last() matches TreeEvent::Leaf { kind, text } && kind
                == kind_of_token(tokens@[old(self).tokens_pos as int].kind) && text@
                == input@.subrange(old(self).input_pos as int, final(self).input_pos as int),
            skeleton(final(self).tree@) == (if tokens@[old(self).tokens_pos as int].kind
                == TokenKind::Whitespace {
                skeleton(old(self).tree@)
            } else {
                skeleton(old(self).tree@).push(
                    Step::Token(kind_of_token(tokens@[old(self).tokens_pos as int].kind)),
                )
            }),
            sum(tree_deltas(final(self).tree@)) == sum(tree_deltas(old(self).tree@)),
            old(self).tree@.is_prefix_of(final(self).tree@),
            node_kinds(final(self).tree@) == node_kinds(old(self).tree@),
            lead_ok(old(self).tree@, tokens@, old(self).tokens_pos as int) ==> lead_ok(
                final(self).tree@,
                tokens@,
                final(self).tokens_pos as int,
            ),
            old(self).tree@.len() > 0 && inside_first(tree_deltas(old(self).tree@)) ==> inside_first(
                tree_deltas(final(self).tree@),
            ),
            prefixes_nonneg(tree_deltas(old(self).tree@)) ==> prefixes_nonneg(
                tree_deltas(final(self).tree@),
            ),
    {
        let ghost v = views(tokens@);
        let ghost n = tokens@.len() as int;
        let ghost t = self.tokens_pos as int;
        proof {
            assert(v.subrange(t, n).drop_first() =~= v.subrange(t + 1, n));
            assert(v.subrange(t, n)[0] == v[t]);
            assert(total_len(v.subrange(t, n)) == v[t].1 + total_len(v.subrange(t + 1, n)));
        }
        let count = tokens.len();
        let token = &tokens[self.tokens_pos];
        let len = token.len as usize;
        let end = self.input_pos + len;
        let text = input.substring_char(self.input_pos, end).to_owned();
        let kind = SyntaxKind::from(token.kind);
        let ghost old_tree = self.tree@;
        let leaf = TreeEvent::Leaf { kind, text };
        self.tree.push(leaf);
        proof {
            if lead_ok(old_tree, tokens@, t) {
                assert forall|k: int| 0 < k < self.tree@.len() - 1 && #[trigger] self.tree@[k] is Enter
                    implies !is_space_leaf(self.tree@[k + 1]) by {
                    if k < old_tree.len() - 1 {
                        assert(self.tree@[k] == old_tree[k]);
                        assert(self.tree@[k + 1] == old_tree[k + 1]);
                    } else {
                        assert(self.tree@[k] == old_tree.last());
                        assert(kind == kind_of_token(tokens@[t].kind));
                    }
                }
            }
            lemma_node_kinds_push(old_tree, leaf);
            assert(self.tree@.drop_last() =~= old_tree);
            assert(old_tree.is_prefix_of(self.tree@));
            if old_tree.len() > 0 && inside_first(tree_deltas(old_tree)) {
                lemma_tree_push_leaf_inside(old_tree, leaf);
            }
            lemma_leaf_push(old_tree, leaf);
            lemma_tree_push(old_tree, leaf);
            assert(input@.subrange(0, end as int) =~= input@.subrange(0, self.input_pos as int)
                + input@.subrange(self.input_pos as int, end as int));
            assert(v.subrange(0, t + 1) =~= v.subrange(0, t).push(v[t]));
            assert(lexed_kinds(v.subrange(0, t + 1)) =~= lexed_kinds(v.subrange(0, t)).push(
                kind_of_token(v[t].0),
            ));
        }
        self.input_pos = end;
        self.tokens_pos = self.tokens_pos + 1;
    }

    /// Emits the whitespace tokens that come next as leaves.
    fn eat_whitespace(&mut self, input: &str, tokens: &Vec<Lexeme>)
        requires
            old(self).inv(input@, tokens@),
        ensures
            final(self).inv(input@, tokens@),
            final(self).errors == old(self).errors,
            sum(tree_deltas(final(self).tree@)) == sum(tree_deltas(old(self).tree@)),
            old(self).tree@.is_prefix_of(final(self).tree@),
            node_kinds(final(self).tree@) == node_kinds(old(self).tree@),
            lead_ok(old(self).tree@, tokens@, old(self).tokens_pos as int) ==> lead_ok(
                final(self).tree@,
                tokens@,
                final(self).tokens_pos as int,
            ),
            old(self).tree@.len() > 0 && inside_first(tree_deltas(old(self).tree@)) ==> inside_first(
                tree_deltas(final(self).tree@),
            ),
            prefixes_nonneg(tree_deltas(old(self).tree@)) ==> prefixes_nonneg(
                tree_deltas(final(self).tree@),
            ),
            old(self).tokens_pos <= final(self).tokens_pos,
            forall|k: int|
                old(self).tokens_pos <= k < final(self).tokens_pos ==> #[trigger] tokens@[k].kind
                    == TokenKind::Whitespace,
            final(self).tokens_pos == tokens@.len() || tokens@[final(self).tokens_pos as int].kind
                != TokenKind::Whitespace,
            skeleton(final(self).tree@) == skeleton(old(self).tree@),
            suffix_sig(tokens@, final(self).tokens_pos as int) == suffix_sig(
                tokens@,
                old(self).tokens_pos as int,
            ),
            old(self).input_pos <= final(self).input_pos,
    {
        while self.tokens_pos < tokens.len() && tokens[self.tokens_pos].kind == TokenKind::Whitespace
            invariant
                self.inv(input@, tokens@),
                self.errors == old(self).errors,
                sum(tree_deltas(self.tree@)) == sum(tree_deltas(old(self).tree@)),
                old(self).tree@.is_prefix_of(self.tree@),
                node_kinds(self.tree@) == node_kinds(old(self).tree@),
                lead_ok(old(self).tree@, tokens@, old(self).tokens_pos as int) ==> lead_ok(
                    self.tree@,
                    tokens@,
                    self.tokens_pos as int,
                ),
                old(self).tree@.len() > 0 && inside_first(tree_deltas(old(self).tree@)) ==> inside_first(
                    tree_deltas(self.tree@),
                ),
                prefixes_nonneg(tree_deltas(old(self).tree@)) ==> prefixes_nonneg(
                    tree_deltas(self.tree@),
                ),
                old(self).tokens_pos <= self.tokens_pos,
                forall|k: int|
                    old(self).tokens_pos <= k < self.tokens_pos ==> #[trigger] tokens@[k].kind
                        == TokenKind::Whitespace,
                skeleton(self.tree@) == skeleton(old(self).tree@),
                suffix_sig(tokens@, self.tokens_pos as int) == suffix_sig(
                    tokens@,
                    old(self).tokens_pos as int,
                ),
                old(self).input_pos <= self.input_pos,
            decreases tokens@.len() - self.tokens_pos,
        {
            proof {
                lemma_significant_front(views(tokens@), self.tokens_pos as int);
            }
            self.do_token(input, tokens);
        }
    }

    /// Emits every token that is left as a leaf.
    fn eat_rest(&mut self, input: &str, tokens: &Vec<Lexeme>)
        requires
            old(self).inv(input@, tokens@),
        ensures
            final(self).inv(input@, tokens@),
            final(self).tokens_pos == tokens@.len(),
            final(self).errors == old(self).errors,
            old(self).tokens_pos == tokens@.len() ==> final(self).tree@ == old(self).tree@,
            sum(tree_deltas(final(self).tree@)) == sum(tree_deltas(old(self).tree@)),
            old(self).tree@.is_prefix_of(final(self).tree@),
            node_kinds(final(self).tree@) == node_kinds(old(self).tree@),
            lead_ok(old(self).tree@, tokens@, old(self).tokens_pos as int) ==> lead_ok(
                final(self).tree@,
                tokens@,
                final(self).tokens_pos as int,
            ),
            old(self).tree@.len() > 0 && inside_first(tree_deltas(old(self).tree@)) ==> inside_first(
                tree_deltas(final(self).tree@),
            ),
            prefixes_nonneg(tree_deltas(old(self).tree@)) ==> prefixes_nonneg(
                tree_deltas(final(self).tree@),
            ),
            suffix_sig(tokens@, old(self).tokens_pos as int) == Seq::<SyntaxKind>::empty()
                ==> skeleton(final(self).tree@) == skeleton(old(self).tree@),
            old(self).input_pos <= final(self).input_pos,
    {
        while self.tokens_pos < tokens.len()
            invariant
                self.inv(input@, tokens@),
                self.errors == old(self).errors,
                sum(tree_deltas(self.tree@)) == sum(tree_deltas(old(self).tree@)),
                old(self).tree@.is_prefix_of(self.tree@),
                node_kinds(self.tree@) == node_kinds(old(self).tree@),
                lead_ok(old(self).tree@, tokens@, old(self).tokens_pos as int) ==> lead_ok(
                    self.tree@,
                    tokens@,
                    self.tokens_pos as int,
                ),
                old(self).tree@.len() > 0 && inside_first(tree_deltas(old(self).tree@)) ==> inside_first(
                    tree_deltas(self.tree@),
                ),
                prefixes_nonneg(tree_deltas(old(self).tree@)) ==> prefixes_nonneg(
                    tree_deltas(self.tree@),
                ),
                self.tokens_pos >= old(self).tokens_pos,
                old(self).tokens_pos == tokens@.len() ==> self.tree@ == old(self).tree@,
                suffix_sig(tokens@, old(self).tokens_pos as int) == Seq::<SyntaxKind>::empty()
                    ==> suffix_sig(tokens@, self.tokens_pos as int) == Seq::<SyntaxKind>::empty()
                    && skeleton(self.tree@) == skeleton(old(self).tree@),
                old(self).input_pos <= self.input_pos,
            decreases tokens@.len() - self.tokens_pos,
        {
            proof {
                lemma_significant_front(views(tokens@), self.tokens_pos as int);
            }
            self.do_token(input, tokens);
        }
    }

    /// Emits a significant token, after the whitespace that precedes it.
    fn token(&mut self, input: &str, tokens: &Vec<Lexeme>)
        requires
            old(self).inv(input@, tokens@),
        ensures
            final(self).inv(input@, tokens@),
            final(self).errors == old(self).errors,
            sum(tree_deltas(final(self).tree@)) == sum(tree_deltas(old(self).tree@)),
            old(self).tree@.is_prefix_of(final(self).tree@),
            node_kinds(final(self).tree@) == node_kinds(old(self).tree@),
            lead_ok(old(self).tree@, tokens@, old(self).tokens_pos as int) ==> lead_ok(
                final(self).tree@,
                tokens@,
                final(self).tokens_pos as int,
            ),
            old(self).tree@.len() > 0 && inside_first(tree_deltas(old(self).tree@)) ==> inside_first(
                tree_deltas(final(self).tree@),
            ),
            prefixes_nonneg(tree_deltas(old(self).tree@)) ==> prefixes_nonneg(
                tree_deltas(final(self).tree@),
            ),
            old(self).tokens_pos <= final(self).tokens_pos,
            forall|k: int|
                old(self).tokens_pos <= k < final(self).tokens_pos - 1 ==> #[trigger] tokens@[k].kind
                    == TokenKind::Whitespace,
            final(self).tokens_pos == tokens@.len() || (old(self).tokens_pos < final(self).tokens_pos
                && tokens@[final(self).tokens_pos - 1].kind != TokenKind::Whitespace),
            suffix_sig(tokens@, old(self).tokens_pos as int).len() > 0 ==> skeleton(
                final(self).tree@,
            ) == skeleton(old(self).tree@).push(
                Step::Token(suffix_sig(tokens@, old(self).tokens_pos as int)[0]),
            ) && suffix_sig(tokens@, final(self).tokens_pos as int) == suffix_sig(
                tokens@,
                old(self).tokens_pos as int,
            ).drop_first(),
            old(self).input_pos <= final(self).input_pos,
    {
        self.eat_whitespace(input, tokens);
        proof {
            if self.tokens_pos == tokens@.len() {
                assert(views(tokens@).subrange(self.tokens_pos as int, tokens@.len() as int)
                    =~= Seq::<(TokenKind, nat)>::empty());
                assert(significant_kinds(Seq::<(TokenKind, nat)>::empty()) =~= Seq::<SyntaxKind>::empty());
            } else {
                lemma_significant_front(views(tokens@), self.tokens_pos as int);
            }
        }
        if self.tokens_pos < tokens.len() {
            self.do_token(input, tokens);
        }
    }

    fn start_node(&mut self, kind: SyntaxKind)
        ensures
            final(self).tree@ == old(self).tree@.push(TreeEvent::Enter(kind)),
            final(self).errors == old(self).errors,
            final(self).tokens_pos == old(self).tokens_pos,
            final(self).input_pos == old(self).input_pos,
    {
        self.tree.push(TreeEvent::Enter(kind));
    }

    fn finish_node(&mut self)
        ensures
            final(self).tree@ == old(self).tree@.push(TreeEvent::Exit),
            final(self).errors == old(self).errors,
            final(self).tokens_pos == old(self).tokens_pos,
            final(self).input_pos == old(self).input_pos,
    {
        self.tree.push(TreeEvent::Exit);
    }
}

/// Replays steps with the token stream measured in characters.
fn replay(input: &str, tokens: &Vec<Lexeme>, steps: &Vec<Step>) -> (r: Parse)
    requires
        total_len(views(tokens@)) == input@.len(),
        input@.len() < usize::MAX,
    ensures
        leaf_text(r.tree@) == input@,
        leaf_kinds(r.tree@) == lexed_kinds(views(tokens@)),
        r.errors@.map_values(|e: SyntaxError| e.message) == step_errors(steps@),
        steps_nested(steps@) ==> tree_nested(r.tree@),
        steps@.len() > 0 && steps@[0] is Start ==> r.tree@.len() > 0 && r.tree@[0]
            == TreeEvent::Enter(steps@[0]->Start_0),
        single_step_node(steps@) ==> single_tree(r.tree@),
        node_kinds(r.tree@) == step_starts(steps@),
        single_step_node(steps@) ==> no_leading_space(r.tree@),
        step_tokens(steps@) == significant_kinds(views(tokens@)) && single_step_node(steps@)
            ==> skeleton(r.tree@) == step_skeleton(steps@),
        offsets_in_order(r.errors@, input@.len()),
{
    let mut b = Builder::new();
    proof {
        assert(views(tokens@).subrange(0, tokens@.len() as int) =~= views(tokens@));
        assert(input@.subrange(0, 0) =~= seq![]);
        assert(views(tokens@).subrange(0, 0) =~= seq![]);
        assert(lexed_kinds(seq![]) =~= seq![]);
        assert(steps@.subrange(0, steps@.len() as int) =~= steps@);
        assert(steps@.subrange(0, 0) =~= Seq::<Step>::empty());
        assert(tree_deltas(b.tree@) =~= Seq::<int>::empty());
        assert(step_deltas(steps@.subrange(0, 0)) =~= Seq::<int>::empty());
        assert forall|k: int| 0 <= k <= 0 implies sum(
            #[trigger] tree_deltas(b.tree@).subrange(0, k),
        ) >= 0 by {
            assert(tree_deltas(b.tree@).subrange(0, k) =~= Seq::<int>::empty());
        }
    }
    let mut depth: usize = 0;
    let mut i: usize = 0;
    while i < steps.len()
        invariant
            b.inv(input@, tokens@),
            depth <= i <= steps@.len(),
            b.errors@.map_values(|e: SyntaxError| e.message) == step_errors(steps@.subrange(0, i as int)),
            sum(tree_deltas(b.tree@)) == sum(step_deltas(steps@.subrange(0, i as int))),
            steps_nested(steps@) ==> prefixes_nonneg(tree_deltas(b.tree@)),
            i > 0 && steps@[0] is Start ==> b.tree@.len() > 0 && b.tree@[0] == TreeEvent::Enter(
                steps@[0]->Start_0,
            ),
            i == 0 ==> b.tree@.len() == 0,
            node_kinds(b.tree@) == step_starts(steps@.subrange(0, i as int)),
            single_step_node(steps@) ==> lead_ok(b.tree@, tokens@, b.tokens_pos as int),
            forall|m: int| 0 <= m < b.errors@.len() ==> #[trigger] b.errors@[m].offset <= b.input_pos,
            offsets_in_order(b.errors@, input@.len()),
            step_tokens(steps@) == significant_kinds(views(tokens@)) && single_step_node(steps@) ==> skeleton(b.tree@) == step_skeleton(
                steps@.subrange(0, i as int),
            ) && suffix_sig(tokens@, b.tokens_pos as int) == step_tokens(
                steps@.subrange(i as int, steps@.len() as int),
            ),
            steps_nested(steps@) ==> depth as int == sum(step_deltas(steps@.subrange(0, i as int))),
            single_step_node(steps@) && 0 < i < steps@.len() ==> b.tree@.len() > 0 && inside_first(
                tree_deltas(b.tree@),
            ),
            single_step_node(steps@) && i == steps@.len() ==> b.tokens_pos == tokens@.len()
                && b.tree@.len() > 0 && b.tree@.last() == TreeEvent::Exit && inside_first(
                tree_deltas(b.tree@.drop_last()),
            ),
        decreases steps@.len() - i,
    {
        let ghost t0 = b.tree@;
        let ghost rooted = single_step_node(steps@);
        let ghost aligned = step_tokens(steps@) == significant_kinds(views(tokens@)) && single_step_node(steps@);
        proof {
            lemma_step_tokens_front(steps@, i as int);
            assert(steps@.subrange(0, i + 1).drop_last() =~= steps@.subrange(0, i as int));
            assert(steps@.subrange(0, i + 1).last() == steps@[i as int]);
        }
        let ghost n = steps@.len() as int;
        proof {
            if steps_nested(steps@) || rooted {
                assert(step_deltas(steps@).subrange(0, n) =~= step_deltas(steps@));
                assert(step_deltas(steps@.subrange(0, n)) =~= step_deltas(steps@));
            }
            if rooted && i > 0 {
                assert(step_deltas(steps@).subrange(0, i as int) =~= step_deltas(steps@.subrange(0, i as int)));
                assert(sum(step_deltas(steps@.subrange(0, i as int))) >= 1);
                assert(tree_deltas(t0).subrange(0, t0.len() as int) =~= tree_deltas(t0));
            }
            if rooted {
                assert(steps@.subrange(0, 1) =~= seq![steps@[0]]);
            }
        }
        let ghost errs = b.errors@;
        let ghost sd = step_deltas(steps@.subrange(0, i + 1));
        proof {
            assert(steps@.subrange(0, i + 1).drop_last() =~= steps@.subrange(0, i as int));
            assert(sd =~= step_deltas(steps@.subrange(0, i as int)).push(step_delta(steps@[i as int])));
            assert(sd.drop_last() =~= step_deltas(steps@.subrange(0, i as int)));
            assert(step_deltas(steps@).subrange(0, i + 1) =~= sd);
        }
        match &steps[i] {
            Step::Start(kind) => {
                if depth > 0 {
                    b.eat_whitespace(input, tokens);
                }
                let ghost t = b.tree@;
                b.start_node(*kind);
                proof {
                    lemma_skeleton_push(t, TreeEvent::Enter(*kind));
                    lemma_leaf_push(t, TreeEvent::Enter(*kind));
                    lemma_node_kinds_push(t, TreeEvent::Enter(*kind));
                    if rooted {
                        assert forall|k: int| 0 < k < b.tree@.len() - 1 && #[trigger] b.tree@[k] is Enter
                            implies !is_space_leaf(b.tree@[k + 1]) by {
                            assert(b.tree@[k] == t[k]);
                            if k + 1 < t.len() {
                                assert(b.tree@[k + 1] == t[k + 1]);
                            }
                        }
                    }
                    lemma_tree_push(t, TreeEvent::Enter(*kind));
                    if rooted {
                        if i == 0 {
                            assert(tree_deltas(t) =~= Seq::<int>::empty());
                        } else {
                            assert(tree_deltas(t).subrange(0, t.len() as int) =~= tree_deltas(t));
                        }
                        lemma_tree_push_inside(t, TreeEvent::Enter(*kind));
                    }
                }
                depth = depth + 1;
            },
            Step::Finish => {
                proof {
                    if rooted && i + 1 < n {
                        assert(step_deltas(steps@).subrange(0, i + 1) =~= sd);
                    }
                    if aligned && depth == 1 {
                        assert(i + 1 == n);
                        assert(steps@.subrange(i + 1, n) =~= Seq::<Step>::empty());
                        assert(step_tokens(Seq::<Step>::empty()) =~= Seq::<SyntaxKind>::empty());
                    }
                }
                if depth == 1 {
                    b.eat_rest(input, tokens);
                }
                let ghost t = b.tree@;
                b.finish_node();
                proof {
                    lemma_skeleton_push(t, TreeEvent::Exit);
                    if aligned && depth == 1 {
                        assert(views(tokens@).subrange(tokens@.len() as int, tokens@.len() as int)
                            =~= Seq::<(TokenKind, nat)>::empty());
                        assert(significant_kinds(Seq::<(TokenKind, nat)>::empty())
                            =~= Seq::<SyntaxKind>::empty());
                    }
                    lemma_leaf_push(t, TreeEvent::Exit);
                    lemma_node_kinds_push(t, TreeEvent::Exit);
                    if rooted {
                        assert forall|k: int| 0 < k < b.tree@.len() - 1 && #[trigger] b.tree@[k] is Enter
                            implies !is_space_leaf(b.tree@[k + 1]) by {
                            assert(b.tree@[k] == t[k]);
                            if k < t.len() - 1 {
                                assert(b.tree@[k + 1] == t[k + 1]);
                            }
                        }
                    }
                    lemma_tree_push(t, TreeEvent::Exit);
                    if rooted && i + 1 < n {
                        assert(step_deltas(steps@).subrange(0, i + 1) =~= sd);
                        assert(tree_deltas(t).subrange(0, t.len() as int) =~= tree_deltas(t));
                        lemma_tree_push_inside(t, TreeEvent::Exit);
                    }
                    if rooted && i + 1 == n {
                        assert(b.tree@.drop_last() =~= t);
                    }
                }
                if depth > 0 {
                    depth = depth - 1;
                }
            },
            Step::Token(k) => {
                b.token(input, tokens);
                proof {
                    if aligned {
                        let rest = step_tokens(steps@.subrange(i + 1, steps@.len() as int));
                        assert(seq![*k] + rest == step_tokens(steps@.subrange(i as int, steps@.len() as int)));
                        assert((seq![*k] + rest)[0] == *k);
                        assert((seq![*k] + rest).drop_first() =~= rest);
                    }
                }
            },
            Step::Error(message) => {
                let ghost t = b.tree@;
                let ghost e0 = b.errors@;
                b.errors.push(SyntaxError { message: message.clone(), offset: b.input_pos });
                proof {
                    assert forall|a: int, c: int|
                        0 <= a < c < b.errors@.len() implies #[trigger] b.errors@[a].offset
                        <= #[trigger] b.errors@[c].offset by {
                        if c == e0.len() {
                            assert(b.errors@[a] == e0[a]);
                        } else {
                            assert(b.errors@[a] == e0[a]);
                            assert(b.errors@[c] == e0[c]);
                        }
                    }
                    assert forall|m: int| 0 <= m < b.errors@.len() implies #[trigger] b.errors@[m].offset
                        <= input@.len() by {
                        if m < e0.len() {
                            assert(b.errors@[m] == e0[m]);
                        }
                    }
                }
                proof {
                    assert(b.errors@.map_values(|e: SyntaxError| e.message) =~= errs.map_values(
                        |e: SyntaxError| e.message,
                    ).push(*message));
                }
            },
        }
        proof {
            if aligned {
                assert(Seq::<SyntaxKind>::empty() + step_tokens(
                    steps@.subrange(i + 1, steps@.len() as int),
                ) =~= step_tokens(steps@.subrange(i + 1, steps@.len() as int)));
            }
            if i > 0 && t0.len() > 0 {
                assert(t0.is_prefix_of(b.tree@) ==> b.tree@[0] == t0[0]);
            }
        }
        i = i + 1;
    }
    let ghost t1 = b.tree@;
    b.eat_rest(input, tokens);
    assert(steps@.subrange(0, steps@.len() as int) =~= steps@);
    proof {
        if t1.len() > 0 {
            assert(b.tree@[0] == t1[0]);
        }
        if single_step_node(steps@) {
            let t = b.tree@;
            let d = tree_deltas(t);
            assert(t == t1);
            assert forall|k: int| 0 < k < d.len() implies sum(#[trigger] d.subrange(0, k)) >= 1 by {
                assert(d.subrange(0, k) =~= tree_deltas(t.drop_last()).subrange(0, k));
            }
            if t.len() == 1 {
                assert(t[0] == t.last());
            }
        }
    }
    proof {
        assert(steps@.subrange(0, steps@.len() as int) =~= steps@);
        assert(input@.subrange(0, input@.len() as int) =~= input@);
        assert(views(tokens@).subrange(0, tokens@.len() as int) =~= views(tokens@));
        assert(views(tokens@).subrange(tokens@.len() as int, tokens@.len() as int) =~= seq![]);
    }
    Parse { tree: b.tree, errors: b.errors }
}

/// Builds the tree of `input` from the flattened steps of a parse, replayed
/// together with the full token stream of `input`. Whitespace before a node's first token stays outside the
/// node (the outermost node excepted; stated as `no_leading_space` for steps
/// that form one node); whitespace after the last significant token goes
/// inside the outermost node, before it closes. Every token becomes
/// exactly one leaf, in order, holding its exact text, so the leaves spell the
/// input whatever the steps are.
pub fn build(input: &str, steps: &Vec<Step>) -> (r: Parse)
    requires
        byte_len(input@) < u32::MAX,
    ensures
        leaf_text(r.tree@) == input@,
        leaf_kinds(r.tree@) == lexed_kinds(lex(input@)),
        r.errors@.map_values(|e: SyntaxError| e.message) == step_errors(steps@),
        steps_nested(steps@) ==> tree_nested(r.tree@),
        steps@.len() > 0 && steps@[0] is Start ==> r.tree@.len() > 0 && r.tree@[0]
            == TreeEvent::Enter(steps@[0]->Start_0),
        single_step_node(steps@) ==> single_tree(r.tree@),
        node_kinds(r.tree@) == step_starts(steps@),
        single_step_node(steps@) ==> no_leading_space(r.tree@),
        step_tokens(steps@) == significant_kinds(lex(input@)) && single_step_node(steps@)
            ==> skeleton(r.tree@) == step_skeleton(steps@),
        offsets_in_order(r.errors@, input@.len()),
{
    let tokens = lexemes(input);
    proof {
        lemma_lex_covers_input(input@);
        lemma_byte_len_at_least(input@);
    }
    replay(input, &tokens, steps)
}

/// The kinds of a token sequence without its trivia, in the unified space.
pub open spec fn significant_kinds(t: Seq<(TokenKind, nat)>) -> Seq<SyntaxKind>
    decreases t.len(),
{
    if t.len() == 0 {
        seq![]
    } else {
        let init = significant_kinds(t.drop_last());
        if t.last().0 == TokenKind::Whitespace {
            init
        } else {
            init.push(kind_of_token(t.last().0))
        }
    }
}

/// A token sequence without the end of input has no `EOF` among its significant kinds.
proof fn lemma_significant_no_eof(t: Seq<(TokenKind, nat)>)
    requires
        forall|k: int| 0 <= k < t.len() ==> #[trigger] t[k].0 != TokenKind::Eof,
    ensures
        forall|j: int|
            0 <= j < significant_kinds(t).len() ==> #[trigger] significant_kinds(t)[j]
                != SyntaxKind::EOF,
    decreases t.len(),
{
    if t.len() > 0 {
        assert forall|k: int| 0 <= k < t.drop_last().len() implies #[trigger] t.drop_last()[k].0
            != TokenKind::Eof by {
            assert(t.drop_last()[k] == t[k]);
        }
        lemma_significant_no_eof(t.drop_last());
        assert(t.last() == t[t.len() - 1]);
    }
}

/// Token sequences with the same kinds have the same significant kinds.
proof fn lemma_significant_same(a: Seq<(TokenKind, nat)>, b: Seq<(TokenKind, nat)>)
    requires
        a.len() == b.len(),
        forall|k: int| 0 <= k < a.len() ==> #[trigger] a[k].0 == b[k].0,
    ensures
        significant_kinds(a) == significant_kinds(b),
    decreases a.len(),
{
    if a.len() > 0 {
        lemma_significant_same(a.drop_last(), b.drop_last());
        assert(a.last().0 == b.last().0);
    }
}

/// The token stream that the parser reads: the tokens without whitespace,
/// each as its kind and length.
pub struct Input {
    tokens: Vec<(SyntaxKind, u32)>,
}

impl Input {
    pub closed spec fn kinds_view(&self) -> Seq<SyntaxKind> {
        self.tokens@.map_values(|t: (SyntaxKind, u32)| t.0)
    }

    /// Drops the whitespace tokens of a lexed stream.
    pub fn new(tokens: &Vec<Token>) -> (r: Input)
        ensures
            r.kinds_view() == significant_kinds(token_views(tokens@)),
    {
        let mut kept: Vec<(SyntaxKind, u32)> = Vec::new();
        let mut i: usize = 0;
        while i < tokens.len()
            invariant
                i <= tokens@.len(),
                kept@.map_values(|t: (SyntaxKind, u32)| t.0) == significant_kinds(
                    token_views(tokens@).subrange(0, i as int),
                ),
            decreases tokens@.len() - i,
        {
            let ghost before = kept@;
            let ghost v = token_views(tokens@);
            proof {
                assert(v.subrange(0, i + 1).drop_last() =~= v.subrange(0, i as int));
            }
            if tokens[i].kind != TokenKind::Whitespace {
                kept.push((SyntaxKind::from(tokens[i].kind), tokens[i].len));
                proof {
                    assert(kept@.map_values(|t: (SyntaxKind, u32)| t.0) =~= before.map_values(
                        |t: (SyntaxKind, u32)| t.0,
                    ).push(kind_of_token(tokens@[i as int].kind)));
                }
            }
            i = i + 1;
        }
        proof {
            assert(token_views(tokens@).subrange(0, tokens@.len() as int) =~= token_views(tokens@));
        }
        Input { tokens: kept }
    }

    /// The kinds of the tokens, in order.
    pub fn kinds(&self) -> (r: Vec<SyntaxKind>)
        ensures
            r@ == self.kinds_view(),
    {
        let mut r: Vec<SyntaxKind> = Vec::new();
        let mut i: usize = 0;
        while i < self.tokens.len()
            invariant
                i <= self.tokens@.len(),
                r@ == self.tokens@.subrange(0, i as int).map_values(|t: (SyntaxKind, u32)| t.0),
            decreases self.tokens@.len() - i,
        {
            r.push(self.tokens[i].0);
            i = i + 1;
            proof {
                assert(r@ =~= self.tokens@.subrange(0, i as int).map_values(
                    |t: (SyntaxKind, u32)| t.0,
                ));
            }
        }
        proof {
            assert(self.tokens@.subrange(0, i as int) =~= self.tokens@);
        }
        r
    }
}

/// Parses a text into its lossless tree and the diagnostics. The leaves spell
/// the input exactly, and they are its tokens, in order.
pub fn parse(input: &str) -> (r: Parse)
    requires
        byte_len(input@) < u32::MAX,
    ensures
        leaf_text(r.tree@) == input@,
        leaf_kinds(r.tree@) == lexed_kinds(lex(input@)),
        single_tree(r.tree@),
        r.tree@[0] == TreeEvent::Enter(SyntaxKind::PROGRAM),
        r.errors@.map_values(|e: SyntaxError| e.message@) == view_errors(
            program_events(significant_kinds(lex(input@)), 0),
        ),
        node_kinds(r.tree@) == view_starts(program_events(significant_kinds(lex(input@)), 0)),
        no_leading_space(r.tree@),
        skeleton(r.tree@) == view_skeleton(program_events(significant_kinds(lex(input@)), 0)),
        offsets_in_order(r.errors@, input@.len()),
{
    let tokens = tokenize(input);
    proof {
        lemma_tokens_cover_input(input@);
        assert(token_views(tokens@) =~= lex_bytes(input@));
        assert forall|k: int| 0 <= k < lex_bytes(input@).len() implies #[trigger] lex_bytes(
            input@,
        )[k].0 == lex(input@)[k].0 by {
            assert(lex_bytes(input@)[k].1 >= 1);
        }
        lemma_significant_same(lex_bytes(input@), lex(input@));
    }
    let significant = Input::new(&tokens);
    let mut p = Parser::new(significant.kinds());
    program(&mut p);
    proof {
        p.lemma_log_tokens();
        p.lemma_cursor_in_range();
        lemma_lex_from_no_eof(input@, 0);
        lemma_significant_no_eof(lex(input@));
        if p.cursor() < p.kinds().len() {
            assert(p.kinds()[p.cursor() as int] != SyntaxKind::EOF);
        }
        assert(p.kinds().subrange(0, p.cursor() as int) =~= p.kinds());
    }
    let events = p.finish();
    proof {
        assert(events@.subrange(0, 0) =~= Seq::<StepEvent>::empty());
        assert(events@.subrange(0, events@.len() as int) =~= events@);
    }
    let steps = flatten(&events);
    proof {
        lemma_plain_steps_single(events@);
        lemma_plain_steps_first(events@);
    }
    let r = build(input, &steps);
    proof {
        lemma_error_messages_view(events@);
        lemma_plain_steps_starts(events@);
        lemma_plain_steps_skeleton(events@);
        assert(log_view(Seq::<StepEvent>::empty()) =~= Seq::<EventView>::empty());
        assert(log_view(events@) =~= program_events(significant_kinds(lex(input@)), 0));
        assert(r.errors@.map_values(|e: SyntaxError| e.message@) =~= r.errors@.map_values(
            |e: SyntaxError| e.message,
        ).map_values(|m: String| m@));
    }
    r
}

} // verus!
