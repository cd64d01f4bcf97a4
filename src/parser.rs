use vstd::prelude::*;

use crate::event::{lemma_token_kinds_push, lemma_token_kinds_update, token_kinds, StepEvent};
use crate::syntax::SyntaxKind;
use drop_bomb::DropBomb;

verus! {

#[verifier::external_type_specification]
#[verifier::external_body]
pub struct ExDropBomb(DropBomb);

/// Relies on drop_bomb::DropBomb::defuse: it disarms the guard; nothing that
/// the proofs read changes.
pub assume_specification[ DropBomb::defuse ](b: &mut DropBomb);

/// Relies on drop_bomb::DropBomb::new: a guard that panics with this message
/// when dropped before it is defused.
#[verifier::external_body]
fn armed_guard() -> DropBomb {
    DropBomb::new("marker must be either completed or abandoned")
}

/// The kind at index `i` of a token stream, or `EOF` past its end.
pub open spec fn kind_at(tokens: Seq<SyntaxKind>, i: int) -> SyntaxKind {
    if 0 <= i < tokens.len() {
        tokens[i]
    } else {
        SyntaxKind::EOF
    }
}

/// The outermost node of the forward-parent chain that starts at `i`: the
/// chain is followed only forward, to `Start` events.
pub open spec fn chain_end(e: Seq<StepEvent>, i: int) -> int
    decreases e.len() - i,
{
    if 0 <= i < e.len() {
        match e[i] {
            StepEvent::Start { forward_parent: Some(f), .. } => {
                if i < f < e.len() && e[f as int] is Start {
                    chain_end(e, f as int)
                } else {
                    i
                }
            },
            _ => i,
        }
    } else {
        i
    }
}

proof fn lemma_chain_end(e: Seq<StepEvent>, i: int)
    requires
        0 <= i < e.len(),
        e[i] is Start,
    ensures
        i <= chain_end(e, i) < e.len(),
        e[chain_end(e, i)] is Start,
    decreases e.len() - i,
{
    match e[i] {
        StepEvent::Start { forward_parent: Some(f), .. } => {
            if i < f < e.len() && e[f as int] is Start {
                lemma_chain_end(e, f as int);
            }
        },
        _ => {},
    }
}

/// A parser over a stream of non-trivia token kinds. It never reads text: it
/// records a log of events that a tree builder replays later.
pub struct Parser {
    tokens: Vec<SyntaxKind>,
    events: Vec<StepEvent>,
    pos: usize,
    open: Ghost<Set<nat>>,
}

impl Parser {
    /// The token kinds that the parser runs over.
    pub closed spec fn kinds(&self) -> Seq<SyntaxKind> {
        self.tokens@
    }

    /// The event log so far.
    pub closed spec fn log(&self) -> Seq<StepEvent> {
        self.events@
    }

    /// The index of the current token.
    pub closed spec fn cursor(&self) -> nat {
        self.pos as nat
    }

    /// Log positions of the markers that are reserved and not yet resolved.
    pub closed spec fn open_markers(&self) -> Set<nat> {
        self.open@
    }

    /// The kind at the cursor.
    pub open spec fn current_kind(&self) -> SyntaxKind {
        kind_at(self.kinds(), self.cursor() as int)
    }

    /// The cursor stays within the stream, the `Token` events replay exactly
    /// the consumed tokens, and each open marker holds a reserved slot.
    pub closed spec fn wf(&self) -> bool {
        &&& self.pos <= self.tokens@.len()
        &&& token_kinds(self.events@) == self.tokens@.subrange(0, self.pos as int)
        &&& self.open@.finite()
        &&& forall|m: nat| #[trigger]
            self.open@.contains(m) ==> m < self.events@.len() && self.events@[m as int]
                is Tombstone
    }

    /// The cursor of a well-formed parser never passes the end of its stream.
    pub proof fn lemma_cursor_in_range(&self)
        requires
            self.wf(),
        ensures
            self.cursor() <= self.kinds().len(),
    {
    }

    /// The `Token` events of a well-formed parser's log are the tokens consumed.
    pub proof fn lemma_log_tokens(&self)
        requires
            self.wf(),
        ensures
            token_kinds(self.log()) == self.kinds().subrange(0, self.cursor() as int),
    {
    }

    pub fn new(tokens: Vec<SyntaxKind>) -> (r: Parser)
        ensures
            r.wf(),
            r.kinds() == tokens@,
            r.log() == Seq::<StepEvent>::empty(),
            r.cursor() == 0,
            r.open_markers() == Set::<nat>::empty(),
    {
        let r = Parser { tokens, events: Vec::new(), pos: 0, open: Ghost(Set::empty()) };
        assert(r.tokens@.subrange(0, 0) =~= seq![]);
        r
    }

    /// The event log, handed over once parsing is done.
    pub fn finish(self) -> (r: Vec<StepEvent>)
        ensures
            r@ == self.log(),
    {
        self.events
    }

    pub fn current(&self) -> (r: SyntaxKind)
        ensures
            r == self.current_kind(),
    {
        self.nth(0)
    }

    /// The kind `n` tokens past the cursor, or `EOF`.
    pub fn nth(&self, n: usize) -> (r: SyntaxKind)
        ensures
            r == kind_at(self.kinds(), self.cursor() + n),
    {
        if self.pos >= self.tokens.len() || n >= self.tokens.len() - self.pos {
            SyntaxKind::EOF
        } else {
            self.tokens[self.pos + n]
        }
    }

    pub fn at(&self, kind: SyntaxKind) -> (r: bool)
        ensures
            r == (self.current_kind() == kind),
    {
        self.nth_at(0, kind)
    }

    pub fn nth_at(&self, n: usize, kind: SyntaxKind) -> (r: bool)
        ensures
            r == (kind_at(self.kinds(), self.cursor() + n) == kind),
    {
        self.nth(n) == kind
    }

    /// Consumes the current token and records it, if there is one and it is of `kind`.
    pub fn eat(&mut self, kind: SyntaxKind) -> (r: bool)
        requires
            old(self).wf(),
        ensures
            final(self).wf(),
            r == (old(self).cursor() < old(self).kinds().len() && old(self).current_kind() == kind),
            final(self).kinds() == old(self).kinds(),
            final(self).open_markers() == old(self).open_markers(),
            r ==> final(self).cursor() == old(self).cursor() + 1 && final(self).log() == old(
                self,
            ).log().push(StepEvent::Token { kind }),
            !r ==> final(self).cursor() == old(self).cursor() && final(self).log() == old(
                self,
            ).log(),
    {
        if self.pos >= self.tokens.len() || !self.at(kind) {
            false
        } else {
            self.do_bump(kind);
            true
        }
    }

    /// Records the current token, which is of `kind`, and moves past it.
    fn do_bump(&mut self, kind: SyntaxKind)
        requires
            old(self).wf(),
            old(self).cursor() < old(self).kinds().len(),
            old(self).kinds()[old(self).cursor() as int] == kind,
        ensures
            final(self).wf(),
            final(self).kinds() == old(self).kinds(),
            final(self).open_markers() == old(self).open_markers(),
            final(self).cursor() == old(self).cursor() + 1,
            final(self).log() == old(self).log().push(StepEvent::Token { kind }),
    {
        let n = self.tokens.len();
        let ghost old_events = self.events@;
        self.push_event(StepEvent::Token { kind });
        proof {
            lemma_token_kinds_push(old_events, StepEvent::Token { kind });
            assert(self.tokens@.subrange(0, self.pos + 1) =~= self.tokens@.subrange(
                0,
                self.pos as int,
            ).push(kind));
        }
        self.pos = self.pos + 1;
    }

    /// Consumes the current token, which the caller has checked to be of `kind`.
    pub fn bump(&mut self, kind: SyntaxKind)
        requires
            old(self).wf(),
            old(self).current_kind() == kind,
            kind != SyntaxKind::EOF,
        ensures
            final(self).wf(),
            final(self).kinds() == old(self).kinds(),
            final(self).open_markers() == old(self).open_markers(),
            final(self).cursor() == old(self).cursor() + 1,
            final(self).log() == old(self).log().push(StepEvent::Token { kind }),
    {
        self.do_bump(kind);
    }

    /// Consumes and records one token, whatever it is; does nothing at the end of input.
    pub fn bump_any(&mut self)
        requires
            old(self).wf(),
        ensures
            final(self).wf(),
            final(self).kinds() == old(self).kinds(),
            final(self).open_markers() == old(self).open_markers(),
            old(self).cursor() < old(self).kinds().len() ==> final(self).cursor() == old(
                self,
            ).cursor() + 1 && final(self).log() == old(self).log().push(
                StepEvent::Token { kind: old(self).current_kind() },
            ),
            old(self).cursor() >= old(self).kinds().len() ==> final(self).cursor() == old(
                self,
            ).cursor() && final(self).log() == old(self).log(),
    {
        if self.pos < self.tokens.len() {
            let kind = self.tokens[self.pos];
            self.do_bump(kind);
        }
    }

    /// Reserves a slot for a node whose kind is decided later.
    pub fn start(&mut self) -> (m: Marker)
        requires
            old(self).wf(),
        ensures
            final(self).wf(),
            final(self).kinds() == old(self).kinds(),
            final(self).cursor() == old(self).cursor(),
            m.pos() == old(self).log().len(),
            !old(self).open_markers().contains(m.pos()),
            final(self).log() == old(self).log().push(StepEvent::Tombstone),
            final(self).open_markers() == old(self).open_markers().insert(m.pos()),
    {
        let pos = self.events.len();
        let ghost old_events = self.events@;
        self.push_event(StepEvent::Tombstone);
        proof {
            lemma_token_kinds_push(old_events, StepEvent::Tombstone);
            self.open@ = self.open@.insert(pos as nat);
        }
        Marker::new(pos)
    }

    /// The current end of the log, to wrap what is parsed from here on later.
    pub fn checkpoint(&self) -> (c: usize)
        ensures
            c == self.log().len(),
    {
        self.events.len()
    }

    /// Opens a node that will enclose the node starting at `checkpoint`: the
    /// outermost node of that node's forward-parent chain gets the new node as
    /// its forward parent, and nothing already recorded moves. `None` when no
    /// node starts at `checkpoint`.
    pub fn start_node_at(&mut self, checkpoint: usize) -> (m: Option<Marker>)
        requires
            old(self).wf(),
        ensures
            final(self).wf(),
            final(self).kinds() == old(self).kinds(),
            final(self).cursor() == old(self).cursor(),
            m is Some <==> (checkpoint < old(self).log().len() && old(self).log()[checkpoint as int]
                is Start),
            m is None ==> final(self).log() == old(self).log() && final(self).open_markers()
                == old(self).open_markers(),
            m matches Some(mk) ==> {
                let end = chain_end(old(self).log(), checkpoint as int);
                &&& mk.pos() == old(self).log().len()
                &&& !old(self).open_markers().contains(mk.pos())
                &&& final(self).open_markers() == old(self).open_markers().insert(mk.pos())
                &&& final(self).log() == old(self).log().update(
                    end,
                    StepEvent::Start {
                        kind: old(self).log()[end]->Start_kind,
                        forward_parent: Some(mk.pos() as usize),
                    },
                ).push(StepEvent::Tombstone)
            },
    {
        if checkpoint >= self.events.len() {
            return None;
        }
        match &self.events[checkpoint] {
            StepEvent::Start { .. } => {},
            _ => {
                return None;
            },
        }
        let n = self.events.len();
        let mut idx = checkpoint;
        proof {
            lemma_chain_end(self.events@, checkpoint as int);
        }
        loop
            invariant
                checkpoint <= idx < n,
                n == self.events@.len(),
                self.events@[idx as int] is Start,
                chain_end(self.events@, idx as int) == chain_end(self.events@, checkpoint as int),
            ensures
                checkpoint <= idx < n,
                self.events@[idx as int] is Start,
                chain_end(self.events@, idx as int) == idx as int,
                chain_end(self.events@, idx as int) == chain_end(self.events@, checkpoint as int),
            decreases n - idx,
        {
            match &self.events[idx] {
                StepEvent::Start { forward_parent: Some(f), .. } => {
                    let f = *f;
                    if idx < f && f < n {
                        match &self.events[f] {
                            StepEvent::Start { .. } => {
                                idx = f;
                            },
                            _ => {
                                break;
                            },
                        }
                    } else {
                        break;
                    }
                },
                _ => {
                    break;
                },
            }
        }
        let kind = match &self.events[idx] {
            StepEvent::Start { kind, .. } => *kind,
            _ => SyntaxKind::ERROR,
        };
        let m = self.start();
        let ghost e0 = self.events@;
        let start = StepEvent::Start { kind, forward_parent: Some(n) };
        self.events.set(idx, start);
        proof {
            lemma_token_kinds_update(e0, idx as int, start);
            assert forall|q: nat| #[trigger]
                self.open@.contains(q) implies q < self.events@.len() && self.events@[q as int]
                is Tombstone by {
                assert(q != idx);
            }
            assert(self.events@ =~= old(self).events@.update(idx as int, start).push(
                StepEvent::Tombstone,
            ));
        }
        Some(m)
    }

    fn push_event(&mut self, event: StepEvent)
        ensures
            final(self).tokens == old(self).tokens,
            final(self).pos == old(self).pos,
            final(self).open == old(self).open,
            final(self).events@ == old(self).events@.push(event),
    {
        self.events.push(event);
    }

    /// Records a diagnostic at the current position; consumes nothing.
    pub fn error(&mut self, message: &str)
        requires
            old(self).wf(),
        ensures
            final(self).wf(),
            final(self).kinds() == old(self).kinds(),
            final(self).cursor() == old(self).cursor(),
            final(self).open_markers() == old(self).open_markers(),
            final(self).log().len() == old(self).log().len() + 1,
            final(self).log().last() matches StepEvent::Error { message: msg } && msg@
                == message@,
            final(self).log().drop_last() == old(self).log(),
    {
        let ghost old_events = self.events@;
        let event = StepEvent::Error { message: message.to_owned() };
        self.push_event(event);
        proof {
            lemma_token_kinds_push(old_events, event);
            assert(self.events@.drop_last() =~= old_events);
        }
    }
}

/// A reserved, not yet resolved, node start.
pub struct Marker {
    pos: usize,
    bomb: DropBomb,
}

impl Marker {
    pub closed spec fn pos(&self) -> nat {
        self.pos as nat
    }

    pub(crate) fn new(pos: usize) -> (m: Marker)
        ensures
            m.pos() == pos,
    {
        Marker { pos, bomb: armed_guard() }
    }

    /// Turns the reserved slot into the start of a node of `kind` that ends here.
    pub fn complete(self, p: &mut Parser, kind: SyntaxKind) -> (c: CompletedMarker)
        requires
            old(p).wf(),
            old(p).open_markers().contains(self.pos()),
        ensures
            final(p).wf(),
            final(p).kinds() == old(p).kinds(),
            final(p).cursor() == old(p).cursor(),
            final(p).open_markers() == old(p).open_markers().remove(self.pos()),
            final(p).log() == old(p).log().update(
                self.pos() as int,
                StepEvent::Start { kind, forward_parent: None },
            ).push(StepEvent::Finish),
            c.pos() == self.pos(),
            c.kind() == kind,
    {
        let mut bomb = self.bomb;
        bomb.defuse();
        let ghost e0 = p.events@;
        let start = StepEvent::Start { kind, forward_parent: None };
        p.events.set(self.pos, start);
        proof {
            lemma_token_kinds_update(e0, self.pos as int, start);
        }
        let ghost e1 = p.events@;
        p.push_event(StepEvent::Finish);
        proof {
            lemma_token_kinds_push(e1, StepEvent::Finish);
            p.open@ = p.open@.remove(self.pos as nat);
            assert forall|m: nat| #[trigger]
                p.open@.contains(m) implies m < p.events@.len() && p.events@[m as int]
                is Tombstone by {
                assert(old(p).open@.contains(m));
            }
        }
        CompletedMarker::new(self.pos, kind)
    }

    /// Gives up the reserved slot. When nothing was recorded after it, the slot
    /// is removed; otherwise it stays as a tombstone that the builder skips.
    pub fn abandon(self, p: &mut Parser)
        requires
            old(p).wf(),
            old(p).open_markers().contains(self.pos()),
        ensures
            final(p).wf(),
            final(p).kinds() == old(p).kinds(),
            final(p).cursor() == old(p).cursor(),
            final(p).open_markers() == old(p).open_markers().remove(self.pos()),
            self.pos() + 1 == old(p).log().len() ==> final(p).log() == old(p).log().drop_last(),
            self.pos() + 1 != old(p).log().len() ==> final(p).log() == old(p).log(),
    {
        let mut bomb = self.bomb;
        bomb.defuse();
        if self.pos == p.events.len() - 1 {
            let ghost e0 = p.events@;
            p.events.pop();
            proof {
                assert(e0 =~= p.events@.push(StepEvent::Tombstone));
                lemma_token_kinds_push(p.events@, StepEvent::Tombstone);
            }
        }
        proof {
            p.open@ = p.open@.remove(self.pos as nat);
            assert forall|m: nat| #[trigger]
                p.open@.contains(m) implies m < p.events@.len() && p.events@[m as int]
                is Tombstone by {
                assert(old(p).open@.contains(m));
            }
        }
    }
}

/// A node that was completed: its start position in the log and its kind.
pub struct CompletedMarker {
    pos: usize,
    kind: SyntaxKind,
}

impl CompletedMarker {
    pub closed spec fn pos(&self) -> nat {
        self.pos as nat
    }

    pub closed spec fn kind(&self) -> SyntaxKind {
        self.kind
    }

    fn new(pos: usize, kind: SyntaxKind) -> (c: CompletedMarker)
        ensures
            c.pos() == pos,
            c.kind() == kind,
    {
        CompletedMarker { pos, kind }
    }

    /// Opens a new node that will enclose this completed one: its start is
    /// reserved at the end of the log and recorded as this node's forward
    /// parent, so no event already recorded moves.
    pub fn precede(self, p: &mut Parser) -> (m: Marker)
        requires
            old(p).wf(),
            self.pos() < old(p).log().len(),
            old(p).log()[self.pos() as int] is Start,
        ensures
            final(p).wf(),
            final(p).kinds() == old(p).kinds(),
            final(p).cursor() == old(p).cursor(),
            m.pos() == old(p).log().len(),
            !old(p).open_markers().contains(m.pos()),
            final(p).open_markers() == old(p).open_markers().insert(m.pos()),
            final(p).log() == old(p).log().update(
                self.pos() as int,
                StepEvent::Start { kind: self.kind(), forward_parent: Some(m.pos() as usize) },
            ).push(StepEvent::Tombstone),
    {
        let m = p.start();
        let ghost e0 = p.events@;
        let start = StepEvent::Start { kind: self.kind, forward_parent: Some(m.pos) };
        p.events.set(self.pos, start);
        proof {
            lemma_token_kinds_update(e0, self.pos as int, start);
            assert forall|q: nat| #[trigger]
                p.open@.contains(q) implies q < p.events@.len() && p.events@[q as int]
                is Tombstone by {
                assert(q != self.pos);
            }
            assert(p.events@ =~= old(p).events@.update(self.pos as int, start).push(StepEvent::Tombstone));
        }
        m
    }
}

} // verus!
