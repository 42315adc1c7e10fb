//! Watching lists for changes: the decisions of a poller that sleeps,
//! lists, compares what it got with what it got last time, and sends a
//! notice when they differ.
//!
//! The poller itself does nothing but decide. Whoever runs it performs each
//! action that it asks for and hands back what came of it.

use vstd::prelude::*;
use crate::bytes::same_bytes;

verus! {

/// The kinds of data that can be watched, as a set of flags.
#[derive(Clone, Copy, Debug, PartialEq, Eq, Structural, Hash)]
pub struct ItemKind {
    pub bits: u8,
}

/// One of the lists that can be watched.
#[derive(Clone, Copy, Debug, PartialEq, Eq, Structural, Hash)]
pub enum Query {
    Actions,
    Workflows,
    Assignments,
}

/// The flag of a list.
pub open spec fn flag_of(q: Query) -> ItemKind {
    match q {
        Query::Actions => ItemKind { bits: 1 },
        Query::Workflows => ItemKind { bits: 2 },
        Query::Assignments => ItemKind { bits: 4 },
    }
}

/// The list that is looked at after `q` in a round, if there is one.
pub open spec fn next_after(q: Query) -> Option<Query> {
    match q {
        Query::Actions => Some(Query::Workflows),
        Query::Workflows => Some(Query::Assignments),
        Query::Assignments => None,
    }
}

impl ItemKind {
    /// No kind.
    pub fn empty() -> (r: ItemKind)
        ensures
            r.bits == 0,
    {
        ItemKind { bits: 0 }
    }

    /// Butler actions.
    pub fn actions() -> (r: ItemKind)
        ensures
            r == flag_of(Query::Actions),
    {
        ItemKind { bits: 1 }
    }

    /// Workflows.
    pub fn workflows() -> (r: ItemKind)
        ensures
            r == flag_of(Query::Workflows),
    {
        ItemKind { bits: 2 }
    }

    /// Hunk assignments.
    pub fn assignments() -> (r: ItemKind)
        ensures
            r == flag_of(Query::Assignments),
    {
        ItemKind { bits: 4 }
    }

    /// Every kind.
    pub fn all() -> (r: ItemKind)
        ensures
            r.bits == 7,
    {
        ItemKind { bits: 7 }
    }

    /// The flags as a number.
    pub fn bits(&self) -> (r: u8)
        ensures
            r == self.bits,
    {
        self.bits
    }

    /// The kinds that a number stands for; bits that stand for no kind are
    /// dropped.
    pub fn from_bits_truncate(bits: u8) -> (r: ItemKind)
        ensures
            r.bits == bits & 7,
    {
        ItemKind { bits: bits & 7 }
    }

    /// The kinds that are in both sets.
    pub fn intersection(self, other: ItemKind) -> (r: ItemKind)
        ensures
            r.bits == self.bits & other.bits,
    {
        ItemKind { bits: self.bits & other.bits }
    }

    /// The kinds that are in either set.
    pub fn union(self, other: ItemKind) -> (r: ItemKind)
        ensures
            r.bits == self.bits | other.bits,
    {
        ItemKind { bits: self.bits | other.bits }
    }

    /// Whether every kind of `other` is in this set.
    pub fn contains(&self, other: ItemKind) -> (r: bool)
        ensures
            r == (self.bits & other.bits == other.bits),
    {
        self.bits & other.bits == other.bits
    }

    /// Whether the set holds no kind.
    pub fn is_empty(&self) -> (r: bool)
        ensures
            r == (self.bits == 0),
    {
        self.bits == 0
    }
}

impl Default for ItemKind {
    fn default() -> (r: ItemKind)
        ensures
            r.bits == 0,
    {
        ItemKind { bits: 0 }
    }
}

/// Where a poller stands.
#[derive(Clone, Copy, Debug, PartialEq, Eq, Structural)]
pub enum Phase {
    /// Between two rounds, waiting for the interval to pass.
    Sleeping,
    /// Waiting for a list.
    Listing(Query),
    /// Waiting to hear whether a notice was delivered.
    Sending(Query),
    /// Done for good.
    Stopped,
}

/// What the poller asks its runner to do next.
#[derive(Clone, Copy, Debug, PartialEq, Eq, Structural)]
pub enum PollAction {
    /// Wait for the interval.
    Sleep,
    /// Fetch this list.
    List(Query),
    /// Tell the listener that data of this kind changed.
    SendChanged(ItemKind),
    /// Tell the listener that the list just asked for could not be fetched.
    SendFailure,
    /// End the polling.
    Stop,
}

/// What came of the action that the poller asked for.
#[derive(Clone, Debug, PartialEq, Eq)]
pub enum PollEvent {
    /// The interval has passed.
    Slept,
    /// The list was fetched: its items, each as bytes.
    Listed(Vec<Vec<u8>>),
    /// The list could not be fetched.
    ListFailed,
    /// The notice was delivered, or the listener is gone.
    Sent(bool),
}

/// The view of a [`PollEvent`].
pub enum EventView {
    Slept,
    Listed(Seq<Seq<u8>>),
    ListFailed,
    Sent(bool),
}

/// The views of a list of items.
pub open spec fn items_view(v: Seq<Vec<u8>>) -> Seq<Seq<u8>> {
    Seq::new(v.len(), |i: int| v[i]@)
}

impl View for PollEvent {
    type V = EventView;

    open spec fn view(&self) -> EventView {
        match self {
            PollEvent::Slept => EventView::Slept,
            PollEvent::Listed(items) => EventView::Listed(items_view(items@)),
            PollEvent::ListFailed => EventView::ListFailed,
            PollEvent::Sent(ok) => EventView::Sent(*ok),
        }
    }
}

/// A poller: what it watches, where it stands, and what each list held
/// when it was last seen to change.
#[derive(Clone, Debug)]
pub struct Poller {
    pub kind: ItemKind,
    pub phase: Phase,
    pub prev_actions: Vec<Vec<u8>>,
    pub prev_workflows: Vec<Vec<u8>>,
    pub prev_assignments: Vec<Vec<u8>>,
}

/// The view of a [`Poller`].
pub struct PollerView {
    pub kind: ItemKind,
    pub phase: Phase,
    pub prev_actions: Seq<Seq<u8>>,
    pub prev_workflows: Seq<Seq<u8>>,
    pub prev_assignments: Seq<Seq<u8>>,
}

impl View for Poller {
    type V = PollerView;

    open spec fn view(&self) -> PollerView {
        PollerView {
            kind: self.kind,
            phase: self.phase,
            prev_actions: items_view(self.prev_actions@),
            prev_workflows: items_view(self.prev_workflows@),
            prev_assignments: items_view(self.prev_assignments@),
        }
    }
}

/// What a list held when it was last seen to change.
pub open spec fn previous(p: PollerView, q: Query) -> Seq<Seq<u8>> {
    match q {
        Query::Actions => p.prev_actions,
        Query::Workflows => p.prev_workflows,
        Query::Assignments => p.prev_assignments,
    }
}

/// The poller with `items` remembered for `q`.
pub open spec fn remember(p: PollerView, q: Query, items: Seq<Seq<u8>>) -> PollerView {
    match q {
        Query::Actions => PollerView { prev_actions: items, ..p },
        Query::Workflows => PollerView { prev_workflows: items, ..p },
        Query::Assignments => PollerView { prev_assignments: items, ..p },
    }
}

/// The poller in another phase.
pub open spec fn in_phase(p: PollerView, phase: Phase) -> PollerView {
    PollerView { phase, ..p }
}

/// Turning to the list `q`: it is fetched if the poller watches its kind.
/// A round goes through all lists, and a list whose kind is not watched
/// ends the polling.
pub open spec fn visit(p: PollerView, q: Query) -> (PollerView, PollAction) {
    if p.kind.bits & flag_of(q).bits == flag_of(q).bits {
        (in_phase(p, Phase::Listing(q)), PollAction::List(q))
    } else {
        (in_phase(p, Phase::Stopped), PollAction::Stop)
    }
}

/// Going on after the list `q`: to the next list of the round, or to sleep
/// when the round is over.
pub open spec fn advance(p: PollerView, q: Query) -> (PollerView, PollAction) {
    match next_after(q) {
        Some(n) => visit(p, n),
        None => (in_phase(p, Phase::Sleeping), PollAction::Sleep),
    }
}

/// The decisions of the poller: from where it stands and what happened to
/// where it stands next and what to do.
///
/// After the interval a round begins with the first list. A list that was
/// fetched is compared with what is remembered of it: if it differs it is
/// remembered and a notice of its kind is sent, and else the round goes on.
/// A list that could not be fetched is reported as a failure. A notice that
/// was delivered lets the round go on; one that was not ends the polling,
/// and so does anything that the poller did not ask for.
pub open spec fn decide(p: PollerView, event: EventView) -> (PollerView, PollAction) {
    match (p.phase, event) {
        (Phase::Sleeping, EventView::Slept) => visit(p, Query::Actions),
        (Phase::Listing(q), EventView::Listed(items)) => if items != previous(p, q) {
            (in_phase(remember(p, q, items), Phase::Sending(q)), PollAction::SendChanged(flag_of(q)))
        } else {
            advance(p, q)
        },
        (Phase::Listing(q), EventView::ListFailed) => (in_phase(p, Phase::Sending(q)), PollAction::SendFailure),
        (Phase::Sending(q), EventView::Sent(true)) => advance(p, q),
        _ => (in_phase(p, Phase::Stopped), PollAction::Stop),
    }
}

/// Whether two lists of items hold the same.
pub fn same_items(a: &Vec<Vec<u8>>, b: &Vec<Vec<u8>>) -> (r: bool)
    ensures
        r == (items_view(a@) == items_view(b@)),
{
    if a.len() != b.len() {
        proof {
            assert(items_view(a@).len() != items_view(b@).len());
        }
        return false;
    }
    let mut i: usize = 0;
    while i < a.len()
        invariant
            i <= a.len(),
            a.len() == b.len(),
            forall|k: int| 0 <= k < i ==> a@[k]@ == b@[k]@,
        decreases a.len() - i,
    {
        if !same_bytes(&a[i], &b[i]) {
            proof {
                assert(items_view(a@)[i as int] != items_view(b@)[i as int]);
            }
            return false;
        }
        i += 1;
    }
    proof {
        assert(items_view(a@) =~= items_view(b@));
    }
    true
}

fn flag(q: Query) -> (r: ItemKind)
    ensures
        r == flag_of(q),
{
    match q {
        Query::Actions => ItemKind::actions(),
        Query::Workflows => ItemKind::workflows(),
        Query::Assignments => ItemKind::assignments(),
    }
}

impl Poller {
    /// A poller for the given kinds that has seen nothing yet, so that the
    /// first list that holds anything is reported as changed. It starts by
    /// sleeping.
    pub fn new(kind: ItemKind) -> (r: Poller)
        ensures
            r@.kind == kind,
            r@.phase == Phase::Sleeping,
            r@.prev_actions.len() == 0,
            r@.prev_workflows.len() == 0,
            r@.prev_assignments.len() == 0,
    {
        Poller {
            kind,
            phase: Phase::Sleeping,
            prev_actions: Vec::new(),
            prev_workflows: Vec::new(),
            prev_assignments: Vec::new(),
        }
    }

    fn visit(&mut self, q: Query) -> (r: PollAction)
        ensures
            (final(self)@, r) == visit(old(self)@, q),
    {
        if self.kind.contains(flag(q)) {
            self.phase = Phase::Listing(q);
            PollAction::List(q)
        } else {
            self.phase = Phase::Stopped;
            PollAction::Stop
        }
    }

    fn advance(&mut self, q: Query) -> (r: PollAction)
        ensures
            (final(self)@, r) == advance(old(self)@, q),
    {
        match q {
            Query::Actions => self.visit(Query::Workflows),
            Query::Workflows => self.visit(Query::Assignments),
            Query::Assignments => {
                self.phase = Phase::Sleeping;
                PollAction::Sleep
            },
        }
    }

    /// Takes what came of the last action and says what to do next; see
    /// [`decide`].
    pub fn step(&mut self, event: PollEvent) -> (r: PollAction)
        ensures
            (final(self)@, r) == decide(old(self)@, event@),
    {
        let phase = self.phase;
        match (phase, event) {
            (Phase::Sleeping, PollEvent::Slept) => self.visit(Query::Actions),
            (Phase::Listing(q), PollEvent::Listed(items)) => {
                let same = match q {
                    Query::Actions => same_items(&items, &self.prev_actions),
                    Query::Workflows => same_items(&items, &self.prev_workflows),
                    Query::Assignments => same_items(&items, &self.prev_assignments),
                };
                if same {
                    self.advance(q)
                } else {
                    match q {
                        Query::Actions => {
                            self.prev_actions = items;
                        },
                        Query::Workflows => {
                            self.prev_workflows = items;
                        },
                        Query::Assignments => {
                            self.prev_assignments = items;
                        },
                    }
                    self.phase = Phase::Sending(q);
                    PollAction::SendChanged(flag(q))
                }
            },
            (Phase::Listing(q), PollEvent::ListFailed) => {
                self.phase = Phase::Sending(q);
                PollAction::SendFailure
            },
            (Phase::Sending(q), PollEvent::Sent(true)) => self.advance(q),
            _ => {
                self.phase = Phase::Stopped;
                PollAction::Stop
            },
        }
    }
}

} // verus!
