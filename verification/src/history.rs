use vstd::prelude::*;

verus! {

/// The mathematical model of a change: a triple given by its three strings,
/// or a batch of changes.
pub enum EventV {
    Added(Seq<char>, Seq<char>, Seq<char>),
    Removed(Seq<char>, Seq<char>, Seq<char>),
    Batch(Seq<EventV>),
}

/// A change made to the asserted ontology.
#[derive(Debug, PartialEq, Eq)]
pub enum DarkstarEvent {
    AxiomAdded { s: String, p: String, o: String },
    AxiomRemoved { s: String, p: String, o: String },
    Batch(Vec<DarkstarEvent>),
}

/// The model of an event.
pub open spec fn event_view(e: DarkstarEvent) -> EventV
    decreases e,
{
    match e {
        DarkstarEvent::AxiomAdded { s, p, o } => EventV::Added(s@, p@, o@),
        DarkstarEvent::AxiomRemoved { s, p, o } => EventV::Removed(s@, p@, o@),
        DarkstarEvent::Batch(v) => EventV::Batch(
            Seq::new(v@.len(), |i: int| if 0 <= i < v@.len() { event_view(v@[i]) } else { EventV::Batch(seq![]) }),
        ),
    }
}

impl View for DarkstarEvent {
    type V = EventV;

    open spec fn view(&self) -> EventV {
        event_view(*self)
    }
}

/// The model of the change that undoes `e`: additions and removals swap, and
/// a batch is undone by undoing its members in the opposite order.
pub open spec fn reverse_view(e: EventV) -> EventV
    decreases e,
{
    match e {
        EventV::Added(s, p, o) => EventV::Removed(s, p, o),
        EventV::Removed(s, p, o) => EventV::Added(s, p, o),
        EventV::Batch(v) => EventV::Batch(
            Seq::new(v.len(), |i: int| if 0 <= i < v.len() { reverse_view(v[v.len() - 1 - i]) } else { EventV::Batch(seq![]) }),
        ),
    }
}

/// Reversing a change twice gives the change back.
pub proof fn lemma_reverse_involution(e: EventV)
    ensures
        reverse_view(reverse_view(e)) == e,
    decreases e,
{
    match e {
        EventV::Batch(v) => {
            let r = reverse_view(e);
            let rr = reverse_view(r);
            let rv = r->Batch_0;
            let rrv = rr->Batch_0;
            assert forall|i: int| 0 <= i < v.len() implies rrv[i] == v[i] by {
                assert(rv[v.len() - 1 - i] == reverse_view(v[i]));
                lemma_reverse_involution(v[i]);
            }
            assert(rrv =~= v);
        },
        _ => {},
    }
}

impl DarkstarEvent {
    /// The change that undoes this one.
    #[verifier::loop_isolation(false)]
    pub fn reverse(&self) -> (r: Self)
        ensures
            r@ == reverse_view(self@),
        decreases self,
    {
        match self {
            DarkstarEvent::AxiomAdded { s, p, o } => DarkstarEvent::AxiomRemoved {
                s: s.clone(),
                p: p.clone(),
                o: o.clone(),
            },
            DarkstarEvent::AxiomRemoved { s, p, o } => DarkstarEvent::AxiomAdded {
                s: s.clone(),
                p: p.clone(),
                o: o.clone(),
            },
            DarkstarEvent::Batch(events) => {
                let mut rev_events: Vec<DarkstarEvent> = Vec::new();
                let n = events.len();
                let mut i: usize = n;
                while i > 0
                    invariant
                        i <= n,
                        n == events@.len(),
                        rev_events@.len() == n - i,
                        forall|j: int| 0 <= j < n - i ==> #[trigger] rev_events@[j]@ == reverse_view(events@[n - 1 - j]@),
                    decreases i,
                {
                    i -= 1;
                    proof {
                        assert(decreases_to!(*self => events@[i as int]));
                    }
                    let e = events[i].reverse();
                    rev_events.push(e);
                }
                let r = DarkstarEvent::Batch(rev_events);
                proof {
                    let a = r@->Batch_0;
                    let ev = self@->Batch_0;
                    let b = reverse_view(self@)->Batch_0;
                    assert(a.len() == b.len());
                    assert forall|j: int| 0 <= j < a.len() implies a[j] == b[j] by {
                        assert(a[j] == event_view(rev_events@[j]));
                        assert(rev_events@[j]@ == reverse_view(events@[n - 1 - j]@));
                        assert(ev[n - 1 - j] == event_view(events@[n - 1 - j]));
                    }
                    assert(a =~= b);
                }
                r
            },
        }
    }

    /// A copy of this change.
    #[verifier::loop_isolation(false)]
    pub fn duplicate(&self) -> (r: Self)
        ensures
            r@ == self@,
        decreases self,
    {
        match self {
            DarkstarEvent::AxiomAdded { s, p, o } => DarkstarEvent::AxiomAdded {
                s: s.clone(),
                p: p.clone(),
                o: o.clone(),
            },
            DarkstarEvent::AxiomRemoved { s, p, o } => DarkstarEvent::AxiomRemoved {
                s: s.clone(),
                p: p.clone(),
                o: o.clone(),
            },
            DarkstarEvent::Batch(events) => {
                let mut out: Vec<DarkstarEvent> = Vec::new();
                let n = events.len();
                let mut i: usize = 0;
                while i < n
                    invariant
                        i <= n,
                        n == events@.len(),
                        out@.len() == i,
                        forall|j: int| 0 <= j < i ==> #[trigger] out@[j]@ == events@[j]@,
                    decreases n - i,
                {
                    proof {
                        assert(decreases_to!(*self => events@[i as int]));
                    }
                    let e = events[i].duplicate();
                    out.push(e);
                    i += 1;
                }
                let r = DarkstarEvent::Batch(out);
                proof {
                    let a = r@->Batch_0;
                    let b = self@->Batch_0;
                    assert(a.len() == b.len());
                    assert forall|j: int| 0 <= j < a.len() implies a[j] == b[j] by {
                        assert(a[j] == event_view(out@[j]));
                        assert(out@[j]@ == events@[j]@);
                        assert(b[j] == event_view(events@[j]));
                    }
                    assert(a =~= b);
                }
                r
            },
        }
    }
}

impl Clone for DarkstarEvent {
    fn clone(&self) -> (r: Self)
        ensures
            r@ == self@,
    {
        self.duplicate()
    }
}

} // verus!

verus! {

/// The model of a change history: the changes that can be undone, the most
/// recent last, and the changes that can be redone, the most recently undone
/// last.
pub struct HistoryV {
    pub undo: Seq<EventV>,
    pub redo: Seq<EventV>,
}

/// The history after a new change: it can be undone, and nothing can be
/// redone any more.
pub open spec fn history_push(h: HistoryV, e: EventV) -> HistoryV {
    HistoryV { undo: h.undo.push(e), redo: Seq::empty() }
}

/// Undoing: the last change moves from the undo stack to the redo stack and
/// is returned.
pub open spec fn history_pop_undo(h: HistoryV) -> (HistoryV, Option<EventV>) {
    if h.undo.len() == 0 {
        (h, None)
    } else {
        (HistoryV { undo: h.undo.drop_last(), redo: h.redo.push(h.undo.last()) }, Some(h.undo.last()))
    }
}

/// Redoing: the last undone change moves back to the undo stack and is
/// returned.
pub open spec fn history_pop_redo(h: HistoryV) -> (HistoryV, Option<EventV>) {
    if h.redo.len() == 0 {
        (h, None)
    } else {
        (HistoryV { undo: h.undo.push(h.redo.last()), redo: h.redo.drop_last() }, Some(h.redo.last()))
    }
}

/// The undo and redo stacks of the editor.
pub struct ChangeHistory {
    undo_stack: Vec<DarkstarEvent>,
    redo_stack: Vec<DarkstarEvent>,
}

impl View for ChangeHistory {
    type V = HistoryV;

    closed spec fn view(&self) -> HistoryV {
        HistoryV {
            undo: self.undo_stack@.map_values(|e: DarkstarEvent| e@),
            redo: self.redo_stack@.map_values(|e: DarkstarEvent| e@),
        }
    }
}

impl ChangeHistory {
    /// An empty history.
    pub fn new() -> (h: Self)
        ensures
            h@.undo == Seq::<EventV>::empty(),
            h@.redo == Seq::<EventV>::empty(),
    {
        let h = ChangeHistory { undo_stack: Vec::new(), redo_stack: Vec::new() };
        assert(h@.undo =~= Seq::<EventV>::empty());
        assert(h@.redo =~= Seq::<EventV>::empty());
        h
    }

    /// Records a new change; any new change clears the redo stack.
    pub fn push_change(&mut self, change: DarkstarEvent)
        ensures
            final(self)@ == history_push(old(self)@, change@),
    {
        self.undo_stack.push(change);
        self.redo_stack.clear();
        assert(self@.undo =~= history_push(old(self)@, change@).undo);
        assert(self@.redo =~= Seq::<EventV>::empty());
    }

    /// Takes the most recent change off the undo stack, moves it to the redo
    /// stack and returns it; `None` when there is nothing to undo.
    pub fn pop_undo(&mut self) -> (r: Option<DarkstarEvent>)
        ensures
            final(self)@ == history_pop_undo(old(self)@).0,
            r matches Some(e) ==> history_pop_undo(old(self)@).1 == Some(e@),
            r is None <==> history_pop_undo(old(self)@).1 is None,
    {
        if let Some(change) = self.undo_stack.pop() {
            let copy = change.clone();
            self.redo_stack.push(copy);
            assert(self@.undo =~= history_pop_undo(old(self)@).0.undo);
            assert(self@.redo =~= history_pop_undo(old(self)@).0.redo);
            Some(change)
        } else {
            None
        }
    }

    /// Takes the most recently undone change off the redo stack, moves it
    /// back to the undo stack and returns it; `None` when there is nothing to
    /// redo.
    pub fn pop_redo(&mut self) -> (r: Option<DarkstarEvent>)
        ensures
            final(self)@ == history_pop_redo(old(self)@).0,
            r matches Some(e) ==> history_pop_redo(old(self)@).1 == Some(e@),
            r is None <==> history_pop_redo(old(self)@).1 is None,
    {
        if let Some(change) = self.redo_stack.pop() {
            let copy = change.clone();
            self.undo_stack.push(copy);
            assert(self@.undo =~= history_pop_redo(old(self)@).0.undo);
            assert(self@.redo =~= history_pop_redo(old(self)@).0.redo);
            Some(change)
        } else {
            None
        }
    }

    /// Whether there is nothing to undo.
    pub fn is_undo_empty(&self) -> (r: bool)
        ensures
            r == (self@.undo.len() == 0),
    {
        self.undo_stack.len() == 0
    }

    /// Whether there is nothing to redo.
    pub fn is_redo_empty(&self) -> (r: bool)
        ensures
            r == (self@.redo.len() == 0),
    {
        self.redo_stack.len() == 0
    }

    /// The changes that can be undone, oldest first.
    pub fn get_undo_stack(&self) -> (r: &[DarkstarEvent])
        ensures
            r@.map_values(|e: DarkstarEvent| e@) == self@.undo,
    {
        self.undo_stack.as_slice()
    }

    /// The changes that can be redone, the most recently undone last.
    pub fn get_redo_stack(&self) -> (r: &[DarkstarEvent])
        ensures
            r@.map_values(|e: DarkstarEvent| e@) == self@.redo,
    {
        self.redo_stack.as_slice()
    }

    /// Forgets all changes.
    pub fn clear(&mut self)
        ensures
            final(self)@.undo == Seq::<EventV>::empty(),
            final(self)@.redo == Seq::<EventV>::empty(),
    {
        self.undo_stack.clear();
        self.redo_stack.clear();
        assert(self@.undo =~= Seq::<EventV>::empty());
        assert(self@.redo =~= Seq::<EventV>::empty());
    }
}

/// Undoing a change and then redoing it leaves the history as it was, and
/// both steps hand out the same change.
pub proof fn law_undo_then_redo(h: HistoryV)
    requires
        h.undo.len() > 0,
    ensures
        history_pop_redo(history_pop_undo(h).0).0 == h,
        history_pop_redo(history_pop_undo(h).0).1 == history_pop_undo(h).1,
{
    let h1 = history_pop_undo(h).0;
    let h2 = history_pop_redo(h1).0;
    assert(h2.undo =~= h.undo);
    assert(h2.redo =~= h.redo);
}

/// Redoing a change and then undoing it leaves the history as it was, and
/// both steps hand out the same change.
pub proof fn law_redo_then_undo(h: HistoryV)
    requires
        h.redo.len() > 0,
    ensures
        history_pop_undo(history_pop_redo(h).0).0 == h,
        history_pop_undo(history_pop_redo(h).0).1 == history_pop_redo(h).1,
{
    let h1 = history_pop_redo(h).0;
    let h2 = history_pop_undo(h1).0;
    assert(h2.undo =~= h.undo);
    assert(h2.redo =~= h.redo);
}

/// Undo right after a new change hands that change back, restores the undo
/// stack of before, and leaves exactly that change to redo.
pub proof fn law_push_then_undo(h: HistoryV, e: EventV)
    ensures
        history_pop_undo(history_push(h, e)).1 == Some(e),
        history_pop_undo(history_push(h, e)).0.undo == h.undo,
        history_pop_undo(history_push(h, e)).0.redo == seq![e],
{
    let h1 = history_pop_undo(history_push(h, e)).0;
    assert(h1.undo =~= h.undo);
    assert(h1.redo =~= seq![e]);
}

/// Undo and redo move changes between the two stacks and never lose or
/// create one: the total number of changes is kept.
pub proof fn law_undo_redo_keep_count(h: HistoryV)
    ensures
        history_pop_undo(h).0.undo.len() + history_pop_undo(h).0.redo.len() == h.undo.len() + h.redo.len(),
        history_pop_redo(h).0.undo.len() + history_pop_redo(h).0.redo.len() == h.undo.len() + h.redo.len(),
{
}

} // verus!
