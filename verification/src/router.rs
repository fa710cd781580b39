use vstd::prelude::*;
use crate::codec::{RQuery, RecModel};

verus! {

/// An event observable at a subscriber sink: one per applied mutation,
/// plus the marker each subscriber receives on joining.
pub enum Event {
    Query(RQuery),
    Subscribed,
}

/// The mathematical shape of an event.
pub enum EventModel {
    Query(RecModel),
    Subscribed,
}

impl View for Event {
    type V = EventModel;

    open spec fn view(&self) -> EventModel {
        match self {
            Event::Query(q) => EventModel::Query(q@),
            Event::Subscribed => EventModel::Subscribed,
        }
    }
}

impl Clone for Event {
    /// A clone denotes the same event.
    fn clone(&self) -> (r: Self)
        ensures
            r@ == self@,
    {
        match self {
            Event::Query(q) => Event::Query(q.clone()),
            Event::Subscribed => Event::Subscribed,
        }
    }
}

/// View of a vector of events as their models.
pub open spec fn events_view(v: Seq<Event>) -> Seq<EventModel> {
    Seq::new(v.len(), |i: int| v[i]@)
}

struct Sink {
    delivered: Vec<Event>,
    cursor: usize,
    live: bool,
    joined: Ghost<int>,
}

/// Broadcast fan-out of events to registered subscriber sinks, in
/// dispatch order.  Each sink records the full sequence delivered to it;
/// a consumer drains it through a cursor.
pub struct Router {
    sinks: Vec<Sink>,
    log: Ghost<Seq<EventModel>>,
}

impl Router {
    /// All events dispatched so far, in order.
    pub closed spec fn log(&self) -> Seq<EventModel> {
        self.log@
    }

    pub closed spec fn sink_count(&self) -> nat {
        self.sinks@.len()
    }

    pub closed spec fn sink_live(&self, i: int) -> bool {
        self.sinks@[i].live
    }

    /// Everything ever delivered to sink `i`, in delivery order.
    pub closed spec fn sink_trace(&self, i: int) -> Seq<EventModel> {
        events_view(self.sinks@[i].delivered@)
    }

    /// How many events had been dispatched when sink `i` joined.
    pub closed spec fn sink_joined(&self, i: int) -> int {
        self.sinks@[i].joined@
    }

    pub closed spec fn wf(&self) -> bool {
        forall|i: int|
            0 <= i < self.sinks@.len() ==> {
                &&& 0 <= (#[trigger] self.sinks@[i]).joined@ <= self.log@.len()
                &&& self.sinks@[i].cursor <= self.sinks@[i].delivered@.len()
                &&& (self.sinks@[i].live ==> events_view(self.sinks@[i].delivered@) == seq![
                    EventModel::Subscribed,
                ] + self.log@.skip(self.sinks@[i].joined@))
            }
    }

    pub fn new() -> (r: Router)
        ensures
            r.wf(),
            r.log() == Seq::<EventModel>::empty(),
            r.sink_count() == 0,
    {
        Router { sinks: Vec::new(), log: Ghost(Seq::empty()) }
    }

    /// Registers a subscriber; it receives the joining marker at once and
    /// every event dispatched from now on.
    pub fn register(&mut self) -> (id: usize)
        requires
            old(self).wf(),
        ensures
            final(self).wf(),
            final(self).log() == old(self).log(),
            final(self).sink_count() == old(self).sink_count() + 1,
            id == old(self).sink_count(),
            final(self).sink_live(id as int),
            final(self).sink_joined(id as int) == old(self).log().len(),
            final(self).sink_trace(id as int) == seq![EventModel::Subscribed],
            forall|i: int|
                0 <= i < old(self).sink_count() ==> final(self).sink_trace(i) == old(self).sink_trace(i) && final(self).sink_live(i) == old(self).sink_live(i) && final(self).sink_joined(i) == old(self).sink_joined(i),
    {
        let id = self.sinks.len();
        let mut delivered: Vec<Event> = Vec::new();
        delivered.push(Event::Subscribed);
        let sink = Sink { delivered, cursor: 0, live: true, joined: Ghost(self.log@.len() as int) };
        self.sinks.push(sink);
        proof {
            assert(self.log@.skip(self.log@.len() as int) =~= Seq::<EventModel>::empty());
            assert(events_view(self.sinks@[id as int].delivered@) =~= seq![EventModel::Subscribed]);
            assert(seq![EventModel::Subscribed] + Seq::<EventModel>::empty() =~= seq![
                EventModel::Subscribed,
            ]);
        }
        id
    }

    /// Dispatches an event: appends it to the delivery sequence of every
    /// live sink, in registration order.
    pub fn dispatch(&mut self, e: Event)
        requires
            old(self).wf(),
        ensures
            final(self).wf(),
            final(self).log() == old(self).log().push(e@),
            final(self).sink_count() == old(self).sink_count(),
            forall|i: int|
                0 <= i < old(self).sink_count() ==> final(self).sink_live(i) == old(self).sink_live(i) && final(self).sink_joined(i) == old(self).sink_joined(i),
            forall|i: int|
                0 <= i < old(self).sink_count() && old(self).sink_live(i) ==> final(self).sink_trace(i) == old(self).sink_trace(i).push(e@),
            forall|i: int|
                0 <= i < old(self).sink_count() && !old(self).sink_live(i) ==> final(self).sink_trace(i) == old(self).sink_trace(i),
    {
        let n = self.sinks.len();
        let mut i: usize = 0;
        while i < n
            invariant
                n == self.sinks@.len(),
                n == old(self).sinks@.len(),
                i <= n,
                self.log@ == old(self).log@,
                forall|j: int|
                    0 <= j < n ==> (#[trigger] self.sinks@[j]).live == old(self).sinks@[j].live
                        && self.sinks@[j].joined@ == old(self).sinks@[j].joined@
                        && self.sinks@[j].cursor == old(self).sinks@[j].cursor,
                forall|j: int|
                    i <= j < n ==> (#[trigger] self.sinks@[j]).delivered@ == old(self).sinks@[j].delivered@,
                forall|j: int|
                    0 <= j < i && self.sinks@[j].live ==> events_view(
                        (#[trigger] self.sinks@[j]).delivered@,
                    ) == events_view(old(self).sinks@[j].delivered@).push(e@),
                forall|j: int|
                    0 <= j < i && !self.sinks@[j].live ==> (#[trigger] self.sinks@[j]).delivered@
                        == old(self).sinks@[j].delivered@,
                old(self).wf(),
            decreases n - i,
        {
            if self.sinks[i].live {
                let ev = e.clone();
                proof {
                    assert(events_view(self.sinks@[i as int].delivered@.push(ev)) =~= events_view(
                        self.sinks@[i as int].delivered@,
                    ).push(ev@));
                }
                self.sinks[i].delivered.push(ev);
            }
            i = i + 1;
        }
        proof {
            self.log@ = self.log@.push(e@);
        }
        proof {
            assert forall|j: int| 0 <= j < n && self.sinks@[j].live implies events_view(
                (#[trigger] self.sinks@[j]).delivered@,
            ) == seq![EventModel::Subscribed] + self.log@.skip(self.sinks@[j].joined@) by {
                let jn = self.sinks@[j].joined@;
                assert(self.log@.skip(jn) =~= old(self).log@.skip(jn).push(e@));
                assert(seq![EventModel::Subscribed] + old(self).log@.skip(jn).push(e@) =~= (seq![
                    EventModel::Subscribed,
                ] + old(self).log@.skip(jn)).push(e@));
            }

        }
    }

    /// Marks a sink dead; it receives nothing more.  The router drops
    /// slow or closed sinks this way.
    pub fn unregister(&mut self, id: usize)
        requires
            old(self).wf(),
            id < old(self).sink_count(),
        ensures
            final(self).wf(),
            final(self).log() == old(self).log(),
            final(self).sink_count() == old(self).sink_count(),
            !final(self).sink_live(id as int),
            forall|i: int|
                0 <= i < old(self).sink_count() ==> final(self).sink_trace(i) == old(self).sink_trace(i)
                    && final(self).sink_joined(i) == old(self).sink_joined(i) && final(self).sink_cursor(i) == old(self).sink_cursor(i),
            forall|i: int|
                0 <= i < old(self).sink_count() && i != id ==> final(self).sink_live(i) == old(self).sink_live(i),
    {
        self.sinks[id].live = false;
    }

    /// Hands out the events delivered to sink `id` since the last fetch.
    pub fn fetch_new(&mut self, id: usize) -> (r: Vec<Event>)
        requires
            old(self).wf(),
            id < old(self).sink_count(),
        ensures
            final(self).wf(),
            final(self).log() == old(self).log(),
            final(self).sink_count() == old(self).sink_count(),
            forall|i: int|
                0 <= i < old(self).sink_count() ==> final(self).sink_trace(i) == old(self).sink_trace(i) && final(self).sink_live(i) == old(self).sink_live(i) && final(self).sink_joined(i) == old(self).sink_joined(i),
            forall|i: int|
                0 <= i < old(self).sink_count() && i != id ==> final(self).sink_cursor(i) == old(self).sink_cursor(i),
            events_view(r@) == old(self).sink_trace(id as int).skip(
                old(self).sink_cursor(id as int),
            ),
            final(self).sink_cursor(id as int) == final(self).sink_trace(id as int).len(),
    {
        let n = self.sinks[id].delivered.len();
        let mut out: Vec<Event> = Vec::new();
        let mut i: usize = self.sinks[id].cursor;
        let ghost c0 = self.sinks@[id as int].cursor as int;
        proof {
            assert(events_view(out@) =~= events_view(
                self.sinks@[id as int].delivered@,
            ).skip(c0).take(0));
        }
        while i < n
            invariant
                id < self.sinks@.len(),
                self.sinks@ == old(self).sinks@,
                self.log@ == old(self).log@,
                n == self.sinks@[id as int].delivered@.len(),
                c0 <= i <= n,
                0 <= c0 <= n,
                events_view(out@) == events_view(self.sinks@[id as int].delivered@).skip(c0).take(
                    i - c0,
                ),
            decreases n - i,
        {
            let ev = self.sinks[id].delivered[i].clone();
            proof {
                let dv = events_view(self.sinks@[id as int].delivered@);
                assert(dv.skip(c0).take(i - c0 + 1) =~= dv.skip(c0).take(i - c0).push(dv[i as int]));
                assert(events_view(out@.push(ev)) =~= events_view(out@).push(ev@));
            }
            out.push(ev);
            i = i + 1;
        }
        self.sinks[id].cursor = n;
        proof {
            let dv = events_view(old(self).sinks@[id as int].delivered@);
            assert(dv.skip(c0).take(n - c0) =~= dv.skip(c0));
        }
        out
    }

    /// The cursor of sink `id`: how much of its trace was fetched.
    pub closed spec fn sink_cursor(&self, i: int) -> int {
        self.sinks@[i].cursor as int
    }

    /// A live sink's trace is the joining marker followed by every event
    /// dispatched since it joined, in order.
    pub proof fn lemma_trace(&self, i: int)
        requires
            self.wf(),
            0 <= i < self.sink_count(),
            self.sink_live(i),
        ensures
            self.sink_trace(i) == seq![EventModel::Subscribed] + self.log().skip(
                self.sink_joined(i),
            ),
            0 <= self.sink_joined(i) <= self.log().len(),
    {
    }
}

} // verus!
