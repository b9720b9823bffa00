//! Assembling an SMF from events given with absolute times.
use crate::meta::MetaEvent;
use crate::midi::MidiMessage;
use crate::wire::{EventV, TrackEventV, TrackV};
use crate::{Event, SMFFormat, Track, TrackEvent, SMF};
use vstd::prelude::*;

verus! {

broadcast use vstd::seq_lib::group_to_multiset_ensures;

/// The ghost shape of an absolutely-timed event.
#[verifier::ext_equal]
pub ghost struct AbsoluteEventV {
    pub time: u64,
    pub event: EventV,
}

/// An AbsoluteEvent is an event that has an absolute time.
/// This is useful for apps that want to store events internally
/// with absolute times and then quickly build an SMF file for saving etc...
pub struct AbsoluteEvent {
    time: u64,
    event: Event,
}

impl View for AbsoluteEvent {
    type V = AbsoluteEventV;

    closed spec fn view(&self) -> AbsoluteEventV {
        AbsoluteEventV { time: self.time, event: self.event@ }
    }
}

impl Clone for AbsoluteEvent {
    fn clone(&self) -> (r: AbsoluteEvent)
        ensures
            r@ == self@,
    {
        AbsoluteEvent { time: self.time, event: self.event.clone() }
    }
}

impl AbsoluteEvent {
    pub fn new_midi(time: u64, midi: MidiMessage) -> (r: AbsoluteEvent)
        ensures
            r@ == (AbsoluteEventV { time, event: EventV::Midi(midi@) }),
    {
        AbsoluteEvent { time, event: Event::Midi(midi) }
    }

    pub fn new_meta(time: u64, meta: MetaEvent) -> (r: AbsoluteEvent)
        ensures
            r@ == (AbsoluteEventV { time, event: EventV::Meta(meta@) }),
    {
        AbsoluteEvent { time, event: Event::Meta(meta) }
    }

    /// Return true if the event inside this AbsoluteEvent is a midi
    /// event, false if it's a meta event
    pub fn is_midi(&self) -> (r: bool)
        ensures
            r == (self@.event is Midi),
    {
        match self.event {
            Event::Midi(_) => true,
            Event::Meta(_) => false,
        }
    }

    /// Return true if the event inside this AbsoluteEvent is a meta
    /// event, false if it's a midi event
    pub fn is_meta(&self) -> (r: bool)
        ensures
            r == (self@.event is Meta),
    {
        match self.event {
            Event::Midi(_) => false,
            Event::Meta(_) => true,
        }
    }

    pub fn get_event(&self) -> (r: &Event)
        ensures
            r@ == self@.event,
    {
        &self.event
    }

    pub fn get_time(&self) -> (r: u64)
        ensures
            r == self@.time,
    {
        self.time
    }
}

/// The place of an event in the builder's ordering: events sort by time,
/// meta events before midi events at equal times, then by command code or
/// by the first two message bytes.
pub open spec fn order_kind(e: AbsoluteEventV) -> int {
    match e.event {
        EventV::Meta(_) => 0,
        EventV::Midi(_) => 1,
    }
}

pub open spec fn order_code(e: AbsoluteEventV) -> int {
    match e.event {
        EventV::Meta(m) => crate::meta::meta_command_code(m.command) as int,
        EventV::Midi(d) => if d.len() >= 1 {
            d[0] as int
        } else {
            0
        },
    }
}

pub open spec fn order_code2(e: AbsoluteEventV) -> int {
    match e.event {
        EventV::Meta(_) => 0,
        EventV::Midi(d) => if d.len() >= 2 {
            d[1] as int
        } else {
            0
        },
    }
}

/// The builder's ordering itself: a total preorder over events.
pub open spec fn event_le(a: AbsoluteEventV, b: AbsoluteEventV) -> bool {
    if a.time != b.time {
        a.time < b.time
    } else if order_kind(a) != order_kind(b) {
        order_kind(a) < order_kind(b)
    } else if order_code(a) != order_code(b) {
        order_code(a) < order_code(b)
    } else {
        order_code2(a) <= order_code2(b)
    }
}

pub proof fn lemma_event_le_total(a: AbsoluteEventV, b: AbsoluteEventV)
    ensures
        event_le(a, b) || event_le(b, a),
{
}

pub proof fn lemma_event_le_trans(a: AbsoluteEventV, b: AbsoluteEventV, c: AbsoluteEventV)
    requires
        event_le(a, b),
        event_le(b, c),
    ensures
        event_le(a, c),
{
}

/// A sequence sorted by the builder's ordering.
pub open spec fn sorted_events(s: Seq<AbsoluteEventV>) -> bool {
    forall|i: int, j: int| 0 <= i < j < s.len() ==> event_le(#[trigger] s[i], #[trigger] s[j])
}

/// The delta-timed form of absolutely-timed events: each delta is the
/// time elapsed since the event before it (or since `start` for the
/// first).
pub open spec fn delta_from_abs(evs: Seq<AbsoluteEventV>, start: u64) -> Seq<TrackEventV>
    decreases evs.len(),
{
    if evs.len() == 0 {
        Seq::empty()
    } else {
        seq![
            TrackEventV { vtime: (evs[0].time - start) as u64, event: evs[0].event },
        ] + delta_from_abs(evs.drop_first(), evs[0].time)
    }
}

/// The absolute time of the last event, or `start` before any event.
pub open spec fn last_time(evs: Seq<AbsoluteEventV>, start: u64) -> u64 {
    if evs.len() == 0 {
        start
    } else {
        evs.last().time
    }
}

pub proof fn lemma_delta_from_abs_push(evs: Seq<AbsoluteEventV>, x: AbsoluteEventV, start: u64)
    ensures
        delta_from_abs(evs.push(x), start) == delta_from_abs(evs, start).push(
            TrackEventV { vtime: (x.time - last_time(evs, start)) as u64, event: x.event },
        ),
    decreases evs.len(),
{
    if evs.len() == 0 {
        reveal_with_fuel(delta_from_abs, 2);
        assert(evs.push(x)[0] == x);
        assert(evs.push(x).drop_first() =~= Seq::<AbsoluteEventV>::empty());
        assert(delta_from_abs(evs.push(x), start) =~= delta_from_abs(evs, start).push(
            TrackEventV { vtime: (x.time - start) as u64, event: x.event },
        ));
    } else {
        assert(evs.push(x)[0] == evs[0]);
        assert(evs.push(x).drop_first() =~= evs.drop_first().push(x));
        lemma_delta_from_abs_push(evs.drop_first(), x, evs[0].time);
        assert(last_time(evs.drop_first(), evs[0].time) == last_time(evs, start)) by {
            if evs.drop_first().len() > 0 {
                assert(evs.drop_first().last() == evs.last());
            }
        }
        let head = seq![
            TrackEventV { vtime: (evs[0].time - start) as u64, event: evs[0].event },
        ];
        let item = TrackEventV {
            vtime: (x.time - last_time(evs, start)) as u64,
            event: x.event,
        };
        assert(head + delta_from_abs(evs.drop_first(), evs[0].time).push(item) =~= (head
            + delta_from_abs(evs.drop_first(), evs[0].time)).push(item));
    }
}

/// What one track of the builder holds: events still to be ordered, or a
/// finished delta-timed list.
enum EventContainer {
    Unordered(Vec<AbsoluteEvent>),
    Static(Vec<TrackEvent>),
}

/// The ghost shape of a track under construction.
#[verifier::ext_equal]
pub ghost enum EventContainerV {
    Unordered(Seq<AbsoluteEventV>),
    Static(Seq<TrackEventV>),
}

#[verifier::ext_equal]
pub ghost struct TrackBuilderV {
    pub copyright: Option<Seq<char>>,
    pub name: Option<Seq<char>>,
    pub events: EventContainerV,
}

struct TrackBuilder {
    copyright: Option<String>,
    name: Option<String>,
    events: EventContainer,
}

impl View for TrackBuilder {
    type V = TrackBuilderV;

    closed spec fn view(&self) -> TrackBuilderV {
        TrackBuilderV {
            copyright: match self.copyright {
                Some(ref c) => Some(c@),
                None => None,
            },
            name: match self.name {
                Some(ref n) => Some(n@),
                None => None,
            },
            events: match self.events {
                EventContainer::Unordered(ref v) => EventContainerV::Unordered(
                    v@.map_values(|e: AbsoluteEvent| e@),
                ),
                EventContainer::Static(ref v) => EventContainerV::Static(
                    v@.map_values(|e: TrackEvent| e@),
                ),
            },
        }
    }
}

/// Insert an event into an already sorted vector, keeping it sorted.
fn insert_sorted(out: &mut Vec<AbsoluteEvent>, x: AbsoluteEvent)
    requires
        sorted_events(old(out)@.map_values(|e: AbsoluteEvent| e@)),
    ensures
        sorted_events(final(out)@.map_values(|e: AbsoluteEvent| e@)),
        final(out)@.map_values(|e: AbsoluteEvent| e@).to_multiset() == old(out)@.map_values(
            |e: AbsoluteEvent| e@,
        ).to_multiset().insert(x@),
{
    let ghost s = old(out)@.map_values(|e: AbsoluteEvent| e@);
    let mut k: usize = 0;
    while k < out.len() && le_event(&out[k], &x)
        invariant
            k <= out@.len(),
            out@ == old(out)@,
            s == out@.map_values(|e: AbsoluteEvent| e@),
            forall|j: int| 0 <= j < k ==> event_le(#[trigger] s[j], x@),
        decreases out@.len() - k,
    {
        proof {
            assert(s[k as int] == out@[k as int]@);
        }
        k = k + 1;
    }
    out.insert(k, x);
    proof {
        let s2 = out@.map_values(|e: AbsoluteEvent| e@);
        assert(s2 =~= s.take(k as int).push(x@) + s.skip(k as int));
        assert forall|i: int, j: int| 0 <= i < j < s2.len() implies event_le(s2[i], s2[j]) by {
            if j == k {
                assert(s2[j] == x@);
                assert(event_le(s[i], x@));
            } else if i == k {
                assert(s2[i] == x@);
                let b = s2[j];
                assert(b == s[j - 1]);
                if k < s.len() {
                    lemma_event_le_total(s[k as int], x@);
                    assert(event_le(x@, s[k as int]));
                    if j - 1 > k {
                        assert(event_le(s[k as int], s[j - 1]));
                        lemma_event_le_trans(x@, s[k as int], s[j - 1]);
                    }
                }
            } else if i < k && j > k {
                assert(s2[i] == s[i] && s2[j] == s[j - 1]);
                assert(event_le(s[i], s[j - 1]));
            } else if j < k {
                assert(s2[i] == s[i] && s2[j] == s[j]);
            } else {
                assert(s2[i] == s[i - 1] && s2[j] == s[j - 1]);
            }
        }
        lemma_multiset_of_insert(s, x@, k as int);
    }
}

proof fn lemma_multiset_of_insert(s: Seq<AbsoluteEventV>, x: AbsoluteEventV, k: int)
    requires
        0 <= k <= s.len(),
    ensures
        (s.take(k).push(x) + s.skip(k)).to_multiset() == s.to_multiset().insert(x),
{
    broadcast use vstd::seq_lib::group_to_multiset_ensures;

    vstd::seq_lib::lemma_multiset_commutative(s.take(k).push(x), s.skip(k));
    vstd::seq_lib::lemma_multiset_commutative(s.take(k), s.skip(k));
    assert(s.take(k) + s.skip(k) =~= s);
    assert(s.take(k).push(x).to_multiset() == s.take(k).to_multiset().insert(x));
    assert((s.take(k).push(x) + s.skip(k)).to_multiset() =~= s.to_multiset().insert(x)) by {
        assert(s.take(k).to_multiset().insert(x).add(s.skip(k).to_multiset()) =~= s.take(
            k,
        ).to_multiset().add(s.skip(k).to_multiset()).insert(x));
    }
}

/// The exec comparison behind the builder's ordering.
fn le_event(a: &AbsoluteEvent, b: &AbsoluteEvent) -> (r: bool)
    ensures
        r == event_le(a@, b@),
{
    if a.time != b.time {
        return a.time < b.time;
    }
    let ka: u8 = match a.event {
        Event::Meta(_) => 0,
        Event::Midi(_) => 1,
    };
    let kb: u8 = match b.event {
        Event::Meta(_) => 0,
        Event::Midi(_) => 1,
    };
    if ka != kb {
        return ka < kb;
    }
    let ca: u8 = match &a.event {
        Event::Meta(m) => m.command.code(),
        Event::Midi(m) => if m.data.len() >= 1 {
            m.data[0]
        } else {
            0
        },
    };
    let cb: u8 = match &b.event {
        Event::Meta(m) => m.command.code(),
        Event::Midi(m) => if m.data.len() >= 1 {
            m.data[0]
        } else {
            0
        },
    };
    if ca != cb {
        return ca < cb;
    }
    let da: u8 = match &a.event {
        Event::Meta(_) => 0,
        Event::Midi(m) => if m.data.len() >= 2 {
            m.data[1]
        } else {
            0
        },
    };
    let db: u8 = match &b.event {
        Event::Meta(_) => 0,
        Event::Midi(m) => if m.data.len() >= 2 {
            m.data[1]
        } else {
            0
        },
    };
    da <= db
}

impl TrackBuilder {
    /// Turn the builder's events into a finished track: unordered events
    /// are sorted by the builder's ordering and their absolute times are
    /// turned back into deltas.
    fn result(self) -> (r: Track)
        ensures
            r@.copyright == self@.copyright,
            r@.name == self@.name,
            match self@.events {
                EventContainerV::Static(v) => r@.events == v,
                EventContainerV::Unordered(s) => exists|p: Seq<AbsoluteEventV>|
                    {
                        &&& p.to_multiset() == s.to_multiset()
                        &&& #[trigger] sorted_events(p)
                        &&& r@.events == delta_from_abs(p, 0)
                    },
            },
    {
        match self.events {
            EventContainer::Static(v) => {
                let r = Track { copyright: self.copyright, name: self.name, events: v };
                r
            },
            EventContainer::Unordered(v) => {
                let ghost s0 = v@.map_values(|e: AbsoluteEvent| e@);
                let mut sorted: Vec<AbsoluteEvent> = Vec::new();
                let mut i: usize = 0;
                proof {
                    assert(sorted@.map_values(|e: AbsoluteEvent| e@)
                        =~= Seq::<AbsoluteEventV>::empty());
                    assert(s0.take(0).to_multiset() =~= Seq::<AbsoluteEventV>::empty().to_multiset());
                }
                while i < v.len()
                    invariant
                        i <= v@.len(),
                        s0 == v@.map_values(|e: AbsoluteEvent| e@),
                        sorted_events(sorted@.map_values(|e: AbsoluteEvent| e@)),
                        sorted@.map_values(|e: AbsoluteEvent| e@).to_multiset() == s0.take(
                            i as int,
                        ).to_multiset(),
                    decreases v@.len() - i,
                {
                    let x = v[i].clone();
                    proof {
                        assert(s0.take(i + 1) =~= s0.take(i as int).push(s0[i as int]));
                        assert(x@ == s0[i as int]);
                    }
                    insert_sorted(&mut sorted, x);
                    i = i + 1;
                }
                proof {
                    assert(s0.take(s0.len() as int) =~= s0);
                }
                let ghost p = sorted@.map_values(|e: AbsoluteEvent| e@);
                // re-derive the delta times from the sorted absolute times
                let mut events: Vec<TrackEvent> = Vec::new();
                let mut prev_time: u64 = 0;
                let mut j: usize = 0;
                proof {
                    assert(events@.map_values(|e: TrackEvent| e@) =~= delta_from_abs(
                        p.take(0),
                        0,
                    ));
                }
                while j < sorted.len()
                    invariant
                        j <= sorted@.len(),
                        p == sorted@.map_values(|e: AbsoluteEvent| e@),
                        sorted_events(p),
                        prev_time == last_time(p.take(j as int), 0),
                        events@.map_values(|e: TrackEvent| e@) == delta_from_abs(
                            p.take(j as int),
                            0,
                        ),
                    decreases sorted@.len() - j,
                {
                    let ev = &sorted[j];
                    proof {
                        assert(ev@ == p[j as int]);
                        if j > 0 {
                            assert(p.take(j as int).last() == p[j - 1]);
                            assert(event_le(p[j - 1], p[j as int]));
                        }
                        assert(prev_time <= ev@.time);
                        lemma_delta_from_abs_push(p.take(j as int), p[j as int], 0);
                        assert(p.take(j + 1) =~= p.take(j as int).push(p[j as int]));
                    }
                    let vtime = ev.get_time() - prev_time;
                    prev_time = ev.get_time();
                    let te = TrackEvent { vtime, event: ev.get_event().clone() };
                    events.push(te);
                    proof {
                        assert(events@.map_values(|e: TrackEvent| e@) =~= delta_from_abs(
                            p.take(j as int),
                            0,
                        ).push(te@));
                        assert(p.take(j + 1).last() == p[j as int]);
                    }
                    j = j + 1;
                }
                proof {
                    assert(p.take(p.len() as int) =~= p);
                }
                let r = Track { copyright: self.copyright, name: self.name, events };
                r
            },
        }
    }

    /// The absolute time `delta` ticks after the latest event held, used
    /// when events arrive with relative times.
    fn abs_time_from_delta(&self, delta: u64) -> (r: u64)
        requires
            self@.events is Unordered,
            max_time(self@.events->Unordered_0) + delta <= u64::MAX,
        ensures
            r == max_time(self@.events->Unordered_0) + delta,
    {
        match &self.events {
            EventContainer::Unordered(v) => {
                let ghost s = v@.map_values(|e: AbsoluteEvent| e@);
                let mut best: u64 = 0;
                let mut i: usize = 0;
                proof {
                    assert(max_time(s.take(0)) == 0);
                }
                while i < v.len()
                    invariant
                        i <= v@.len(),
                        s == v@.map_values(|e: AbsoluteEvent| e@),
                        best == max_time(s.take(i as int)),
                    decreases v@.len() - i,
                {
                    proof {
                        assert(s.take(i + 1) =~= s.take(i as int).push(s[i as int]));
                        lemma_max_time_push(s.take(i as int), s[i as int]);
                    }
                    let t = v[i].get_time();
                    if t > best {
                        best = t;
                    }
                    i = i + 1;
                }
                proof {
                    assert(s.take(s.len() as int) =~= s);
                }
                best + delta
            },
            EventContainer::Static(_) => {
                proof {
                    assert(false);
                }
                delta
            },
        }
    }
}

/// Absolute times that never decrease from one event to the next.
pub open spec fn times_sorted(s: Seq<AbsoluteEventV>) -> bool {
    forall|i: int, j: int| 0 <= i < j < s.len() ==> (#[trigger] s[i]).time <= (#[trigger] s[j]).time
}

/// Turn absolutely-timed events into delta-timed ones, re-deriving each
/// delta from the time elapsed since the event before.
pub fn delta_events(track: &Vec<AbsoluteEvent>) -> (r: Vec<TrackEvent>)
    requires
        times_sorted(track@.map_values(|e: AbsoluteEvent| e@)),
    ensures
        r@.map_values(|e: TrackEvent| e@) == delta_from_abs(
            track@.map_values(|e: AbsoluteEvent| e@),
            0,
        ),
{
    let ghost p = track@.map_values(|e: AbsoluteEvent| e@);
    let mut events: Vec<TrackEvent> = Vec::new();
    let mut prev_time: u64 = 0;
    let mut j: usize = 0;
    proof {
        assert(events@.map_values(|e: TrackEvent| e@) =~= delta_from_abs(p.take(0), 0));
    }
    while j < track.len()
        invariant
            j <= track@.len(),
            p == track@.map_values(|e: AbsoluteEvent| e@),
            times_sorted(p),
            prev_time == last_time(p.take(j as int), 0),
            events@.map_values(|e: TrackEvent| e@) == delta_from_abs(p.take(j as int), 0),
        decreases track@.len() - j,
    {
        let ev = &track[j];
        proof {
            assert(ev@ == p[j as int]);
            if j > 0 {
                assert(p.take(j as int).last() == p[j - 1]);
                assert(p[j - 1].time <= p[j as int].time);
            }
            assert(prev_time <= ev@.time);
            lemma_delta_from_abs_push(p.take(j as int), p[j as int], 0);
            assert(p.take(j + 1) =~= p.take(j as int).push(p[j as int]));
        }
        let vtime = ev.get_time() - prev_time;
        prev_time = ev.get_time();
        let te = TrackEvent { vtime, event: ev.get_event().clone() };
        events.push(te);
        proof {
            assert(events@.map_values(|e: TrackEvent| e@) =~= delta_from_abs(
                p.take(j as int),
                0,
            ).push(te@));
            assert(p.take(j + 1).last() == p[j as int]);
        }
        j = j + 1;
    }
    proof {
        assert(p.take(p.len() as int) =~= p);
    }
    events
}

/// How one finished track relates to the builder state it came from:
/// unordered events come out sorted by the builder's ordering with their
/// deltas re-derived; a static track is kept as it stands.
pub open spec fn track_result_matches(tb: TrackBuilderV, t: TrackV) -> bool {
    &&& t.copyright == tb.copyright
    &&& t.name == tb.name
    &&& match tb.events {
        EventContainerV::Static(v) => t.events == v,
        EventContainerV::Unordered(s) => exists|p: Seq<AbsoluteEventV>|
            {
                &&& p.to_multiset() == s.to_multiset()
                &&& #[trigger] sorted_events(p)
                &&& t.events == delta_from_abs(p, 0)
            },
    }
}

/// The greatest absolute time among the events, or zero when none.
pub open spec fn max_time(s: Seq<AbsoluteEventV>) -> u64
    decreases s.len(),
{
    if s.len() == 0 {
        0
    } else if s.last().time > max_time(s.drop_last()) {
        s.last().time
    } else {
        max_time(s.drop_last())
    }
}

proof fn lemma_max_time_push(s: Seq<AbsoluteEventV>, x: AbsoluteEventV)
    ensures
        max_time(s.push(x)) == if x.time > max_time(s) {
            x.time
        } else {
            max_time(s)
        },
{
    assert(s.push(x).drop_last() =~= s);
    assert(s.push(x).last() == x);
}

/// An SMFBuilder can be used to create an SMF.  This is done by adding
/// tracks to the builder via `add_track` and then adding events to each
/// track.
pub struct SMFBuilder {
    tracks: Vec<TrackBuilder>,
}

impl View for SMFBuilder {
    type V = Seq<TrackBuilderV>;

    closed spec fn view(&self) -> Seq<TrackBuilderV> {
        self.tracks@.map_values(|t: TrackBuilder| t@)
    }
}

impl SMFBuilder {
    /// Create a new SMFBuilder.  Initially the builder will have no tracks.
    pub fn new() -> (r: SMFBuilder)
        ensures
            r@.len() == 0,
    {
        let r = SMFBuilder { tracks: Vec::new() };
        proof {
            assert(r@ =~= Seq::<TrackBuilderV>::empty());
        }
        r
    }

    /// Get the number of tracks currenly in the builder.
    pub fn num_tracks(&self) -> (r: usize)
        ensures
            r == self@.len(),
    {
        self.tracks.len()
    }

    /// Add a new track to this builder.
    pub fn add_track(&mut self)
        ensures
            final(self)@ == old(self)@.push(
                TrackBuilderV {
                    copyright: None,
                    name: None,
                    events: EventContainerV::Unordered(Seq::empty()),
                },
            ),
    {
        self.tracks.push(
            TrackBuilder { copyright: None, name: None, events: EventContainer::Unordered(Vec::new()) },
        );
        proof {
            assert(Seq::<AbsoluteEvent>::empty().map_values(|e: AbsoluteEvent| e@)
                =~= Seq::<AbsoluteEventV>::empty());
            assert(self@ =~= old(self)@.push(
                TrackBuilderV {
                    copyright: None,
                    name: None,
                    events: EventContainerV::Unordered(Seq::empty()),
                },
            ));
        }
    }

    /// Add a static track to the builder (note this will clone all
    /// events in the passed vector).
    pub fn add_static_track(&mut self, track: &Vec<AbsoluteEvent>)
        requires
            times_sorted(track@.map_values(|e: AbsoluteEvent| e@)),
        ensures
            final(self)@ == old(self)@.push(
                TrackBuilderV {
                    copyright: None,
                    name: None,
                    events: EventContainerV::Static(
                        delta_from_abs(track@.map_values(|e: AbsoluteEvent| e@), 0),
                    ),
                },
            ),
    {
        let vec = delta_events(track);
        self.tracks.push(
            TrackBuilder { copyright: None, name: None, events: EventContainer::Static(vec) },
        );
        proof {
            assert(self@ =~= old(self)@.push(
                TrackBuilderV {
                    copyright: None,
                    name: None,
                    events: EventContainerV::Static(
                        delta_from_abs(track@.map_values(|e: AbsoluteEvent| e@), 0),
                    ),
                },
            ));
        }
    }

    /// Set the copyright for the track at index `track`.  The track must
    /// not have a copyright yet.
    pub fn set_copyright(&mut self, track: usize, copyright: String)
        requires
            track < old(self)@.len(),
            old(self)@[track as int].copyright is None,
        ensures
            final(self)@ == old(self)@.update(
                track as int,
                TrackBuilderV { copyright: Some(copyright@), ..old(self)@[track as int] },
            ),
    {
        let ghost c = copyright@;
        self.tracks[track].copyright = Some(copyright);
        proof {
            assert(self@ =~= old(self)@.update(
                track as int,
                TrackBuilderV { copyright: Some(c), ..old(self)@[track as int] },
            ));
        }
    }

    /// Set the name for the track at index `track`.  The track must not
    /// have a name yet.
    pub fn set_name(&mut self, track: usize, name: String)
        requires
            track < old(self)@.len(),
            old(self)@[track as int].name is None,
        ensures
            final(self)@ == old(self)@.update(
                track as int,
                TrackBuilderV { name: Some(name@), ..old(self)@[track as int] },
            ),
    {
        let ghost n = name@;
        self.tracks[track].name = Some(name);
        proof {
            assert(self@ =~= old(self)@.update(
                track as int,
                TrackBuilderV { name: Some(n), ..old(self)@[track as int] },
            ));
        }
    }

    /// Add a midi message to track at index `track` at absolute time
    /// `time`.
    pub fn add_midi_abs(&mut self, track: usize, time: u64, msg: MidiMessage)
        requires
            track < old(self)@.len(),
            old(self)@[track as int].events is Unordered,
        ensures
            final(self)@ == old(self)@.update(
                track as int,
                TrackBuilderV {
                    events: EventContainerV::Unordered(
                        old(self)@[track as int].events->Unordered_0.push(
                            AbsoluteEventV { time, event: EventV::Midi(msg@) },
                        ),
                    ),
                    ..old(self)@[track as int]
                },
            ),
    {
        let ghost mv = msg@;
        let entry = &mut self.tracks[track];
        match &mut entry.events {
            EventContainer::Unordered(v) => {
                v.push(AbsoluteEvent { time, event: Event::Midi(msg) });
            },
            EventContainer::Static(_) => {
                proof {
                    assert(false);
                }
            },
        }
        proof {
            assert(self@[track as int].events->Unordered_0 =~= old(
                self,
            )@[track as int].events->Unordered_0.push(
                AbsoluteEventV { time, event: EventV::Midi(mv) },
            ));
            assert(self@ =~= old(self)@.update(
                track as int,
                TrackBuilderV {
                    events: EventContainerV::Unordered(
                        old(self)@[track as int].events->Unordered_0.push(
                            AbsoluteEventV { time, event: EventV::Midi(mv) },
                        ),
                    ),
                    ..old(self)@[track as int]
                },
            ));
        }
    }

    /// Add a midi message to track at index `track`, `delta` ticks after
    /// the latest message already held (or at `delta` when none is).
    pub fn add_midi_rel(&mut self, track: usize, delta: u64, msg: MidiMessage)
        requires
            track < old(self)@.len(),
            old(self)@[track as int].events is Unordered,
            max_time(old(self)@[track as int].events->Unordered_0) + delta <= u64::MAX,
        ensures
            final(self)@ == old(self)@.update(
                track as int,
                TrackBuilderV {
                    events: EventContainerV::Unordered(
                        old(self)@[track as int].events->Unordered_0.push(
                            AbsoluteEventV {
                                time: (max_time(old(self)@[track as int].events->Unordered_0)
                                    + delta) as u64,
                                event: EventV::Midi(msg@),
                            },
                        ),
                    ),
                    ..old(self)@[track as int]
                },
            ),
    {
        let time = self.tracks[track].abs_time_from_delta(delta);
        self.add_midi_abs(track, time, msg);
    }

    /// Add a meta event to track at index `track` at absolute time
    /// `time`.
    pub fn add_meta_abs(&mut self, track: usize, time: u64, event: MetaEvent)
        requires
            track < old(self)@.len(),
            old(self)@[track as int].events is Unordered,
        ensures
            final(self)@ == old(self)@.update(
                track as int,
                TrackBuilderV {
                    events: EventContainerV::Unordered(
                        old(self)@[track as int].events->Unordered_0.push(
                            AbsoluteEventV { time, event: EventV::Meta(event@) },
                        ),
                    ),
                    ..old(self)@[track as int]
                },
            ),
    {
        let ghost mv = event@;
        let entry = &mut self.tracks[track];
        match &mut entry.events {
            EventContainer::Unordered(v) => {
                v.push(AbsoluteEvent { time, event: Event::Meta(event) });
            },
            EventContainer::Static(_) => {
                proof {
                    assert(false);
                }
            },
        }
        proof {
            assert(self@[track as int].events->Unordered_0 =~= old(
                self,
            )@[track as int].events->Unordered_0.push(
                AbsoluteEventV { time, event: EventV::Meta(mv) },
            ));
            assert(self@ =~= old(self)@.update(
                track as int,
                TrackBuilderV {
                    events: EventContainerV::Unordered(
                        old(self)@[track as int].events->Unordered_0.push(
                            AbsoluteEventV { time, event: EventV::Meta(mv) },
                        ),
                    ),
                    ..old(self)@[track as int]
                },
            ));
        }
    }

    /// Add a meta event to track at index `track`, `delta` ticks after
    /// the latest message already held (or at `delta` when none is).
    pub fn add_meta_rel(&mut self, track: usize, delta: u64, event: MetaEvent)
        requires
            track < old(self)@.len(),
            old(self)@[track as int].events is Unordered,
            max_time(old(self)@[track as int].events->Unordered_0) + delta <= u64::MAX,
        ensures
            final(self)@ == old(self)@.update(
                track as int,
                TrackBuilderV {
                    events: EventContainerV::Unordered(
                        old(self)@[track as int].events->Unordered_0.push(
                            AbsoluteEventV {
                                time: (max_time(old(self)@[track as int].events->Unordered_0)
                                    + delta) as u64,
                                event: EventV::Meta(event@),
                            },
                        ),
                    ),
                    ..old(self)@[track as int]
                },
            ),
    {
        let time = self.tracks[track].abs_time_from_delta(delta);
        self.add_meta_abs(track, time, event);
    }

    /// Add a TrackEvent to the track at index `track`.  The event will be
    /// placed `event.vtime` ticks after the latest event already held.
    pub fn add_event(&mut self, track: usize, event: TrackEvent)
        requires
            track < old(self)@.len(),
            old(self)@[track as int].events is Unordered,
            max_time(old(self)@[track as int].events->Unordered_0) + event@.vtime <= u64::MAX,
        ensures
            final(self)@ == old(self)@.update(
                track as int,
                TrackBuilderV {
                    events: EventContainerV::Unordered(
                        old(self)@[track as int].events->Unordered_0.push(
                            AbsoluteEventV {
                                time: (max_time(old(self)@[track as int].events->Unordered_0)
                                    + event@.vtime) as u64,
                                event: event@.event,
                            },
                        ),
                    ),
                    ..old(self)@[track as int]
                },
            ),
    {
        let ghost ev = event@.event;
        let time = self.tracks[track].abs_time_from_delta(event.vtime);
        let entry = &mut self.tracks[track];
        match &mut entry.events {
            EventContainer::Unordered(v) => {
                v.push(AbsoluteEvent { time, event: event.event });
            },
            EventContainer::Static(_) => {
                proof {
                    assert(false);
                }
            },
        }
        proof {
            assert(self@[track as int].events->Unordered_0 =~= old(
                self,
            )@[track as int].events->Unordered_0.push(AbsoluteEventV { time, event: ev }));
            assert(self@ =~= old(self)@.update(
                track as int,
                TrackBuilderV {
                    events: EventContainerV::Unordered(
                        old(self)@[track as int].events->Unordered_0.push(
                            AbsoluteEventV { time, event: ev },
                        ),
                    ),
                    ..old(self)@[track as int]
                },
            ));
        }
    }

    /// Generate an SMF with the events that have been added to the
    /// builder.
    pub fn result(self) -> (r: SMF)
        ensures
            r@.format == SMFFormat::MultiTrack,
            r@.division == 0,
            r@.tracks.len() == self@.len(),
            forall|i: int| 0 <= i < self@.len() ==> track_result_matches(
                self@[i],
                #[trigger] r@.tracks[i],
            ),
    {
        let ghost tbs = self@;
        let mut remaining = self.tracks;
        let mut out: Vec<Track> = Vec::new();
        proof {
            assert(remaining@.map_values(|t: TrackBuilder| t@) =~= tbs);
        }
        while remaining.len() > 0
            invariant
                out@.len() + remaining@.len() == tbs.len(),
                forall|i: int| 0 <= i < remaining@.len() ==> (#[trigger] remaining@[i])@
                    == tbs[out@.len() + i],
                forall|i: int| 0 <= i < out@.len() ==> track_result_matches(
                    tbs[i],
                    (#[trigger] out@[i])@,
                ),
            decreases remaining@.len(),
        {
            let tb = remaining.remove(0);
            proof {
                assert(tb@ == tbs[out@.len() as int]);
            }
            let t = tb.result();
            out.push(t);
        }
        let r = SMF { format: SMFFormat::MultiTrack, tracks: out, division: 0 };
        proof {
            assert(r@.tracks.len() == tbs.len());
            assert forall|i: int| 0 <= i < tbs.len() implies track_result_matches(
                tbs[i],
                #[trigger] r@.tracks[i],
            ) by {
                assert(r@.tracks[i] == out@[i]@);
            }
        }
        r
    }
}

} // verus!
