//! rimd is a set of utilities to deal with midi messages and standard
//! midi files (SMF).  It handles both standard midi messages and the meta
//! messages that are found in SMFs.
//!
//! Messages are stored and accessed in their underlying format (a vector
//! of u8s).  Every parsing and writing function carries a contract that
//! relates it to the byte-level model of the format in `wire`.
use vstd::prelude::*;

pub mod builder;
pub mod meta;
pub mod midi;
pub mod reader;
pub mod writer;
pub mod util;
pub mod wire;

use crate::util::ReadError;
use crate::wire::{EventV, SMFV, TrackEventV, TrackV};

pub use crate::builder::{AbsoluteEvent, SMFBuilder};
pub use crate::meta::{MetaCommand, MetaError, MetaEvent};
pub use crate::midi::{make_status, MidiError, MidiMessage, Status, CHANNEL_MASK, STATUS_MASK};
pub use crate::reader::SMFReader;
pub use crate::util::note_num_to_name;
pub use crate::writer::SMFWriter;

verus! {

/// Format of the SMF.
#[derive(Debug, Clone, Copy, PartialEq, Eq, Structural)]
pub enum SMFFormat {
    /// single track file format
    Single,
    /// multiple track file format
    MultiTrack,
    /// multiple song file format (i.e., a series of single type files)
    MultiSong,
}

/// An event can be either a midi message or a meta event.
#[derive(Debug)]
pub enum Event {
    Midi(MidiMessage),
    Meta(MetaEvent),
}

impl View for Event {
    type V = EventV;

    open spec fn view(&self) -> EventV {
        match self {
            Event::Midi(m) => EventV::Midi(m@),
            Event::Meta(m) => EventV::Meta(m@),
        }
    }
}

impl Clone for Event {
    fn clone(&self) -> (r: Event)
        ensures
            r@ == self@,
    {
        match self {
            Event::Midi(m) => Event::Midi(m.clone()),
            Event::Meta(m) => Event::Meta(m.clone()),
        }
    }
}

impl Event {
    /// Return the number of bytes this event uses on the wire.
    pub fn len(&self) -> (r: usize)
        requires
            crate::wire::encode_event(self@).len() <= usize::MAX,
        ensures
            r == crate::wire::encode_event(self@).len(),
    {
        match self {
            Event::Midi(m) => m.data.len(),
            Event::Meta(m) => {
                let v = crate::writer::SMFWriter::vtime_to_vec(m.length);
                // +1 for command byte +1 for 0xFF to indicate Meta event
                v.len() + m.data.len() + 2
            },
        }
    }
}

/// An event occuring in the track.
#[derive(Debug)]
pub struct TrackEvent {
    /// A delta offset, indicating how many ticks after the previous
    /// event this event occurs
    pub vtime: u64,
    /// The actual event
    pub event: Event,
}

impl View for TrackEvent {
    type V = TrackEventV;

    open spec fn view(&self) -> TrackEventV {
        TrackEventV { vtime: self.vtime, event: self.event@ }
    }
}

impl Clone for TrackEvent {
    fn clone(&self) -> (r: TrackEvent)
        ensures
            r@ == self@,
    {
        TrackEvent { vtime: self.vtime, event: self.event.clone() }
    }
}

impl TrackEvent {
    /// Return the number of bytes this event uses in the track,
    /// including the space for the time offset.
    pub fn len(&self) -> (r: usize)
        requires
            crate::wire::encode_track_event(self@).len() <= usize::MAX,
        ensures
            r == crate::wire::encode_track_event(self@).len(),
    {
        let v = crate::writer::SMFWriter::vtime_to_vec(self.vtime);
        v.len() + self.event.len()
    }
}

/// A sequence of midi/meta events.
#[derive(Debug)]
pub struct Track {
    /// Optional copyright notice
    pub copyright: Option<String>,
    /// Optional name for this track
    pub name: Option<String>,
    /// Vector of the events in this track
    pub events: Vec<TrackEvent>,
}

impl View for Track {
    type V = TrackV;

    open spec fn view(&self) -> TrackV {
        TrackV {
            copyright: match self.copyright {
                Some(ref c) => Some(c@),
                None => None,
            },
            name: match self.name {
                Some(ref n) => Some(n@),
                None => None,
            },
            events: self.events@.map_values(|e: TrackEvent| e@),
        }
    }
}

impl Clone for Track {
    fn clone(&self) -> (r: Track)
        ensures
            r@ == self@,
    {
        let copyright = match &self.copyright {
            Some(c) => Some(c.clone()),
            None => None,
        };
        let name = match &self.name {
            Some(n) => Some(n.clone()),
            None => None,
        };
        let mut events: Vec<TrackEvent> = Vec::new();
        let mut i: usize = 0;
        while i < self.events.len()
            invariant
                i <= self.events@.len(),
                events@.len() == i,
                forall|j: int| 0 <= j < i ==> events@[j]@ == self.events@[j]@,
            decreases self.events@.len() - i,
        {
            events.push(self.events[i].clone());
            i = i + 1;
        }
        let r = Track { copyright, name, events };
        proof {
            assert(r@.events =~= self@.events);
            assert(r@ =~= self@);
        }
        r
    }
}

/// An error that occured in parsing an SMF.
#[derive(Debug, Clone, Copy, PartialEq)]
pub enum SMFError {
    InvalidSMFFile(&'static str),
    MidiError(MidiError),
    MetaError(crate::meta::MetaError),
    Error(ReadError),
}

/// A standard midi file.
#[derive(Debug)]
pub struct SMF {
    /// The format of the SMF
    pub format: SMFFormat,
    /// Vector holding each track in this SMF
    pub tracks: Vec<Track>,
    /// The unit of time for delta timing. If the value is positive,
    /// then it represents the units per beat. For example, +96 would
    /// mean 96 ticks per beat. If the value is negative, delta times
    /// are in SMPTE compatible units.
    pub division: i16,
}

impl View for SMF {
    type V = SMFV;

    open spec fn view(&self) -> SMFV {
        SMFV {
            format: self.format,
            tracks: self.tracks@.map_values(|t: Track| t@),
            division: self.division,
        }
    }
}

/// The same events with each delta replaced by the running total: the
/// absolute time of every event, truncated to 64 bits.
pub open spec fn with_abs(evs: Seq<TrackEventV>, t: u64) -> Seq<TrackEventV>
    decreases evs.len(),
{
    if evs.len() == 0 {
        Seq::empty()
    } else {
        seq![
            TrackEventV { vtime: (t + evs[0].vtime) as u64, event: evs[0].event },
        ] + with_abs(evs.drop_first(), (t + evs[0].vtime) as u64)
    }
}

/// The sum of all delta times.
pub open spec fn sum_vtimes(evs: Seq<TrackEventV>) -> int
    decreases evs.len(),
{
    if evs.len() == 0 {
        0
    } else {
        evs[0].vtime + sum_vtimes(evs.drop_first())
    }
}

/// The same events with each absolute time (held in `vtime`) replaced by
/// the delta since the event before (or since `prev` for the first).
pub open spec fn re_delta(evs: Seq<TrackEventV>, prev: u64) -> Seq<TrackEventV>
    decreases evs.len(),
{
    if evs.len() == 0 {
        Seq::empty()
    } else {
        seq![
            TrackEventV { vtime: (evs[0].vtime - prev) as u64, event: evs[0].event },
        ] + re_delta(evs.drop_first(), evs[0].vtime)
    }
}

/// The track a channel message is dispatched to when a single-track file
/// is split: one track per channel, and a first track for meta events and
/// channel-less system messages.
pub open spec fn bucket_of(e: EventV) -> int {
    match e {
        EventV::Midi(d) => if d.len() >= 1 && crate::wire::is_channel_status(d[0]) {
            (d[0] & 0x0F) + 1
        } else {
            0
        },
        EventV::Meta(_) => 0,
    }
}

pub open spec fn bucket_pred(k: int) -> spec_fn(TrackEventV) -> bool {
    |te: TrackEventV| bucket_of(te.event) == k
}

/// The absolutely-timed events that land in track `k` of the split.
pub open spec fn bucket_filter(abs: Seq<TrackEventV>, k: int) -> Seq<TrackEventV> {
    abs.filter(bucket_pred(k))
}

pub open spec fn nonempty_bucket() -> spec_fn(Seq<TrackEventV>) -> bool {
    |b: Seq<TrackEventV>| b.len() > 0
}

/// All seventeen buckets of the split, in track order.
pub open spec fn buckets_of(abs: Seq<TrackEventV>) -> Seq<Seq<TrackEventV>> {
    Seq::new(17, |k: int| bucket_filter(abs, k))
}

/// The buckets that actually hold events, in track order: the tracks of
/// the split file.
pub open spec fn kept_buckets(abs: Seq<TrackEventV>) -> Seq<Seq<TrackEventV>> {
    buckets_of(abs).filter(nonempty_bucket())
}

proof fn lemma_filter_push<A>(s: Seq<A>, x: A, pred: spec_fn(A) -> bool)
    ensures
        s.push(x).filter(pred) == if pred(x) {
            s.filter(pred).push(x)
        } else {
            s.filter(pred)
        },
{
    reveal(Seq::filter);
    assert(s.push(x).drop_last() =~= s);
    assert(s.push(x).last() == x);
}

proof fn lemma_with_abs_push(evs: Seq<TrackEventV>, x: TrackEventV, t: u64)
    ensures
        with_abs(evs.push(x), t) == with_abs(evs, t).push(
            TrackEventV {
                vtime: (last_abs(evs, t) + x.vtime) as u64,
                event: x.event,
            },
        ),
    decreases evs.len(),
{
    if evs.len() == 0 {
        reveal_with_fuel(with_abs, 2);
        assert(evs.push(x)[0] == x);
        assert(evs.push(x).drop_first() =~= Seq::<TrackEventV>::empty());
        assert(with_abs(evs.push(x), t) =~= with_abs(evs, t).push(
            TrackEventV { vtime: (t + x.vtime) as u64, event: x.event },
        ));
    } else {
        assert(evs.push(x)[0] == evs[0]);
        assert(evs.push(x).drop_first() =~= evs.drop_first().push(x));
        let t2 = (t + evs[0].vtime) as u64;
        lemma_with_abs_push(evs.drop_first(), x, t2);
        assert(last_abs(evs.drop_first(), t2) == last_abs(evs, t)) by {
            lemma_with_abs_shape(evs, t);
            if evs.drop_first().len() > 0 {
                assert(with_abs(evs, t).drop_first() =~= with_abs(evs.drop_first(), t2));
                assert(with_abs(evs.drop_first(), t2).last() == with_abs(evs, t).last());
            }
        }
        let item = TrackEventV {
            vtime: (last_abs(evs, t) + x.vtime) as u64,
            event: x.event,
        };
        assert(seq![
            TrackEventV { vtime: t2, event: evs[0].event },
        ] + with_abs(evs.drop_first(), t2).push(item) =~= (seq![
            TrackEventV { vtime: t2, event: evs[0].event },
        ] + with_abs(evs.drop_first(), t2)).push(item));
    }
}

/// The absolute time reached after the events, starting from `t`.
pub open spec fn last_abs(evs: Seq<TrackEventV>, t: u64) -> u64 {
    if evs.len() == 0 {
        t
    } else {
        with_abs(evs, t).last().vtime
    }
}

proof fn lemma_with_abs_shape(evs: Seq<TrackEventV>, t: u64)
    ensures
        with_abs(evs, t).len() == evs.len(),
    decreases evs.len(),
{
    if evs.len() > 0 {
        lemma_with_abs_shape(evs.drop_first(), (t + evs[0].vtime) as u64);
    }
}

proof fn lemma_re_delta_push(evs: Seq<TrackEventV>, x: TrackEventV, prev: u64)
    ensures
        re_delta(evs.push(x), prev) == re_delta(evs, prev).push(
            TrackEventV {
                vtime: (x.vtime - last_abs_time(evs, prev)) as u64,
                event: x.event,
            },
        ),
    decreases evs.len(),
{
    if evs.len() == 0 {
        reveal_with_fuel(re_delta, 2);
        assert(evs.push(x)[0] == x);
        assert(evs.push(x).drop_first() =~= Seq::<TrackEventV>::empty());
        assert(re_delta(evs.push(x), prev) =~= re_delta(evs, prev).push(
            TrackEventV { vtime: (x.vtime - prev) as u64, event: x.event },
        ));
    } else {
        assert(evs.push(x)[0] == evs[0]);
        assert(evs.push(x).drop_first() =~= evs.drop_first().push(x));
        lemma_re_delta_push(evs.drop_first(), x, evs[0].vtime);
        assert(last_abs_time(evs.drop_first(), evs[0].vtime) == last_abs_time(evs, prev)) by {
            if evs.drop_first().len() > 0 {
                assert(evs.drop_first().last() == evs.last());
            }
        }
        let item = TrackEventV {
            vtime: (x.vtime - last_abs_time(evs, prev)) as u64,
            event: x.event,
        };
        let head = seq![
            TrackEventV { vtime: (evs[0].vtime - prev) as u64, event: evs[0].event },
        ];
        assert(head + re_delta(evs.drop_first(), evs[0].vtime).push(item) =~= (head + re_delta(
            evs.drop_first(),
            evs[0].vtime,
        )).push(item));
    }
}

/// The absolute time held by the last event, or `prev` when there is none.
pub open spec fn last_abs_time(evs: Seq<TrackEventV>, prev: u64) -> u64 {
    if evs.len() == 0 {
        prev
    } else {
        evs.last().vtime
    }
}

/// Turn events whose `vtime` holds a non-decreasing absolute time back
/// into delta-timed events.
fn re_delta_events(v: &Vec<TrackEvent>) -> (r: Vec<TrackEvent>)
    requires
        forall|i: int, j: int|
            0 <= i < j < v@.len() ==> (#[trigger] v@[i])@.vtime <= (#[trigger] v@[j])@.vtime,
    ensures
        r@.map_values(|e: TrackEvent| e@) == re_delta(v@.map_values(|e: TrackEvent| e@), 0),
{
    let ghost p = v@.map_values(|e: TrackEvent| e@);
    let mut events: Vec<TrackEvent> = Vec::new();
    let mut prev_time: u64 = 0;
    let mut j: usize = 0;
    proof {
        assert(events@.map_values(|e: TrackEvent| e@) =~= re_delta(p.take(0), 0));
    }
    while j < v.len()
        invariant
            j <= v@.len(),
            p == v@.map_values(|e: TrackEvent| e@),
            forall|a: int, b: int| 0 <= a < b < p.len() ==> (#[trigger] p[a]).vtime
                <= (#[trigger] p[b]).vtime,
            prev_time == last_abs_time(p.take(j as int), 0),
            events@.map_values(|e: TrackEvent| e@) == re_delta(p.take(j as int), 0),
        decreases v@.len() - j,
    {
        let ev = &v[j];
        proof {
            assert(ev@ == p[j as int]);
            if j > 0 {
                assert(p.take(j as int).last() == p[j - 1]);
            }
            assert(prev_time <= ev@.vtime);
            lemma_re_delta_push(p.take(j as int), p[j as int], 0);
            assert(p.take(j + 1) =~= p.take(j as int).push(p[j as int]));
        }
        let vtime = ev.vtime - prev_time;
        prev_time = ev.vtime;
        let te = TrackEvent { vtime, event: ev.event.clone() };
        events.push(te);
        proof {
            assert(events@.map_values(|e: TrackEvent| e@) =~= re_delta(p.take(j as int), 0).push(
                te@,
            ));
            assert(p.take(j + 1).last() == p[j as int]);
        }
        j = j + 1;
    }
    proof {
        assert(p.take(p.len() as int) =~= p);
    }
    events
}

proof fn lemma_sum_vtimes_take_step(evs: Seq<TrackEventV>, i: int)
    requires
        0 <= i < evs.len(),
    ensures
        sum_vtimes(evs.take(i + 1)) == sum_vtimes(evs.take(i)) + evs[i].vtime,
    decreases i,
{
    if i == 0 {
        reveal_with_fuel(sum_vtimes, 3);
        assert(evs.take(0) =~= Seq::<TrackEventV>::empty());
        assert(evs.take(1)[0] == evs[0]);
        assert(evs.take(1).drop_first() =~= Seq::<TrackEventV>::empty());
    } else {
        lemma_sum_vtimes_take_step(evs.drop_first(), i - 1);
        assert(evs.take(i + 1)[0] == evs[0]);
        assert(evs.take(i + 1).drop_first() =~= evs.drop_first().take(i));
        assert(evs.take(i)[0] == evs[0]);
        assert(evs.take(i).drop_first() =~= evs.drop_first().take(i - 1));
        assert(evs.drop_first()[i - 1] == evs[i]);
    }
}

proof fn lemma_sum_vtimes_take_bound(evs: Seq<TrackEventV>, i: int)
    requires
        0 <= i <= evs.len(),
    ensures
        sum_vtimes(evs.take(i)) <= sum_vtimes(evs),
        sum_vtimes(evs.take(i)) >= 0,
    decreases evs.len() - i,
{
    if i == evs.len() {
        assert(evs.take(i) =~= evs);
        lemma_sum_vtimes_nonneg(evs);
    } else {
        lemma_sum_vtimes_take_step(evs, i);
        lemma_sum_vtimes_take_bound(evs, i + 1);
        lemma_sum_vtimes_nonneg(evs.take(i));
    }
}

proof fn lemma_sum_vtimes_nonneg(evs: Seq<TrackEventV>)
    ensures
        sum_vtimes(evs) >= 0,
    decreases evs.len(),
{
    if evs.len() > 0 {
        lemma_sum_vtimes_nonneg(evs.drop_first());
    }
}

impl SMF {
    /// Read an SMF from the given byte source.
    pub fn from_reader(reader: &mut crate::util::ByteSource) -> (r: Result<SMF, SMFError>)
        requires
            old(reader).wf(),
        ensures
            final(reader).wf(),
            final(reader).data@ == old(reader).data@,
            match r {
                Ok(smf) => crate::wire::parse_smf(old(reader).remaining()) == Some(smf@),
                Err(e) => {
                    &&& crate::wire::parse_smf(old(reader).remaining()) is None
                    &&& ({
                        let rem = old(reader).remaining();
                        let s1 = if crate::wire::riff_prefix(rem) {
                            rem.skip(20)
                        } else {
                            rem
                        };
                        (!(crate::wire::riff_prefix(rem) && rem.len() < 20) && s1.len() >= 14
                            && s1.subrange(0, 4) == crate::wire::mthd_magic()
                            && crate::wire::format_of_byte(s1[9]) is None) ==> (e matches
                        SMFError::InvalidSMFFile(m) && m@ == "Invalid format bytes"@)
                    })
                },
            },
    {
        crate::reader::SMFReader::read_smf(reader)
    }

    /// Convert a type 0 (single track) to type 1 (multi track) SMF.
    /// Does nothing if the SMF is already in type 1.
    /// Returns None if the SMF is in type 2 (multi song).
    ///
    /// The single track is split by channel: each event keeps its
    /// absolute position in time, channel messages are dealt to one
    /// track per channel, and meta events and channel-less system
    /// messages open the result.  Tracks that receive nothing are left
    /// out, and the first track inherits the original's name and
    /// copyright.
    pub fn to_multi_track(&self) -> (r: Option<SMF>)
        requires
            self@.format == SMFFormat::Single ==> {
                &&& self@.tracks.len() >= 1
                &&& self@.tracks[0].events.len() >= 1
                &&& sum_vtimes(self@.tracks[0].events) <= u64::MAX
                &&& forall|i: int|
                    0 <= i < self@.tracks[0].events.len() ==> ((
                    #[trigger] self@.tracks[0].events[i]).event matches EventV::Midi(d) ==> d.len()
                        >= 1 && crate::wire::is_valid_status(d[0]))
            },
        ensures
            self@.format == SMFFormat::MultiSong ==> r is None,
            self@.format == SMFFormat::MultiTrack ==> (r matches Some(s) && s@ == self@),
            self@.format == SMFFormat::Single ==> (r matches Some(out) && {
                let abs = with_abs(self@.tracks[0].events, 0);
                let kept = kept_buckets(abs);
                &&& out@.format == SMFFormat::MultiTrack
                &&& out@.division == self@.division
                &&& out@.tracks.len() == kept.len()
                &&& kept.len() >= 1
                &&& forall|i: int| 0 <= i < kept.len() ==> (#[trigger] out@.tracks[i]).events
                    == re_delta(kept[i], 0)
                &&& out@.tracks[0].name == self@.tracks[0].name
                &&& out@.tracks[0].copyright == self@.tracks[0].copyright
                &&& forall|i: int|
                    1 <= i < kept.len() ==> (#[trigger] out@.tracks[i]).name is None
                        && out@.tracks[i].copyright is None
            }),
    {
        match self.format {
            SMFFormat::MultiTrack => Some(self.clone()),
            SMFFormat::MultiSong => None,
            SMFFormat::Single => {
                let ghost evs0 = self@.tracks[0].events;
                // meta track and 16 for the 16 channels
                let mut buckets: Vec<Vec<TrackEvent>> = Vec::new();
                let mut b: usize = 0;
                while b < 17
                    invariant
                        b <= 17,
                        buckets@.len() == b,
                        forall|k: int| 0 <= k < b ==> (#[trigger] buckets@[k])@.len() == 0,
                    decreases 17 - b,
                {
                    buckets.push(Vec::new());
                    b = b + 1;
                }
                let mut time: u64 = 0;
                let track0 = &self.tracks[0];
                let mut i: usize = 0;
                proof {
                    assert(track0@ == self@.tracks[0]);
                    assert(evs0.take(0) =~= Seq::<TrackEventV>::empty());
                    assert forall|k: int| 0 <= k < 17 implies (#[trigger] buckets@[k])@.map_values(
                        |e: TrackEvent| e@,
                    ) == bucket_filter(with_abs(evs0.take(0), 0), k) by {
                        reveal(Seq::filter);
                        assert(buckets@[k]@.map_values(|e: TrackEvent| e@)
                            =~= Seq::<TrackEventV>::empty());
                        assert(with_abs(evs0.take(0), 0) =~= Seq::<TrackEventV>::empty());
                    }
                }
                while i < track0.events.len()
                    invariant
                        i <= track0.events@.len(),
                        track0@ == self@.tracks[0],
                        evs0 == track0.events@.map_values(|e: TrackEvent| e@),
                        evs0.len() >= 1,
                        sum_vtimes(evs0) <= u64::MAX,
                        forall|n: int|
                            0 <= n < evs0.len() ==> ((#[trigger] evs0[n]).event matches
                            EventV::Midi(d) ==> d.len() >= 1 && crate::wire::is_valid_status(
                                d[0],
                            )),
                        buckets@.len() == 17,
                        time == sum_vtimes(evs0.take(i as int)),
                        time == last_abs(evs0.take(i as int), 0),
                        forall|k: int| 0 <= k < 17 ==> (#[trigger] buckets@[k])@.map_values(
                            |e: TrackEvent| e@,
                        ) == bucket_filter(with_abs(evs0.take(i as int), 0), k),
                        forall|k: int, n: int|
                            0 <= k < 17 && 0 <= n < buckets@[k]@.len() ==> (
                            #[trigger] buckets@[k]@[n])@.vtime <= time,
                        forall|k: int, n: int, m: int|
                            #![trigger buckets@[k]@[n], buckets@[k]@[m]]
                            0 <= k < 17 && 0 <= n < m < buckets@[k]@.len()
                                ==> (buckets@[k]@[n])@.vtime <= (buckets@[k]@[m])@.vtime,
                    decreases track0.events@.len() - i,
                {
                    let ghost absd = with_abs(evs0.take(i as int), 0);
                    let ghost buckets_pre = buckets@;
                    let event = &track0.events[i];
                    proof {
                        assert(event@ == evs0[i as int]);
                        lemma_sum_vtimes_take_step(evs0, i as int);
                        lemma_sum_vtimes_take_bound(evs0, i + 1);
                        lemma_with_abs_push(evs0.take(i as int), evs0[i as int], 0);
                        assert(evs0.take(i + 1) =~= evs0.take(i as int).push(evs0[i as int]));
                    }
                    time = time + event.vtime;
                    let ghost newv = TrackEventV { vtime: time, event: evs0[i as int].event };
                    let idx: usize = match &event.event {
                        Event::Midi(msg) => {
                            match msg.channel() {
                                Some(c) => {
                                    proof {
                                        let d0 = evs0[i as int].event->Midi_0[0];
                                        assert((d0 & 0x0F) < 16) by (bit_vector);
                                    }
                                    (c as usize) + 1
                                },
                                None => 0,
                            }
                        },
                        Event::Meta(_) => 0,
                    };
                    proof {
                        assert(idx as int == bucket_of(newv.event));
                    }
                    let slot = &mut buckets[idx];
                    slot.push(TrackEvent { vtime: time, event: event.event.clone() });
                    proof {
                        assert forall|k: int| 0 <= k < 17 implies (
                        #[trigger] buckets@[k])@.map_values(|e: TrackEvent| e@) == bucket_filter(
                            with_abs(evs0.take(i + 1), 0),
                            k,
                        ) by {
                            lemma_filter_push(absd, newv, bucket_pred(k));
                            if k == idx {
                                assert(buckets@[k]@.map_values(|e: TrackEvent| e@)
                                    =~= buckets_pre[k]@.map_values(|e: TrackEvent| e@).push(newv));
                            } else {
                                assert(buckets@[k] == buckets_pre[k]);
                            }
                        }
                    }
                    i = i + 1;
                }
                proof {
                    assert(evs0.take(evs0.len() as int) =~= evs0);
                }
                let ghost abs = with_abs(evs0, 0);
                let mut out_tracks: Vec<Track> = Vec::new();
                let mut k: usize = 0;
                proof {
                    assert(buckets_of(abs).take(0) =~= Seq::<Seq<TrackEventV>>::empty());
                    assert(buckets_of(abs).take(0).filter(nonempty_bucket())
                        =~= Seq::<Seq<TrackEventV>>::empty()) by {
                        reveal(Seq::filter);
                    }
                }
                while k < 17
                    invariant
                        k <= 17,
                        buckets@.len() == 17,
                        forall|j: int| 0 <= j < 17 ==> (#[trigger] buckets@[j])@.map_values(
                            |e: TrackEvent| e@,
                        ) == bucket_filter(abs, j),
                        forall|j: int, n: int, m: int|
                            #![trigger buckets@[j]@[n], buckets@[j]@[m]]
                            0 <= j < 17 && 0 <= n < m < buckets@[j]@.len()
                                ==> (buckets@[j]@[n])@.vtime <= (buckets@[j]@[m])@.vtime,
                        ({
                            let kp = buckets_of(abs).take(k as int).filter(nonempty_bucket());
                            &&& out_tracks@.len() == kp.len()
                            &&& forall|j: int| 0 <= j < kp.len() ==> {
                                &&& (#[trigger] out_tracks@[j])@.events == re_delta(kp[j], 0)
                                &&& out_tracks@[j]@.name is None
                                &&& out_tracks@[j]@.copyright is None
                            }
                        }),
                    decreases 17 - k,
                {
                    proof {
                        assert(buckets_of(abs).take(k + 1) =~= buckets_of(abs).take(
                            k as int,
                        ).push(buckets_of(abs)[k as int]));
                        lemma_filter_push(
                            buckets_of(abs).take(k as int),
                            buckets_of(abs)[k as int],
                            nonempty_bucket(),
                        );
                        assert(buckets_of(abs)[k as int] == bucket_filter(abs, k as int));
                        assert(buckets@[k as int]@.map_values(|e: TrackEvent| e@) == bucket_filter(
                            abs,
                            k as int,
                        ));
                    }
                    if buckets[k].len() > 0 {
                        let events = re_delta_events(&buckets[k]);
                        out_tracks.push(Track { copyright: None, name: None, events });
                    }
                    k = k + 1;
                }
                proof {
                    assert(buckets_of(abs).take(17) =~= buckets_of(abs));
                    // the bucket of the first event is not empty, so at
                    // least one track comes out
                    broadcast use vstd::seq_lib::group_filter_ensures;

                    assert(abs.len() >= 1) by {
                        lemma_with_abs_shape(evs0, 0);
                    }
                    let b0 = bucket_of(abs[0].event);
                    assert(0 <= b0 < 17) by {
                        match abs[0].event {
                            EventV::Midi(d) => {
                                if d.len() >= 1 && crate::wire::is_channel_status(d[0]) {
                                    let d0 = d[0];
                                    assert((d0 & 0x0F) < 16) by (bit_vector);
                                }
                            },
                            EventV::Meta(_) => {},
                        }
                    }
                    assert(bucket_pred(b0)(abs[0]));
                    assert(bucket_filter(abs, b0).contains(abs[0])) by {
                        abs.lemma_filter_contains(bucket_pred(b0), 0);
                    }
                    assert(bucket_filter(abs, b0).len() > 0);
                    assert(nonempty_bucket()(buckets_of(abs)[b0]));
                    assert(kept_buckets(abs).contains(buckets_of(abs)[b0])) by {
                        buckets_of(abs).lemma_filter_contains(nonempty_bucket(), b0);
                    }
                    assert(kept_buckets(abs).len() >= 1);
                }
                let first = &mut out_tracks[0];
                first.name = match &self.tracks[0].name {
                    Some(n) => Some(n.clone()),
                    None => None,
                };
                first.copyright = match &self.tracks[0].copyright {
                    Some(c) => Some(c.clone()),
                    None => None,
                };
                let out = SMF {
                    format: SMFFormat::MultiTrack,
                    tracks: out_tracks,
                    division: self.division,
                };
                Some(out)
            },
        }
    }
}

impl Clone for SMF {
    fn clone(&self) -> (r: SMF)
        ensures
            r@ == self@,
    {
        let mut tracks: Vec<Track> = Vec::new();
        let mut i: usize = 0;
        while i < self.tracks.len()
            invariant
                i <= self.tracks@.len(),
                tracks@.len() == i,
                forall|j: int| 0 <= j < i ==> tracks@[j]@ == self.tracks@[j]@,
            decreases self.tracks@.len() - i,
        {
            tracks.push(self.tracks[i].clone());
            i = i + 1;
        }
        let r = SMF { format: self.format, tracks, division: self.division };
        proof {
            assert(r@.tracks =~= self@.tracks);
            assert(r@ =~= self@);
        }
        r
    }
}

} // verus!
