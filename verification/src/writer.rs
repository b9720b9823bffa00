//! Writing an SMF out as bytes.
use crate::meta::MetaCommand;
use crate::wire::{
    be16, be32, concat_bytes, encode_event, encode_events, encode_header, encode_track,
    encode_track_event, eot_bytes, format_code, has_eot, lemma_concat_bytes_push,
    lemma_encode_events_push, lemma_has_eot_take_step, lemma_vlq_cont_len, mtrk_magic, track_body,
    vlq_cont, vlq_encode, EventV, TrackEventV, TrackV,
};
use crate::builder::{times_sorted, AbsoluteEvent};
use crate::{Event, SMFFormat, TrackEvent, SMF};
use byteorder::{BigEndian, WriteBytesExt};
use vstd::arithmetic::power::pow;
use vstd::prelude::*;

verus! {

/// An SMFWriter is used to turn an SMF into its wire bytes.  It can be
/// either constructed empty and have tracks added, or created from an
/// existing SMF.  Each added track is held as a finished chunk.
pub struct SMFWriter {
    pub format: u16,
    pub ticks: i16,
    pub tracks: Vec<Vec<u8>>,
}

/// The chunks a writer holds, as byte strings.
pub open spec fn chunks_of(tracks: Seq<Vec<u8>>) -> Seq<Seq<u8>> {
    tracks.map_values(|t: Vec<u8>| t@)
}

/// The delta-timed events a track of absolutely-timed events is written
/// as, with a name event first when a name is given.
pub open spec fn named_track_events(
    name: Option<Seq<char>>,
    evs: Seq<crate::builder::AbsoluteEventV>,
) -> Seq<TrackEventV> {
    let deltas = crate::builder::delta_from_abs(evs, 0);
    match name {
        Some(n) => seq![
            TrackEventV {
                vtime: 0,
                event: EventV::Meta(
                    crate::wire::MetaEventV {
                        command: MetaCommand::SequenceOrTrackName,
                        length: vstd::utf8::encode_utf8(n).len() as u64,
                        data: vstd::utf8::encode_utf8(n),
                    },
                ),
            },
        ] + deltas,
        None => deltas,
    }
}

/// Appends the four big-endian bytes of `x` to `v`.
///
/// Relies on byteorder's `WriteBytesExt::write_u32::<BigEndian>`, which
/// writes the value's big-endian bytes; writing into a `Vec` cannot fail.
#[verifier::external_body]
fn write_u32_be(v: &mut Vec<u8>, x: u32)
    ensures
        final(v)@ == old(v)@ + be32(x),
{
    v.write_u32::<BigEndian>(x).unwrap();
}

/// Appends the two big-endian bytes of `x` to `v`.
///
/// Relies on byteorder's `WriteBytesExt::write_u16::<BigEndian>`, which
/// writes the value's big-endian bytes; writing into a `Vec` cannot fail.
#[verifier::external_body]
fn write_u16_be(v: &mut Vec<u8>, x: u16)
    ensures
        final(v)@ == old(v)@ + be16(x),
{
    v.write_u16::<BigEndian>(x).unwrap();
}

/// Appends the two big-endian bytes of the signed `x` to `v`.
///
/// Relies on byteorder's `WriteBytesExt::write_i16::<BigEndian>`, which
/// writes the value's two's-complement big-endian bytes; writing into a
/// `Vec` cannot fail.
#[verifier::external_body]
fn write_i16_be(v: &mut Vec<u8>, x: i16)
    ensures
        final(v)@ == old(v)@ + be16(x as u16),
{
    v.write_i16::<BigEndian>(x).unwrap();
}

fn vlq_cont_vec(v: u64) -> (r: Vec<u8>)
    ensures
        r@ == vlq_cont(v as nat),
    decreases v,
{
    if v == 0 {
        let r: Vec<u8> = Vec::new();
        proof {
            assert(r@ =~= vlq_cont(0));
        }
        r
    } else {
        proof {
            assert(v >> 7 == v / 128) by (bit_vector);
            assert(v >> 7 < v) by (bit_vector)
                requires
                    v != 0,
            ;
            assert((v & 0x7F) | 0x80 == v % 128 + 128) by (bit_vector);
        }
        let mut r = vlq_cont_vec(v >> 7);
        r.push(((v & 0x7F) | 0x80) as u8);
        r
    }
}

impl SMFWriter {
    /// Create a new SMFWriter with the given number of units per beat.
    /// The SMFWriter will initially have no tracks.
    pub fn new_with_division(ticks: i16) -> (r: SMFWriter)
        ensures
            r.format == 1,
            r.ticks == ticks,
            r.tracks@.len() == 0,
    {
        SMFWriter { format: 1, ticks, tracks: Vec::new() }
    }

    /// Create a new SMFWriter with the given format and number of units
    /// per beat.  The SMFWriter will initially have no tracks.
    pub fn new_with_division_and_format(format: SMFFormat, ticks: i16) -> (r: SMFWriter)
        ensures
            r.format == format_code(format),
            r.ticks == ticks,
            r.tracks@.len() == 0,
    {
        let code: u16 = match format {
            SMFFormat::Single => 0,
            SMFFormat::MultiTrack => 1,
            SMFFormat::MultiSong => 2,
        };
        SMFWriter { format: code, ticks, tracks: Vec::new() }
    }

    /// The minimal variable-length encoding of a value.
    pub fn vtime_to_vec(val: u64) -> (r: Vec<u8>)
        ensures
            r@ == vlq_encode(val as nat),
            1 <= r@.len() <= 10,
    {
        proof {
            assert(pow(128, 9) == 0x8000_0000_0000_0000) by {
                reveal_with_fuel(pow, 10);
            }
            lemma_vlq_cont_len((val as nat) / 128, 9);
            assert(val >> 7 == val / 128) by (bit_vector);
            assert(val & 0x7F == val % 128) by (bit_vector);
        }
        let mut storage = vlq_cont_vec(val >> 7);
        storage.push((val & 0x7F) as u8);
        storage
    }

    /// Write a variable length value.  Return number of bytes written.
    pub fn write_vtime(val: u64, writer: &mut Vec<u8>) -> (r: u32)
        ensures
            final(writer)@ == old(writer)@ + vlq_encode(val as nat),
            r == vlq_encode(val as nat).len(),
            1 <= r <= 10,
    {
        let mut storage = SMFWriter::vtime_to_vec(val);
        let n = storage.len();
        writer.append(&mut storage);
        n as u32
    }

    /// Append one event's wire bytes, remembering whether an end-of-track
    /// marker has been written.
    fn write_event(vec: &mut Vec<u8>, event: &Event, saw_eot: &mut bool)
        ensures
            final(vec)@ == old(vec)@ + encode_event(event@),
            *final(saw_eot) == (*old(saw_eot) || (event@ matches EventV::Meta(m) && m.command
                == MetaCommand::EndOfTrack)),
    {
        match event {
            Event::Midi(midi) => {
                vec.extend_from_slice(midi.data.as_slice());
                proof {
                    assert(vec@ =~= old(vec)@ + encode_event(event@));
                }
            },
            Event::Meta(meta) => {
                // the marker byte, the command, the declared length, then
                // the payload verbatim
                vec.push(0xff);
                vec.push(meta.command.code());
                let _ = SMFWriter::write_vtime(meta.length, vec);
                vec.extend_from_slice(meta.data.as_slice());
                proof {
                    assert(vec@ =~= old(vec)@ + encode_event(event@));
                }
                if matches!(meta.command, MetaCommand::EndOfTrack) {
                    *saw_eot = true;
                }
            },
        }
    }

    /// Append the synthesized end-of-track marker if none was written.
    fn finish_track_write(vec: &mut Vec<u8>, saw_eot: bool)
        ensures
            final(vec)@ == old(vec)@ + if saw_eot {
                Seq::<u8>::empty()
            } else {
                eot_bytes()
            },
    {
        if !saw_eot {
            // no end of track marker in passed data, add one
            vec.push(0x00);
            vec.push(0xff);
            vec.push(0x2F);
            vec.push(0x00);
        }
        proof {
            if saw_eot {
                assert(vec@ =~= old(vec)@ + Seq::<u8>::empty());
            } else {
                assert(vec@ =~= old(vec)@ + eot_bytes());
            }
        }
    }

    /// Wrap a finished track body in its chunk header: the magic, then
    /// the body's exact byte count, then the body.
    fn chunk_from_body(mut body: Vec<u8>) -> (r: Vec<u8>)
        requires
            body@.len() <= 0xFFFF_FFFF,
        ensures
            r@ == mtrk_magic() + be32(body@.len() as u32) + body@,
    {
        let ghost body0 = body@;
        let mut vec: Vec<u8> = Vec::new();
        vec.push(0x4D);
        vec.push(0x54);
        vec.push(0x72);
        vec.push(0x6B);
        proof {
            assert(vec@ =~= mtrk_magic());
        }
        let len = body.len() as u32;
        write_u32_be(&mut vec, len);
        vec.append(&mut body);
        proof {
            assert(vec@ =~= mtrk_magic() + be32(body0.len() as u32) + body0);
        }
        vec
    }

    /// Encode one track's events as a body: every event in order, with an
    /// end-of-track marker appended when the events carry none.
    fn body_from_events(events: &Vec<crate::TrackEvent>) -> (r: Vec<u8>)
        ensures
            r@ == track_body(events@.map_values(|e: crate::TrackEvent| e@)),
    {
        let ghost evs = events@.map_values(|e: crate::TrackEvent| e@);
        let mut vec: Vec<u8> = Vec::new();
        let mut saw_eot = false;
        let mut i: usize = 0;
        proof {
            assert(vec@ =~= encode_events(evs.take(0)));
        }
        while i < events.len()
            invariant
                i <= events@.len(),
                evs == events@.map_values(|e: crate::TrackEvent| e@),
                vec@ == encode_events(evs.take(i as int)),
                saw_eot == has_eot(evs.take(i as int)),
            decreases events@.len() - i,
        {
            let ghost pre = vec@;
            let event = &events[i];
            proof {
                lemma_encode_events_push(evs.take(i as int), evs[i as int]);
                assert(evs.take(i + 1) =~= evs.take(i as int).push(evs[i as int]));
                lemma_has_eot_take_step(evs, i as int);
            }
            let _ = SMFWriter::write_vtime(event.vtime, &mut vec);
            SMFWriter::write_event(&mut vec, &event.event, &mut saw_eot);
            proof {
                assert(vec@ =~= pre + encode_track_event(evs[i as int]));
            }
            i = i + 1;
        }
        proof {
            assert(evs.take(evs.len() as int) =~= evs);
        }
        SMFWriter::finish_track_write(&mut vec, saw_eot);
        proof {
            if has_eot(evs) {
                assert(vec@ =~= track_body(evs));
            }
        }
        vec
    }

    /// Create a writer that has all the tracks from the given SMF already
    /// added.
    pub fn from_smf(smf: SMF) -> (r: SMFWriter)
        requires
            forall|i: int| 0 <= i < smf@.tracks.len() ==> #[trigger] track_body(
                smf@.tracks[i].events,
            ).len() <= 0xFFFF_FFFF,
        ensures
            r.format == format_code(smf@.format),
            r.ticks == smf@.division,
            chunks_of(r.tracks@) == smf@.tracks.map_values(
                |t: TrackV| encode_track(t.events),
            ),
    {
        let mut writer = SMFWriter::new_with_division_and_format(smf.format, smf.division);
        let mut ti: usize = 0;
        while ti < smf.tracks.len()
            invariant
                ti <= smf.tracks@.len(),
                forall|i: int| 0 <= i < smf@.tracks.len() ==> #[trigger] track_body(
                    smf@.tracks[i].events,
                ).len() <= 0xFFFF_FFFF,
                writer.format == format_code(smf@.format),
                writer.ticks == smf@.division,
                writer.tracks@.len() == ti,
                forall|i: int| 0 <= i < ti ==> #[trigger] writer.tracks@[i]@ == encode_track(
                    smf@.tracks[i].events,
                ),
            decreases smf.tracks@.len() - ti,
        {
            let track = &smf.tracks[ti];
            proof {
                assert(smf@.tracks[ti as int] == track@);
                assert(track_body(smf@.tracks[ti as int].events).len() <= 0xFFFF_FFFF);
            }
            let body = SMFWriter::body_from_events(&track.events);
            let chunk = SMFWriter::chunk_from_body(body);
            writer.tracks.push(chunk);
            ti = ti + 1;
        }
        proof {
            assert(chunks_of(writer.tracks@) =~= smf@.tracks.map_values(
                |t: TrackV| encode_track(t.events),
            ));
        }
        writer
    }

    /// Add any sequence of AbsoluteEvents as a track to this writer.
    /// The events must carry non-decreasing times.
    pub fn add_track(&mut self, track: &Vec<AbsoluteEvent>)
        requires
            times_sorted(track@.map_values(|e: AbsoluteEvent| e@)),
            track_body(
                named_track_events(None, track@.map_values(|e: AbsoluteEvent| e@)),
            ).len() <= 0xFFFF_FFFF,
        ensures
            final(self).format == old(self).format,
            final(self).ticks == old(self).ticks,
            chunks_of(final(self).tracks@) == chunks_of(old(self).tracks@).push(
                encode_track(
                    named_track_events(
                        None,
                        track@.map_values(|e: AbsoluteEvent| e@),
                    ),
                ),
            ),
    {
        self.add_track_with_name(track, None)
    }

    /// Add any sequence of AbsoluteEvents as a track to this writer.  A
    /// meta event with the given name will be added at the start of the
    /// track.  The events must carry non-decreasing times.
    pub fn add_track_with_name(&mut self, track: &Vec<AbsoluteEvent>, name: Option<String>)
        requires
            times_sorted(track@.map_values(|e: AbsoluteEvent| e@)),
            track_body(
                named_track_events(
                    match name {
                        Some(n) => Some(n@),
                        None => None,
                    },
                    track@.map_values(|e: AbsoluteEvent| e@),
                ),
            ).len() <= 0xFFFF_FFFF,
        ensures
            final(self).format == old(self).format,
            final(self).ticks == old(self).ticks,
            chunks_of(final(self).tracks@) == chunks_of(old(self).tracks@).push(
                encode_track(
                    named_track_events(
                        match name {
                            Some(n) => Some(n@),
                            None => None,
                        },
                        track@.map_values(|e: AbsoluteEvent| e@),
                    ),
                ),
            ),
    {
        let ghost namev = match name {
            Some(ref n) => Some(n@),
            None => None::<Seq<char>>,
        };
        let ghost absv = track@.map_values(|e: AbsoluteEvent| e@);
        let mut events: Vec<TrackEvent> = Vec::new();
        match name {
            Some(n) => {
                let namemeta = Event::Meta(crate::meta::MetaEvent::sequence_or_track_name(n));
                events.push(TrackEvent { vtime: 0, event: namemeta });
            },
            None => {},
        }
        let mut deltas = crate::builder::delta_events(track);
        events.append(&mut deltas);
        proof {
            assert(events@.map_values(|e: TrackEvent| e@) =~= named_track_events(namev, absv));
        }
        let body = SMFWriter::body_from_events(&events);
        let chunk = SMFWriter::chunk_from_body(body);
        self.tracks.push(chunk);
        proof {
            assert(chunks_of(self.tracks@) =~= chunks_of(old(self).tracks@).push(
                encode_track(named_track_events(namev, absv)),
            ));
        }
    }

    /// Write the header chunk.
    fn write_header(&self, writer: &mut Vec<u8>)
        requires
            self.tracks@.len() <= 0xFFFF,
        ensures
            final(writer)@ == old(writer)@ + encode_header(
                self.format,
                self.tracks@.len() as u16,
                self.ticks,
            ),
    {
        writer.push(0x4D);
        writer.push(0x54);
        writer.push(0x68);
        writer.push(0x64);
        write_u32_be(writer, 6);
        write_u16_be(writer, self.format);
        write_u16_be(writer, self.tracks.len() as u16);
        write_i16_be(writer, self.ticks);
        proof {
            assert(writer@ =~= old(writer)@ + encode_header(
                self.format,
                self.tracks@.len() as u16,
                self.ticks,
            ));
        }
    }

    /// Write out all the tracks that have been added to this SMFWriter
    /// to the passed buffer: the header chunk, then every track chunk in
    /// order.
    pub fn write_all(self, writer: &mut Vec<u8>) -> (r: Result<(), crate::SMFError>)
        requires
            self.tracks@.len() <= 0xFFFF,
        ensures
            r is Ok,
            final(writer)@ == old(writer)@ + encode_header(
                self.format,
                self.tracks@.len() as u16,
                self.ticks,
            ) + concat_bytes(chunks_of(self.tracks@)),
    {
        self.write_header(writer);
        let ghost with_header = writer@;
        let mut i: usize = 0;
        proof {
            assert(chunks_of(self.tracks@).take(0) =~= Seq::<Seq<u8>>::empty());
            assert(writer@ =~= with_header + concat_bytes(chunks_of(self.tracks@).take(0)));
        }
        while i < self.tracks.len()
            invariant
                i <= self.tracks@.len(),
                writer@ == with_header + concat_bytes(chunks_of(self.tracks@).take(i as int)),
            decreases self.tracks@.len() - i,
        {
            proof {
                lemma_concat_bytes_push(
                    chunks_of(self.tracks@).take(i as int),
                    self.tracks@[i as int]@,
                );
                assert(chunks_of(self.tracks@).take(i + 1) =~= chunks_of(self.tracks@).take(
                    i as int,
                ).push(self.tracks@[i as int]@));
            }
            writer.extend_from_slice(self.tracks[i].as_slice());
            proof {
                assert(writer@ =~= with_header + concat_bytes(
                    chunks_of(self.tracks@).take(i + 1),
                ));
            }
            i = i + 1;
        }
        proof {
            assert(chunks_of(self.tracks@).take(self.tracks@.len() as int) =~= chunks_of(
                self.tracks@,
            ));
        }
        Ok(())
    }
}

} // verus!
