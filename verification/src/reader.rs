//! Parsing a byte stream into an SMF.
use crate::meta::{MetaCommand, MetaEvent};
use crate::midi::{MidiError, MidiMessage};
use crate::util::{fill_buf, latin1_decode, read_byte, ByteSource, ReadError};
use crate::wire::{
    first_copyright, first_name, lemma_be_value4, lemma_first_copyright_push,
    lemma_first_name_push, lemma_parse_vlq_bound, mtrk_magic, parse_events, parse_header_at,
    parse_smf, parse_track, parse_track_event, parse_tracks, parse_vlq, parse_vlq_rec,
    riff_prefix, vlq_overlong, EventV, TrackEventV, TrackV,
};
use crate::{Event, SMFError, SMFFormat, Track, TrackEvent, SMF};
use vstd::arithmetic::power::pow;
use vstd::prelude::*;

verus! {

/// An SMFReader can parse a byte stream into an SMF.
#[derive(Clone, Copy)]
pub struct SMFReader;

impl SMFReader {
    /// Read a variable sized value from the reader.
    /// This is usually used for the times of midi events but is used
    /// elsewhere as well (meta lengths, for one).
    pub fn read_vtime(reader: &mut ByteSource) -> (r: Result<u64, SMFError>)
        requires
            old(reader).wf(),
        ensures
            final(reader).wf(),
            final(reader).data@ == old(reader).data@,
            final(reader).pos >= old(reader).pos,
            match r {
                Ok(v) => parse_vlq(old(reader).remaining()) == Some(
                    (v as nat, final(reader).pos - old(reader).pos),
                ),
                Err(e) => {
                    &&& parse_vlq(old(reader).remaining()) is None
                    &&& if vlq_overlong(old(reader).remaining()) {
                        e matches SMFError::InvalidSMFFile(m) && m@
                            == "Variable length value too long"@
                    } else {
                        e == SMFError::Error(ReadError::UnexpectedEnd)
                    }
                },
            },
    {
        let ghost s0 = old(reader).remaining();
        let mut res: u64 = 0;
        let mut i: usize = 0;
        proof {
            assert(pow(128, 0) == 1) by {
                reveal(pow);
            }
        }
        while i < 9
            invariant
                reader.wf(),
                reader.data@ == old(reader).data@,
                reader.pos == old(reader).pos + i,
                s0 == old(reader).remaining(),
                i <= 9,
                i <= s0.len(),
                forall|j: int| 0 <= j < i ==> s0[j] >= 128,
                res < pow(128, i as nat),
                match parse_vlq_rec(reader.remaining(), res as nat, (9 - i) as nat) {
                    None => parse_vlq(s0) is None,
                    Some((v, n)) => parse_vlq(s0) == Some((v, n + i)),
                },
            decreases 9 - i,
        {
            let ghost s_pre = reader.remaining();
            let ghost res_pre = res;
            let ghost fuel_pre = (9 - i) as nat;
            let next = match read_byte(reader) {
                Ok(b) => b,
                Err(e) => {
                    proof {
                        assert(s_pre.len() == 0);
                        assert(parse_vlq_rec(s_pre, res as nat, fuel_pre) is None);
                        assert(!vlq_overlong(s0));
                    }
                    return Err(SMFError::Error(ReadError::UnexpectedEnd));
                },
            };
            proof {
                assert(s_pre[0] == next);
                assert(s_pre.drop_first() =~= reader.remaining());
                assert((next & 0x7F) as nat == (next % 128) as nat) by (bit_vector);
                assert(pow(128, (i + 1) as nat) == 128 * pow(128, i as nat)) by {
                    reveal(pow);
                }
                assert(pow(128, i as nat) <= pow(128, 8)) by {
                    vstd::arithmetic::power::lemma_pow_increases(128, i as nat, 8);
                }
                assert(pow(128, 8) == 0x100_0000_0000_0000) by {
                    reveal_with_fuel(pow, 9);
                }
            }
            let low: u64 = (next & 0x7F) as u64;
            res = res * 128 + low;
            i = i + 1;
            if next & 0x80 == 0 {
                proof {
                    assert(next < 128) by (bit_vector)
                        requires
                            next & 0x80 == 0,
                    ;
                    assert(parse_vlq_rec(s_pre, res_pre as nat, fuel_pre) == Some(
                        ((res_pre * 128 + (next % 128) as nat) as nat, 1int),
                    ));
                    assert(parse_vlq(s0) == Some((res as nat, i as int)));
                }
                return Ok(res);
            }
            proof {
                assert(next >= 128) by (bit_vector)
                    requires
                        next & 0x80 != 0,
                ;
                assert(s0[i - 1] == next);
            }
        }
        proof {
            assert(parse_vlq_rec(reader.remaining(), res as nat, 0) is None);
            assert(vlq_overlong(s0));
        }
        Err(SMFError::InvalidSMFFile("Variable length value too long"))
    }

    /// Read and check the header chunk, skipping a RIFF wrapper when one
    /// is present.  Yields the file shell and the declared track count.
    fn parse_header(reader: &mut ByteSource) -> (r: Result<(SMF, u16), SMFError>)
        requires
            old(reader).wf(),
        ensures
            final(reader).wf(),
            final(reader).data@ == old(reader).data@,
            ({
                let rem = old(reader).remaining();
                let s1 = if riff_prefix(rem) {
                    rem.skip(20)
                } else {
                    rem
                };
                match r {
                    Ok((smf, n)) => {
                        &&& !(riff_prefix(rem) && rem.len() < 20)
                        &&& parse_header_at(s1) == Some((smf@.format, n, smf@.division))
                        &&& smf@.tracks.len() == 0
                        &&& final(reader).remaining() == s1.skip(14)
                    },
                    Err(e) => {
                        &&& (riff_prefix(rem) && rem.len() < 20) ==> e == SMFError::Error(
                            ReadError::UnexpectedEnd,
                        )
                        &&& !(riff_prefix(rem) && rem.len() < 20) ==> {
                            &&& parse_header_at(s1) is None
                            &&& s1.len() < 14 ==> e == SMFError::Error(ReadError::UnexpectedEnd)
                            &&& (s1.len() >= 14 && s1.subrange(0, 4) != crate::wire::mthd_magic())
                                ==> (e matches SMFError::InvalidSMFFile(m) && m@
                                == "Invalid header magic"@)
                            &&& (s1.len() >= 14 && s1.subrange(0, 4) == crate::wire::mthd_magic())
                                ==> (e matches SMFError::InvalidSMFFile(m) && m@
                                == "Invalid format bytes"@)
                        }
                    },
                }
            }),
    {
        let ghost rem = old(reader).remaining();
        let mut header: Vec<u8> = vec![0u8; 14];
        match fill_buf(reader, &mut header) {
            Ok(()) => {},
            Err(e) => {
                return Err(SMFError::Error(e));
            },
        }
        // skip RIFF header if present
        if header[0] == 0x52 && header[1] == 0x49 && header[2] == 0x46 && header[3] == 0x46 {
            let mut skip: Vec<u8> = vec![0u8; 6];
            match fill_buf(reader, &mut skip) {
                Ok(()) => {},
                Err(e) => {
                    return Err(SMFError::Error(e));
                },
            }
            match fill_buf(reader, &mut header) {
                Ok(()) => {},
                Err(e) => {
                    return Err(SMFError::Error(e));
                },
            }
            proof {
                assert(rem.skip(20).take(14) =~= header@);
                assert(final(reader).remaining() =~= rem.skip(20).skip(14));
            }
        } else {
            proof {
                if riff_prefix(rem) {
                    assert(rem[0] == header@[0] && rem[1] == header@[1] && rem[2] == header@[2]
                        && rem[3] == header@[3]);
                }
                assert(rem.take(14) =~= header@);
                assert(final(reader).remaining() =~= rem.skip(14));
            }
        }
        let ghost s1 = if riff_prefix(rem) {
            rem.skip(20)
        } else {
            rem
        };
        proof {
            assert(header@ =~= s1.take(14));
            assert(reader.remaining() =~= s1.skip(14));
        }
        if header[0] != 0x4D || header[1] != 0x54 || header[2] != 0x68 || header[3] != 0x64 {
            proof {
                let mg = crate::wire::mthd_magic();
                if s1.subrange(0, 4) == mg {
                    assert(s1.subrange(0, 4)[0] == mg[0]);
                    assert(s1.subrange(0, 4)[1] == mg[1]);
                    assert(s1.subrange(0, 4)[2] == mg[2]);
                    assert(s1.subrange(0, 4)[3] == mg[3]);
                }
            }
            return Err(SMFError::InvalidSMFFile("Invalid header magic"));
        }
        proof {
            assert(s1.subrange(0, 4) =~= crate::wire::mthd_magic());
        }
        let format_byte = header[9];
        let format = match format_byte {
            0 => SMFFormat::Single,
            1 => SMFFormat::MultiTrack,
            2 => SMFFormat::MultiSong,
            _ => {
                return Err(SMFError::InvalidSMFFile("Invalid format bytes"));
            },
        };
        let tracks_count: u16 = (header[10] as u16) * 256 + (header[11] as u16);
        let division: i16 = ((header[12] as u16) * 256 + (header[13] as u16)) as i16;
        let smf = SMF { format, tracks: Vec::new(), division };
        proof {
            assert(smf@.tracks =~= Seq::<TrackV>::empty());
        }
        Ok((smf, tracks_count))
    }

    /// Read one delta-timed event.  `laststat` is the running status: the
    /// first byte of the last midi message of this track, or zero when
    /// none has been read yet.
    fn next_event(reader: &mut ByteSource, laststat: u8) -> (r: Result<TrackEvent, SMFError>)
        requires
            old(reader).wf(),
        ensures
            final(reader).wf(),
            final(reader).data@ == old(reader).data@,
            match r {
                Ok(te) => {
                    &&& parse_track_event(laststat, old(reader).remaining()) == Some(
                        (
                            te@,
                            final(reader).pos - old(reader).pos,
                            match te@.event {
                                EventV::Midi(d) => d[0],
                                EventV::Meta(_) => laststat,
                            },
                        ),
                    )
                    &&& (te@.event matches EventV::Midi(d) ==> d.len() >= 1)
                    &&& final(reader).pos - old(reader).pos >= 1
                },
                Err(e) => parse_track_event(laststat, old(reader).remaining()) is None,
            },
    {
        let ghost s0 = old(reader).remaining();
        let time = match SMFReader::read_vtime(reader) {
            Ok(t) => t,
            Err(e) => {
                return Err(e);
            },
        };
        let ghost nv = reader.pos - old(reader).pos;
        let ghost rest = s0.skip(nv);
        proof {
            lemma_parse_vlq_bound(s0);
            assert(rest =~= reader.remaining());
        }
        let stat = match read_byte(reader) {
            Ok(b) => b,
            Err(e) => {
                return Err(SMFError::Error(e));
            },
        };
        proof {
            assert(rest[0] == stat);
            assert(rest.drop_first() =~= reader.remaining());
        }
        let ghost pos_stat = reader.pos as int;
        if stat == 0xFF {
            match MetaEvent::next_event(reader) {
                Ok(ev) => {
                    let te = TrackEvent { vtime: time, event: Event::Meta(ev) };
                    proof {
                        let nm = reader.pos - pos_stat;
                        assert(crate::wire::parse_meta(rest.drop_first()) == Some((ev@, nm)));
                        assert(parse_track_event(laststat, s0) == Some(
                            (te@, nv + 1 + nm, laststat),
                        ));
                    }
                    return Ok(te);
                },
                Err(e) => {
                    return Err(SMFError::MetaError(e));
                },
            }
        }
        proof {
            assert(stat < 0x80 <==> stat & 0x80 == 0) by (bit_vector);
        }
        let msg = if stat & 0x80 == 0 {
            // the status byte was elided: this byte is already data, and
            // the previous status repeats.  A status whose messages carry
            // no data cannot have elided its status byte.
            if MidiMessage::data_bytes(laststat) == 0 {
                return Err(
                    SMFError::MidiError(
                        MidiError::OtherErr("Can't have zero length message with running status"),
                    ),
                );
            }
            match MidiMessage::next_message_running_status(laststat, stat, reader) {
                Ok(m) => m,
                Err(e) => {
                    return Err(SMFError::MidiError(e));
                },
            }
        } else {
            match MidiMessage::next_message_given_status(stat, reader) {
                Ok(m) => m,
                Err(e) => {
                    return Err(SMFError::MidiError(e));
                },
            }
        };
        let te = TrackEvent { vtime: time, event: Event::Midi(msg) };
        proof {
            let nm = reader.pos - pos_stat;
            if stat < 0x80 {
                assert(crate::wire::parse_msg_running(laststat, stat, rest.drop_first())
                    == Some((msg@, nm)));
                assert(msg@[0] == laststat);
                assert(parse_track_event(laststat, s0) == Some((te@, nv + 1 + nm, laststat)));
            } else {
                assert(crate::wire::parse_msg_given(stat, rest.drop_first()) == Some(
                    (msg@, nm),
                ));
                assert(msg@[0] == stat);
                assert(parse_track_event(laststat, s0) == Some((te@, nv + 1 + nm, stat)));
            }
        }
        Ok(te)
    }

    /// Parse one track chunk: the magic, the declared byte length, then
    /// events until exactly that many bytes are consumed.
    fn parse_track(reader: &mut ByteSource) -> (r: Result<Track, SMFError>)
        requires
            old(reader).wf(),
        ensures
            final(reader).wf(),
            final(reader).data@ == old(reader).data@,
            match r {
                Ok(t) => parse_track(old(reader).remaining()) == Some(
                    (t@, final(reader).pos - old(reader).pos),
                ),
                Err(e) => {
                    &&& parse_track(old(reader).remaining()) is None
                    &&& (old(reader).remaining().len() >= 4 && old(reader).remaining().subrange(
                        0,
                        4,
                    ) != mtrk_magic()) ==> (e matches SMFError::InvalidSMFFile(m) && m@
                        == "Invalid track magic"@)
                },
            },
    {
        let ghost s0 = old(reader).remaining();
        let mut buf: Vec<u8> = vec![0u8; 4];
        match fill_buf(reader, &mut buf) {
            Ok(()) => {},
            Err(e) => {
                return Err(SMFError::Error(e));
            },
        }
        if buf[0] != 0x4D ||  // "MTrk"
        buf[1] != 0x54 || buf[2] != 0x72 || buf[3] != 0x6B {
            proof {
                let mg = mtrk_magic();
                assert(buf@ =~= s0.subrange(0, 4));
                if s0.subrange(0, 4) == mg {
                    assert(s0.subrange(0, 4)[0] == mg[0]);
                    assert(s0.subrange(0, 4)[1] == mg[1]);
                    assert(s0.subrange(0, 4)[2] == mg[2]);
                    assert(s0.subrange(0, 4)[3] == mg[3]);
                }
            }
            return Err(SMFError::InvalidSMFFile("Invalid track magic"));
        }
        proof {
            assert(s0.subrange(0, 4) =~= buf@);
            assert(s0.subrange(0, 4) =~= mtrk_magic());
        }
        match fill_buf(reader, &mut buf) {
            Ok(()) => {},
            Err(e) => {
                return Err(SMFError::Error(e));
            },
        }
        let len: u32 = (buf[0] as u32) * 0x100_0000 + (buf[1] as u32) * 0x1_0000 + (buf[2]
            as u32) * 256 + (buf[3] as u32);
        proof {
            assert(buf@ =~= s0.subrange(4, 8));
            lemma_be_value4(s0.subrange(4, 8));
        }
        let len: usize = len as usize;
        let ghost s_events = s0.skip(8);
        proof {
            assert(s_events =~= reader.remaining());
        }
        let mut res: Vec<TrackEvent> = Vec::new();
        let mut copyright: Option<String> = None;
        let mut name: Option<String> = None;
        let mut laststat: u8 = 0;
        let mut read_so_far: usize = 0;
        let mut done = false;
        proof {
            assert(s_events.skip(0) =~= s_events);
            assert(res@.map_values(|e: TrackEvent| e@) =~= Seq::<TrackEventV>::empty());
            if parse_events(0, s_events, len as int) is Some {
                let rest = parse_events(0, s_events, len as int)->Some_0;
                assert(Seq::<TrackEventV>::empty() + rest =~= rest);
            }
        }
        while !done
            invariant
                reader.wf(),
                reader.data@ == old(reader).data@,
                s0 == old(reader).remaining(),
                s_events == s0.skip(8),
                s0.len() >= 8,
                len == crate::wire::be_value(s0.subrange(4, 8)),
                s0.subrange(0, 4) == mtrk_magic(),
                read_so_far <= len,
                !done ==> (read_so_far < len || (read_so_far == 0 && len == 0)),
                reader.pos == old(reader).pos + 8 + read_so_far,
                !done ==> match parse_events(
                    laststat,
                    s_events.skip(read_so_far as int),
                    len - read_so_far,
                ) {
                    None => parse_events(0, s_events, len as int) is None,
                    Some(rest) => parse_events(0, s_events, len as int) == Some(
                        res@.map_values(|e: TrackEvent| e@) + rest,
                    ),
                },
                done ==> read_so_far == len,
                done ==> parse_events(0, s_events, len as int) == Some(
                    res@.map_values(|e: TrackEvent| e@),
                ),
                match copyright {
                    Some(ref c) => first_copyright(res@.map_values(|e: TrackEvent| e@)) == Some(
                        c@,
                    ),
                    None => first_copyright(res@.map_values(|e: TrackEvent| e@)) is None,
                },
                match name {
                    Some(ref c) => first_name(res@.map_values(|e: TrackEvent| e@)) == Some(c@),
                    None => first_name(res@.map_values(|e: TrackEvent| e@)) is None,
                },
            decreases (if done {
                0int
            } else {
                len - read_so_far + 1
            }),
        {
            let ghost evs_done = res@.map_values(|e: TrackEvent| e@);
            let ghost s_here = s_events.skip(read_so_far as int);
            let ghost last_pre = laststat;
            let ghost left = len - read_so_far;
            proof {
                assert(s_here =~= reader.remaining());
            }
            let pos_before = reader.pos;
            let event = match SMFReader::next_event(reader, laststat) {
                Ok(ev) => ev,
                Err(err) => {
                    return Err(err);
                },
            };
            let c = reader.pos - pos_before;
            let ghost te = event@;
            let ghost rs2 = match te.event {
                EventV::Midi(d) => d[0],
                EventV::Meta(_) => last_pre,
            };
            // capture the first copyright and name seen
            match &event.event {
                Event::Meta(me) => {
                    if matches!(me.command, MetaCommand::CopyrightNotice) && copyright.is_none() {
                        copyright = Some(latin1_decode(me.data.as_slice()));
                    }
                    if matches!(me.command, MetaCommand::SequenceOrTrackName) && name.is_none() {
                        name = Some(latin1_decode(me.data.as_slice()));
                    }
                },
                Event::Midi(_) => {},
            }
            match &event.event {
                Event::Midi(m) => {
                    laststat = m.data[0];
                },
                Event::Meta(_) => {},
            }
            proof {
                assert(laststat == rs2);
                lemma_first_copyright_push(evs_done, te);
                lemma_first_name_push(evs_done, te);
            }
            read_so_far = read_so_far + c;
            res.push(event);
            proof {
                assert(res@.map_values(|e: TrackEvent| e@) =~= evs_done.push(te));
                assert(s_here.skip(c as int) =~= s_events.skip(read_so_far as int));
            }
            if read_so_far > len {
                proof {
                    // the event overran the declared chunk length, so the
                    // whole event stream is rejected
                    assert(parse_events(last_pre, s_here, left) is None);
                }
                return Err(SMFError::InvalidSMFFile("Invalid MIDI file"));
            }
            if read_so_far == len {
                done = true;
                proof {
                    assert(parse_events(last_pre, s_here, left) == Some(seq![te]));
                    assert(evs_done + seq![te] =~= evs_done.push(te));
                }
            } else {
                proof {
                    if parse_events(rs2, s_events.skip(read_so_far as int), len - read_so_far)
                        is Some {
                        let rest = parse_events(
                            rs2,
                            s_events.skip(read_so_far as int),
                            len - read_so_far,
                        )->Some_0;
                        assert(parse_events(last_pre, s_here, left) == Some(seq![te] + rest));
                        assert(evs_done + (seq![te] + rest) =~= evs_done.push(te) + rest);
                    }
                }
            }
        }
        let track = Track { copyright, name, events: res };
        proof {
            let evs = res@.map_values(|e: TrackEvent| e@);
            assert(track@.events == evs);
            let spec_t = TrackV {
                copyright: first_copyright(evs),
                name: first_name(evs),
                events: evs,
            };
            assert(track@ =~= spec_t);
            assert(parse_track(s0) == Some((track@, 8 + len as int)));
        }
        Ok(track)
    }

    /// Read an entire SMF file.
    pub fn read_smf(reader: &mut ByteSource) -> (r: Result<SMF, SMFError>)
        requires
            old(reader).wf(),
        ensures
            final(reader).wf(),
            final(reader).data@ == old(reader).data@,
            match r {
                Ok(smf) => parse_smf(old(reader).remaining()) == Some(smf@),
                Err(e) => {
                    &&& parse_smf(old(reader).remaining()) is None
                    &&& ({
                        // a bad format byte in an otherwise sound header is
                        // named as such
                        let rem = old(reader).remaining();
                        let s1 = if riff_prefix(rem) {
                            rem.skip(20)
                        } else {
                            rem
                        };
                        (!(riff_prefix(rem) && rem.len() < 20) && s1.len() >= 14 && s1.subrange(
                            0,
                            4,
                        ) == crate::wire::mthd_magic() && crate::wire::format_of_byte(s1[9])
                            is None) ==> (e matches SMFError::InvalidSMFFile(m) && m@
                            == "Invalid format bytes"@)
                    })
                },
            },
    {
        let ghost rem = old(reader).remaining();
        let (mut smf, count) = match SMFReader::parse_header(reader) {
            Ok(p) => p,
            Err(e) => {
                return Err(e);
            },
        };
        let ghost s1 = if riff_prefix(rem) {
            rem.skip(20)
        } else {
            rem
        };
        let ghost s_tracks = s1.skip(14);
        let mut i: u16 = 0;
        proof {
            assert(smf@.tracks =~= Seq::<TrackV>::empty());
        }
        while i < count
            invariant
                reader.wf(),
                reader.data@ == old(reader).data@,
                rem == old(reader).remaining(),
                s1 == (if riff_prefix(rem) {
                    rem.skip(20)
                } else {
                    rem
                }),
                s_tracks == s1.skip(14),
                parse_header_at(s1) == Some((smf@.format, count, smf@.division)),
                i <= count,
                smf@.tracks.len() == i,
                match parse_tracks(reader.remaining(), (count - i) as nat) {
                    None => parse_tracks(s_tracks, count as nat) is None,
                    Some(ts) => parse_tracks(s_tracks, count as nat) == Some(smf@.tracks + ts),
                },
            decreases count - i,
        {
            let ghost here = reader.remaining();
            let ghost done = smf@.tracks;
            let pos_before = reader.pos;
            let track = match SMFReader::parse_track(reader) {
                Ok(t) => t,
                Err(e) => {
                    return Err(e);
                },
            };
            proof {
                assert(here.skip(reader.pos - pos_before) =~= reader.remaining());
            }
            smf.tracks.push(track);
            proof {
                assert(smf@.tracks =~= done.push(track@));
                if parse_tracks(reader.remaining(), (count - i - 1) as nat) is Some {
                    let ts = parse_tracks(
                        reader.remaining(),
                        (count - i - 1) as nat,
                    )->Some_0;
                    assert(done + (seq![track@] + ts) =~= done.push(track@) + ts);
                }
            }
            i = i + 1;
        }
        proof {
            assert(parse_tracks(reader.remaining(), 0) == Some(Seq::<TrackV>::empty()));
            assert(smf@.tracks + Seq::<TrackV>::empty() =~= smf@.tracks);
        }
        Ok(smf)
    }
}

} // verus!
