use rimd::meta::{MetaCommand, MetaEvent};
use rimd::midi::MidiMessage;
use rimd::util::ByteSource;
use rimd::reader::SMFReader;
use rimd::writer::SMFWriter;
use rimd::{Event, SMFError, SMFFormat, Track, TrackEvent, SMF};

fn single_track_smf(events: Vec<TrackEvent>) -> SMF {
    SMF {
        format: SMFFormat::Single,
        tracks: vec![Track { copyright: None, name: None, events }],
        division: 96,
    }
}

fn write_bytes(smf: SMF) -> Vec<u8> {
    let writer = SMFWriter::from_smf(smf);
    let mut out: Vec<u8> = Vec::new();
    writer.write_all(&mut out).unwrap();
    out
}

#[test]
fn end_to_end_single_track() {
    // encode two note events; decoding must add the end-of-track marker
    let events = vec![
        TrackEvent { vtime: 0, event: Event::Midi(MidiMessage::note_on(69, 100, 0)) },
        TrackEvent { vtime: 10, event: Event::Midi(MidiMessage::note_off(69, 100, 0)) },
    ];
    let bytes = write_bytes(single_track_smf(events));
    let mut src = ByteSource::new(bytes);
    let smf = SMF::from_reader(&mut src).unwrap();
    assert!(matches!(smf.format, SMFFormat::Single));
    assert_eq!(smf.division, 96);
    assert_eq!(smf.tracks.len(), 1);
    let track = &smf.tracks[0];
    assert!(track.copyright.is_none());
    assert!(track.name.is_none());
    assert_eq!(track.events.len(), 3);
    assert_eq!(track.events[0].vtime, 0);
    match &track.events[0].event {
        Event::Midi(m) => assert_eq!(m.data, vec![0x90, 69, 100]),
        other => panic!("expected a midi event, got {:?}", other),
    }
    assert_eq!(track.events[1].vtime, 10);
    match &track.events[1].event {
        Event::Midi(m) => assert_eq!(m.data, vec![0x80, 69, 100]),
        other => panic!("expected a midi event, got {:?}", other),
    }
    assert_eq!(track.events[2].vtime, 0);
    match &track.events[2].event {
        Event::Meta(m) => {
            assert!(matches!(m.command, MetaCommand::EndOfTrack));
            assert_eq!(m.length, 0);
        }
        other => panic!("expected the end-of-track marker, got {:?}", other),
    }
}

#[test]
fn track_length_field_is_exact() {
    let events = vec![
        TrackEvent { vtime: 0, event: Event::Midi(MidiMessage::note_on(69, 100, 0)) },
    ];
    let bytes = write_bytes(single_track_smf(events));
    // header chunk is 14 bytes; the track chunk follows
    assert_eq!(&bytes[14..18], b"MTrk");
    let len = u32::from_be_bytes([bytes[18], bytes[19], bytes[20], bytes[21]]) as usize;
    assert_eq!(bytes.len(), 14 + 8 + len);
}

#[test]
fn header_bytes_are_big_endian() {
    let events = vec![
        TrackEvent { vtime: 0, event: Event::Meta(MetaEvent::end_of_track()) },
    ];
    let mut smf = single_track_smf(events);
    smf.division = 0x1234;
    let bytes = write_bytes(smf);
    assert_eq!(&bytes[0..4], b"MThd");
    assert_eq!(&bytes[4..8], &[0, 0, 0, 6]);
    assert_eq!(&bytes[8..10], &[0, 0]); // format code for a single track
    assert_eq!(&bytes[10..12], &[0, 1]); // one track
    assert_eq!(&bytes[12..14], &[0x12, 0x34]); // the division, big-endian
}

#[test]
fn negative_division_round_trips() {
    let events = vec![
        TrackEvent { vtime: 0, event: Event::Meta(MetaEvent::end_of_track()) },
    ];
    let mut smf = single_track_smf(events);
    smf.division = -25 * 256 + 40u8 as i16; // SMPTE-style division
    let division = smf.division;
    let bytes = write_bytes(smf);
    let mut src = ByteSource::new(bytes);
    let parsed = SMF::from_reader(&mut src).unwrap();
    assert_eq!(parsed.division, division);
}

#[test]
fn running_status_is_reconstructed() {
    // a second note-on elides its status byte; the decoder must recover
    // the event exactly as if the status were explicit
    let body: Vec<u8> = vec![
        0x00, 0x90, 69, 100, // delta 0, note on
        0x0A, 70, 101, // delta 10, running status: note on again
        0x00, 0xFF, 0x2F, 0x00, // end of track
    ];
    let mut bytes: Vec<u8> = Vec::new();
    bytes.extend_from_slice(b"MThd");
    bytes.extend_from_slice(&[0, 0, 0, 6, 0, 0, 0, 1, 0, 96]);
    bytes.extend_from_slice(b"MTrk");
    bytes.extend_from_slice(&(body.len() as u32).to_be_bytes());
    bytes.extend_from_slice(&body);
    let mut src = ByteSource::new(bytes);
    let smf = SMF::from_reader(&mut src).unwrap();
    let track = &smf.tracks[0];
    assert_eq!(track.events.len(), 3);
    assert_eq!(track.events[1].vtime, 10);
    match &track.events[1].event {
        Event::Midi(m) => assert_eq!(m.data, vec![0x90, 70, 101]),
        other => panic!("expected the elided status to be restored, got {:?}", other),
    }
}

#[test]
fn format_code_three_is_rejected() {
    let mut bytes: Vec<u8> = Vec::new();
    bytes.extend_from_slice(b"MThd");
    bytes.extend_from_slice(&[0, 0, 0, 6, 0, 3, 0, 0, 0, 96]);
    let mut src = ByteSource::new(bytes);
    match SMF::from_reader(&mut src) {
        Err(SMFError::InvalidSMFFile(m)) => assert_eq!(m, "Invalid format bytes"),
        other => panic!("expected the format code to be refused, got {:?}", other),
    }
}

#[test]
fn bad_header_magic_is_rejected() {
    let mut bytes: Vec<u8> = Vec::new();
    bytes.extend_from_slice(b"XThd");
    bytes.extend_from_slice(&[0, 0, 0, 6, 0, 0, 0, 0, 0, 96]);
    let mut src = ByteSource::new(bytes);
    match SMF::from_reader(&mut src) {
        Err(SMFError::InvalidSMFFile(m)) => assert_eq!(m, "Invalid header magic"),
        other => panic!("expected the magic to be refused, got {:?}", other),
    }
}

#[test]
fn bad_track_magic_is_rejected() {
    let mut bytes: Vec<u8> = Vec::new();
    bytes.extend_from_slice(b"MThd");
    bytes.extend_from_slice(&[0, 0, 0, 6, 0, 0, 0, 1, 0, 96]);
    bytes.extend_from_slice(b"XTrk");
    bytes.extend_from_slice(&[0, 0, 0, 4, 0, 0xFF, 0x2F, 0x00]);
    let mut src = ByteSource::new(bytes);
    match SMF::from_reader(&mut src) {
        Err(SMFError::InvalidSMFFile(m)) => assert_eq!(m, "Invalid track magic"),
        other => panic!("expected the track magic to be refused, got {:?}", other),
    }
}

#[test]
fn overrunning_track_length_is_rejected() {
    // the declared track length falls inside the first event
    let mut bytes: Vec<u8> = Vec::new();
    bytes.extend_from_slice(b"MThd");
    bytes.extend_from_slice(&[0, 0, 0, 6, 0, 0, 0, 1, 0, 96]);
    bytes.extend_from_slice(b"MTrk");
    bytes.extend_from_slice(&[0, 0, 0, 2]);
    bytes.extend_from_slice(&[0x00, 0x90, 69, 100]);
    let mut src = ByteSource::new(bytes);
    match SMF::from_reader(&mut src) {
        Err(SMFError::InvalidSMFFile(m)) => assert_eq!(m, "Invalid MIDI file"),
        other => panic!("expected the length mismatch to be refused, got {:?}", other),
    }
}

#[test]
fn truncated_file_is_rejected() {
    let bytes: Vec<u8> = b"MThd".to_vec();
    let mut src = ByteSource::new(bytes);
    match SMF::from_reader(&mut src) {
        Err(SMFError::Error(_)) => {}
        other => panic!("expected an underlying read error, got {:?}", other),
    }
}

#[test]
fn riff_wrapper_is_skipped() {
    let events = vec![
        TrackEvent { vtime: 0, event: Event::Meta(MetaEvent::end_of_track()) },
    ];
    let inner = write_bytes(single_track_smf(events));
    let mut bytes: Vec<u8> = Vec::new();
    bytes.extend_from_slice(b"RIFF");
    bytes.extend_from_slice(&[0; 16]);
    bytes.extend_from_slice(&inner);
    let mut src = ByteSource::new(bytes);
    let smf = SMF::from_reader(&mut src).unwrap();
    assert_eq!(smf.tracks.len(), 1);
    assert_eq!(smf.division, 96);
}

#[test]
fn copyright_and_name_are_captured() {
    // copyright payload holds a Latin-1 byte above ASCII
    let events = vec![
        TrackEvent {
            vtime: 0,
            event: Event::Meta(MetaEvent {
                command: MetaCommand::CopyrightNotice,
                length: 2,
                data: vec![0x41, 0xE9],
            }),
        },
        TrackEvent {
            vtime: 0,
            event: Event::Meta(MetaEvent::sequence_or_track_name(String::from("lead"))),
        },
        TrackEvent { vtime: 0, event: Event::Meta(MetaEvent::end_of_track()) },
    ];
    let bytes = write_bytes(single_track_smf(events));
    let mut src = ByteSource::new(bytes);
    let smf = SMF::from_reader(&mut src).unwrap();
    let track = &smf.tracks[0];
    assert_eq!(track.copyright.as_deref(), Some("A\u{e9}"));
    assert_eq!(track.name.as_deref(), Some("lead"));
}

#[test]
fn unknown_meta_survives_file_parse() {
    let events = vec![
        TrackEvent {
            vtime: 0,
            event: Event::Meta(MetaEvent {
                command: MetaCommand::Unknown,
                length: 2,
                data: vec![0xAA, 0xBB],
            }),
        },
        TrackEvent { vtime: 0, event: Event::Meta(MetaEvent::end_of_track()) },
    ];
    let bytes = write_bytes(single_track_smf(events));
    let mut src = ByteSource::new(bytes);
    let smf = SMF::from_reader(&mut src).unwrap();
    match &smf.tracks[0].events[0].event {
        Event::Meta(m) => {
            assert!(matches!(m.command, MetaCommand::Unknown));
            assert_eq!(m.data, vec![0xAA, 0xBB]);
        }
        other => panic!("expected the unknown meta event to survive, got {:?}", other),
    }
}

#[test]
fn sysex_round_trips_in_track() {
    let events = vec![
        TrackEvent {
            vtime: 5,
            event: Event::Midi(MidiMessage::from_bytes(vec![0xF0, 0x7E, 0x00, 0xF7])),
        },
        TrackEvent { vtime: 0, event: Event::Meta(MetaEvent::end_of_track()) },
    ];
    let bytes = write_bytes(single_track_smf(events));
    let mut src = ByteSource::new(bytes);
    let smf = SMF::from_reader(&mut src).unwrap();
    assert_eq!(smf.tracks[0].events.len(), 2);
    match &smf.tracks[0].events[0].event {
        Event::Midi(m) => assert_eq!(m.data, vec![0xF0, 0x7E, 0x00, 0xF7]),
        other => panic!("expected the sysex bytes back, got {:?}", other),
    }
}

#[test]
fn event_len_counts_wire_bytes() {
    let midi = Event::Midi(MidiMessage::note_on(69, 100, 0));
    assert_eq!(midi.len(), 3);
    let meta = Event::Meta(MetaEvent::tempo_setting(500000));
    // marker + command + one length byte + three payload bytes
    assert_eq!(meta.len(), 6);
    let te = TrackEvent { vtime: 128, event: Event::Midi(MidiMessage::note_on(69, 100, 0)) };
    assert_eq!(te.len(), 5);
}

#[test]
fn to_multi_track_splits_by_channel() {
    let events = vec![
        TrackEvent { vtime: 0, event: Event::Meta(MetaEvent::tempo_setting(500000)) },
        TrackEvent { vtime: 4, event: Event::Midi(MidiMessage::note_on(60, 90, 0)) },
        TrackEvent { vtime: 6, event: Event::Midi(MidiMessage::note_on(64, 90, 1)) },
        TrackEvent { vtime: 2, event: Event::Midi(MidiMessage::note_off(60, 90, 0)) },
    ];
    let smf = single_track_smf(events);
    let multi = smf.to_multi_track().unwrap();
    assert!(matches!(multi.format, SMFFormat::MultiTrack));
    assert_eq!(multi.division, 96);
    // one meta track, one track per used channel
    assert_eq!(multi.tracks.len(), 3);
    assert_eq!(multi.tracks[0].events.len(), 1);
    // channel zero: note on at absolute 4, note off at absolute 12
    let ch0 = &multi.tracks[1];
    assert_eq!(ch0.events.len(), 2);
    assert_eq!(ch0.events[0].vtime, 4);
    assert_eq!(ch0.events[1].vtime, 8);
    // channel one: a single note on at absolute 10
    let ch1 = &multi.tracks[2];
    assert_eq!(ch1.events.len(), 1);
    assert_eq!(ch1.events[0].vtime, 10);
}

#[test]
fn to_multi_track_keeps_multi_and_refuses_song() {
    let multi = SMF { format: SMFFormat::MultiTrack, tracks: vec![], division: 5 };
    let copy = multi.to_multi_track().unwrap();
    assert!(matches!(copy.format, SMFFormat::MultiTrack));
    assert_eq!(copy.division, 5);

    let song = SMF { format: SMFFormat::MultiSong, tracks: vec![], division: 5 };
    assert!(song.to_multi_track().is_none());
}

#[test]
fn reader_byte_helpers() {
    let mut src = ByteSource::new(vec![1, 2, 3, 4, 5]);
    assert_eq!(rimd::util::read_byte(&mut src).unwrap(), 1);
    let mut buf = vec![0u8; 2];
    rimd::util::fill_buf(&mut src, &mut buf).unwrap();
    assert_eq!(buf, vec![2, 3]);
    let mut dest = Vec::new();
    rimd::util::read_amount(&mut src, &mut dest, 2).unwrap();
    assert_eq!(dest, vec![4, 5]);
    assert!(rimd::util::read_byte(&mut src).is_err());
}

#[test]
fn smf_reader_reads_whole_file() {
    let events = vec![
        TrackEvent { vtime: 1, event: Event::Midi(MidiMessage::note_on(50, 60, 2)) },
    ];
    let bytes = write_bytes(single_track_smf(events));
    let mut src = ByteSource::new(bytes);
    let smf = SMFReader::read_smf(&mut src).unwrap();
    assert_eq!(smf.tracks.len(), 1);
    assert_eq!(smf.tracks[0].events.len(), 2);
}
