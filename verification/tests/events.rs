use rimd::meta::{MetaCommand, MetaEvent};
use rimd::midi::{make_status, MidiError, MidiMessage, Status};
use rimd::util::ByteSource;

#[test]
fn midi_constructors_emit_wire_bytes() {
    assert_eq!(MidiMessage::note_on(69, 100, 0).data, vec![0x90, 69, 100]);
    assert_eq!(MidiMessage::note_off(69, 100, 3).data, vec![0x83, 69, 100]);
    assert_eq!(MidiMessage::polyphonic_aftertouch(60, 40, 1).data, vec![0xA1, 60, 40]);
    assert_eq!(MidiMessage::control_change(7, 99, 2).data, vec![0xB2, 7, 99]);
    assert_eq!(MidiMessage::program_change(12, 4).data, vec![0xC4, 12]);
    assert_eq!(MidiMessage::channel_aftertouch(88, 5).data, vec![0xD5, 88]);
    assert_eq!(MidiMessage::pitch_bend(0x00, 0x40, 6).data, vec![0xE6, 0x00, 0x40]);
}

#[test]
fn make_status_ors_in_the_channel() {
    assert_eq!(make_status(Status::NoteOn, 5), 0x95);
    assert_eq!(make_status(Status::NoteOff, 0xF), 0x8F);
    assert_eq!(make_status(Status::TimingClock, 0), 0xF8);
}

#[test]
fn status_and_channel_accessors() {
    let m = MidiMessage::note_on(69, 100, 9);
    assert!(matches!(m.status(), Status::NoteOn));
    assert_eq!(m.channel(), Some(9));
    let clock = MidiMessage::from_bytes(vec![0xF8]);
    assert!(matches!(clock.status(), Status::TimingClock));
    assert_eq!(clock.channel(), None);
    assert_eq!(m.data(0), 0x99);
    assert_eq!(m.data(2), 100);
}

#[test]
fn data_bytes_table() {
    assert_eq!(MidiMessage::data_bytes(0x90), 2);
    assert_eq!(MidiMessage::data_bytes(0x8F), 2);
    assert_eq!(MidiMessage::data_bytes(0xB3), 2);
    assert_eq!(MidiMessage::data_bytes(0xC0), 1);
    assert_eq!(MidiMessage::data_bytes(0xD7), 1);
    assert_eq!(MidiMessage::data_bytes(0xE1), 2);
    assert_eq!(MidiMessage::data_bytes(0xF0), -2);
    assert_eq!(MidiMessage::data_bytes(0xF1), 1);
    assert_eq!(MidiMessage::data_bytes(0xF2), 2);
    assert_eq!(MidiMessage::data_bytes(0xF3), 1);
    assert_eq!(MidiMessage::data_bytes(0xF6), 0);
    assert_eq!(MidiMessage::data_bytes(0xF8), 0);
    assert_eq!(MidiMessage::data_bytes(0xFF), 0);
    assert_eq!(MidiMessage::data_bytes(0x45), -3);
    assert_eq!(MidiMessage::data_bytes(0xF4), -3);
}

#[test]
fn next_message_reads_expected_counts() {
    let mut src = ByteSource::new(vec![0x90, 60, 100, 0xC1, 7]);
    let first = MidiMessage::next_message(&mut src).unwrap();
    assert_eq!(first.data, vec![0x90, 60, 100]);
    let second = MidiMessage::next_message(&mut src).unwrap();
    assert_eq!(second.data, vec![0xC1, 7]);
}

#[test]
fn next_message_rejects_invalid_status() {
    let mut src = ByteSource::new(vec![60, 100]);
    match MidiMessage::next_message(&mut src) {
        Err(MidiError::InvalidStatus(60)) => {}
        other => panic!("expected an invalid status, got {:?}", other),
    }
}

#[test]
fn sysex_reads_until_end_marker() {
    let mut src = ByteSource::new(vec![0x01, 0x02, 0xF7, 0x90]);
    let m = MidiMessage::next_message_given_status(0xF0, &mut src).unwrap();
    assert_eq!(m.data, vec![0xF0, 0x01, 0x02, 0xF7]);
    assert_eq!(src.pos, 3);
}

#[test]
fn running_status_message_reuses_status() {
    let mut src = ByteSource::new(vec![101]);
    let m = MidiMessage::next_message_running_status(0x91, 64, &mut src).unwrap();
    assert_eq!(m.data, vec![0x91, 64, 101]);
}

#[test]
fn running_status_rejected_for_sysex() {
    let mut src = ByteSource::new(vec![0x01]);
    match MidiMessage::next_message_running_status(0xF0, 0x01, &mut src) {
        Err(MidiError::OtherErr(_)) => {}
        other => panic!("expected running status to be refused, got {:?}", other),
    }
}

#[test]
fn meta_constructors_emit_expected_payloads() {
    let t = MetaEvent::tempo_setting(500000);
    assert!(matches!(t.command, MetaCommand::TempoSetting));
    assert_eq!(t.length, 3);
    assert_eq!(t.data, vec![0x07, 0xA1, 0x20]);
    assert_eq!(t.data_as_u64(3), 500000);

    let s = MetaEvent::sequence_number(0x1234);
    assert_eq!(s.data, vec![0x12, 0x34]);
    assert_eq!(s.length, 2);

    let eot = MetaEvent::end_of_track();
    assert!(matches!(eot.command, MetaCommand::EndOfTrack));
    assert_eq!(eot.length, 0);
    assert!(eot.data.is_empty());

    let ts = MetaEvent::time_signature(6, 3, 24, 8);
    assert_eq!(ts.data, vec![6, 3, 24, 8]);

    let ks = MetaEvent::key_signature(2, 0);
    assert_eq!(ks.data, vec![2, 0]);

    let so = MetaEvent::smpte_offset(1, 2, 3, 4, 5);
    assert_eq!(so.data, vec![1, 2, 3, 4, 5]);

    let txt = MetaEvent::text_event(String::from("abc"));
    assert!(matches!(txt.command, MetaCommand::TextEvent));
    assert_eq!(txt.length, 3);
    assert_eq!(txt.data, vec![b'a', b'b', b'c']);

    let cp = MetaEvent::copyright_notice(String::from("c"));
    assert!(matches!(cp.command, MetaCommand::CopyrightNotice));
    let nm = MetaEvent::sequence_or_track_name(String::from("n"));
    assert!(matches!(nm.command, MetaCommand::SequenceOrTrackName));
    let inst = MetaEvent::instrument_name(String::from("i"));
    assert!(matches!(inst.command, MetaCommand::InstrumentName));
    let ly = MetaEvent::lyric_text(String::from("l"));
    assert!(matches!(ly.command, MetaCommand::LyricText));
    let mk = MetaEvent::marker_text(String::from("m"));
    assert!(matches!(mk.command, MetaCommand::MarkerText));
    let cu = MetaEvent::cue_point(String::from("q"));
    assert!(matches!(cu.command, MetaCommand::CuePoint));
    let ch = MetaEvent::midichannel_prefix_assignment(3);
    assert_eq!(ch.data, vec![3]);
    let po = MetaEvent::midiport_prefix_assignment(4);
    assert_eq!(po.data, vec![4]);
    let sq = MetaEvent::sequencer_specific_event(vec![9, 8, 7]);
    assert_eq!(sq.length, 3);
    assert_eq!(sq.data, vec![9, 8, 7]);
}

#[test]
fn unknown_meta_command_is_tolerated() {
    // command byte 0x10 is unassigned: the event must still decode, with
    // its payload intact
    let mut src = ByteSource::new(vec![0x10, 0x03, 0xAA, 0xBB, 0xCC]);
    let ev = MetaEvent::next_event(&mut src).unwrap();
    assert!(matches!(ev.command, MetaCommand::Unknown));
    assert_eq!(ev.length, 3);
    assert_eq!(ev.data, vec![0xAA, 0xBB, 0xCC]);
}

#[test]
fn meta_event_round_trip_through_reader() {
    let mut src = ByteSource::new(vec![0x51, 0x03, 0x07, 0xA1, 0x20]);
    let ev = MetaEvent::next_event(&mut src).unwrap();
    assert!(matches!(ev.command, MetaCommand::TempoSetting));
    assert_eq!(ev.data_as_u64(3), 500000);
}

#[test]
fn meta_event_truncated_payload_fails() {
    let mut src = ByteSource::new(vec![0x51, 0x03, 0x07]);
    match MetaEvent::next_event(&mut src) {
        Err(rimd::meta::MetaError::Error(_)) => {}
        other => panic!("expected an underlying read error, got {:?}", other),
    }
}

#[test]
fn meta_event_overlong_length_fails() {
    // the length field never terminates
    let mut bytes = vec![0x51u8];
    bytes.extend_from_slice(&[0x80; 10]);
    let mut src = ByteSource::new(bytes);
    match MetaEvent::next_event(&mut src) {
        Err(rimd::meta::MetaError::OtherErr(m)) => {
            assert_eq!(m, "Couldn't read time for meta command")
        }
        other => panic!("expected the length to be refused, got {:?}", other),
    }
}
