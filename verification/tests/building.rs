use rimd::builder::{AbsoluteEvent, SMFBuilder};
use rimd::meta::{MetaCommand, MetaEvent};
use rimd::midi::MidiMessage;
use rimd::util::{note_num_to_name, ByteSource};
use rimd::writer::SMFWriter;
use rimd::{Event, SMFFormat, TrackEvent, SMF};

#[test]
fn simple_build() {
    let note_on = MidiMessage::note_on(69, 100, 0);
    let note_off = MidiMessage::note_off(69, 100, 0);

    let mut builder = SMFBuilder::new();
    builder.add_track();

    builder.add_event(0, TrackEvent { vtime: 0, event: Event::Midi(note_on) });
    builder.add_event(0, TrackEvent { vtime: 10, event: Event::Midi(note_off) });
    builder.result();
}

#[test]
fn test_note_num_to_name() {
    assert_eq!(&note_num_to_name(48)[..], "C3");
    assert_eq!(&note_num_to_name(49)[..], "C#3");
    assert_eq!(&note_num_to_name(65)[..], "F4");
    assert_eq!(&note_num_to_name(104)[..], "G#7");
}

#[test]
fn note_names_below_first_octave() {
    assert_eq!(&note_num_to_name(0)[..], "C-1");
    assert_eq!(&note_num_to_name(11)[..], "B-1");
    assert_eq!(&note_num_to_name(12)[..], "C0");
}

#[test]
fn builder_sorts_events_by_time() {
    let mut builder = SMFBuilder::new();
    builder.add_track();
    builder.add_midi_abs(0, 20, MidiMessage::note_off(60, 80, 0));
    builder.add_midi_abs(0, 5, MidiMessage::note_on(60, 80, 0));
    // a meta event at the same time as a midi event sorts before it
    builder.add_meta_abs(0, 20, MetaEvent::end_of_track());
    let smf = builder.result();
    assert!(matches!(smf.format, SMFFormat::MultiTrack));
    assert_eq!(smf.tracks.len(), 1);
    let evs = &smf.tracks[0].events;
    assert_eq!(evs.len(), 3);
    assert_eq!(evs[0].vtime, 5);
    match &evs[0].event {
        Event::Midi(m) => assert_eq!(m.data, vec![0x90, 60, 80]),
        other => panic!("expected the earlier note first, got {:?}", other),
    }
    assert_eq!(evs[1].vtime, 15);
    match &evs[1].event {
        Event::Meta(m) => assert!(matches!(m.command, MetaCommand::EndOfTrack)),
        other => panic!("expected the meta event before the note, got {:?}", other),
    }
    assert_eq!(evs[2].vtime, 0);
}

#[test]
fn builder_relative_times_follow_latest_event() {
    let mut builder = SMFBuilder::new();
    builder.add_track();
    builder.add_midi_abs(0, 10, MidiMessage::note_on(60, 80, 0));
    builder.add_midi_rel(0, 5, MidiMessage::note_off(60, 80, 0));
    let smf = builder.result();
    let evs = &smf.tracks[0].events;
    assert_eq!(evs[0].vtime, 10);
    assert_eq!(evs[1].vtime, 5);
}

#[test]
fn builder_names_and_copyright() {
    let mut builder = SMFBuilder::new();
    builder.add_track();
    assert_eq!(builder.num_tracks(), 1);
    builder.set_copyright(0, String::from("c"));
    builder.set_name(0, String::from("n"));
    let smf = builder.result();
    assert_eq!(smf.tracks[0].copyright.as_deref(), Some("c"));
    assert_eq!(smf.tracks[0].name.as_deref(), Some("n"));
}

#[test]
fn builder_static_track_rederives_deltas() {
    let mut builder = SMFBuilder::new();
    let track = vec![
        AbsoluteEvent::new_midi(3, MidiMessage::note_on(60, 80, 0)),
        AbsoluteEvent::new_midi(10, MidiMessage::note_off(60, 80, 0)),
    ];
    assert!(track[0].is_midi());
    assert!(!track[0].is_meta());
    assert_eq!(track[0].get_time(), 3);
    builder.add_static_track(&track);
    let smf = builder.result();
    let evs = &smf.tracks[0].events;
    assert_eq!(evs[0].vtime, 3);
    assert_eq!(evs[1].vtime, 7);
}

#[test]
fn writer_add_track_with_name_prefixes_name_event() {
    let mut writer = SMFWriter::new_with_division(96);
    let track = vec![
        AbsoluteEvent::new_midi(0, MidiMessage::note_on(60, 80, 0)),
        AbsoluteEvent::new_meta(12, MetaEvent::end_of_track()),
    ];
    writer.add_track_with_name(&track, Some(String::from("solo")));
    let mut out: Vec<u8> = Vec::new();
    writer.write_all(&mut out).unwrap();
    let mut src = ByteSource::new(out);
    let smf = SMF::from_reader(&mut src).unwrap();
    assert_eq!(smf.tracks.len(), 1);
    let track = &smf.tracks[0];
    assert_eq!(track.name.as_deref(), Some("solo"));
    match &track.events[0].event {
        Event::Meta(m) => assert!(matches!(m.command, MetaCommand::SequenceOrTrackName)),
        other => panic!("expected the name event first, got {:?}", other),
    }
    assert_eq!(track.events[1].vtime, 0);
    assert_eq!(track.events[2].vtime, 12);
    // the end-of-track marker came from the input, none is added twice
    assert_eq!(track.events.len(), 3);
}

#[test]
fn writer_from_smf_keeps_format() {
    let smf = SMF {
        format: SMFFormat::MultiSong,
        tracks: vec![],
        division: 33,
    };
    let writer = SMFWriter::from_smf(smf);
    let mut out: Vec<u8> = Vec::new();
    writer.write_all(&mut out).unwrap();
    assert_eq!(&out[8..10], &[0, 2]);
    assert_eq!(&out[12..14], &[0, 33]);
}
