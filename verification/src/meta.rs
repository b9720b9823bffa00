//! Meta event building and parsing.
use crate::util::{read_amount, read_byte, ByteSource, ReadError};
use crate::wire::{be_trunc64, parse_meta, MetaEventV};
use vstd::prelude::*;
use vstd::string::StrSliceExecFns;

verus! {

/// An error that can occur parsing a meta command.
#[derive(Debug, Clone, Copy, PartialEq)]
pub enum MetaError {
    InvalidCommand(u8),
    OtherErr(&'static str),
    Error(ReadError),
}

/// Commands that meta messages can represent.  Commands outside the
/// known set decode to `Unknown` rather than failing.
#[derive(Clone, Copy, Debug, PartialEq, Eq, Structural, PartialOrd, Ord)]
pub enum MetaCommand {
    SequenceNumber,
    TextEvent,
    CopyrightNotice,
    SequenceOrTrackName,
    InstrumentName,
    LyricText,
    MarkerText,
    CuePoint,
    MIDIChannelPrefixAssignment,
    MIDIPortPrefixAssignment,
    EndOfTrack,
    TempoSetting,
    SMPTEOffset,
    TimeSignature,
    KeySignature,
    SequencerSpecificEvent,
    Unknown,
}

/// The command byte written for each meta command.  `Unknown` carries no
/// code of its own and is written as `0x80`.
pub open spec fn meta_command_code(c: MetaCommand) -> u8 {
    match c {
        MetaCommand::SequenceNumber => 0x00,
        MetaCommand::TextEvent => 0x01,
        MetaCommand::CopyrightNotice => 0x02,
        MetaCommand::SequenceOrTrackName => 0x03,
        MetaCommand::InstrumentName => 0x04,
        MetaCommand::LyricText => 0x05,
        MetaCommand::MarkerText => 0x06,
        MetaCommand::CuePoint => 0x07,
        MetaCommand::MIDIChannelPrefixAssignment => 0x20,
        MetaCommand::MIDIPortPrefixAssignment => 0x21,
        MetaCommand::EndOfTrack => 0x2F,
        MetaCommand::TempoSetting => 0x51,
        MetaCommand::SMPTEOffset => 0x54,
        MetaCommand::TimeSignature => 0x58,
        MetaCommand::KeySignature => 0x59,
        MetaCommand::SequencerSpecificEvent => 0x7F,
        MetaCommand::Unknown => 0x80,
    }
}

/// The known command announced by a byte, if any.
pub open spec fn spec_meta_command_from_byte(b: u8) -> Option<MetaCommand> {
    if b == 0x00 {
        Some(MetaCommand::SequenceNumber)
    } else if b == 0x01 {
        Some(MetaCommand::TextEvent)
    } else if b == 0x02 {
        Some(MetaCommand::CopyrightNotice)
    } else if b == 0x03 {
        Some(MetaCommand::SequenceOrTrackName)
    } else if b == 0x04 {
        Some(MetaCommand::InstrumentName)
    } else if b == 0x05 {
        Some(MetaCommand::LyricText)
    } else if b == 0x06 {
        Some(MetaCommand::MarkerText)
    } else if b == 0x07 {
        Some(MetaCommand::CuePoint)
    } else if b == 0x20 {
        Some(MetaCommand::MIDIChannelPrefixAssignment)
    } else if b == 0x21 {
        Some(MetaCommand::MIDIPortPrefixAssignment)
    } else if b == 0x2F {
        Some(MetaCommand::EndOfTrack)
    } else if b == 0x51 {
        Some(MetaCommand::TempoSetting)
    } else if b == 0x54 {
        Some(MetaCommand::SMPTEOffset)
    } else if b == 0x58 {
        Some(MetaCommand::TimeSignature)
    } else if b == 0x59 {
        Some(MetaCommand::KeySignature)
    } else if b == 0x7F {
        Some(MetaCommand::SequencerSpecificEvent)
    } else {
        None
    }
}

/// The command a byte decodes to: known commands by their code, anything
/// else tolerated as `Unknown`.
pub open spec fn meta_command_of(b: u8) -> MetaCommand {
    match spec_meta_command_from_byte(b) {
        Some(c) => c,
        None => MetaCommand::Unknown,
    }
}

impl MetaCommand {
    /// The known command whose code is `b`, if any.
    pub fn from_u8(b: u8) -> (r: Option<MetaCommand>)
        ensures
            r == spec_meta_command_from_byte(b),
    {
        match b {
            0x00 => Some(MetaCommand::SequenceNumber),
            0x01 => Some(MetaCommand::TextEvent),
            0x02 => Some(MetaCommand::CopyrightNotice),
            0x03 => Some(MetaCommand::SequenceOrTrackName),
            0x04 => Some(MetaCommand::InstrumentName),
            0x05 => Some(MetaCommand::LyricText),
            0x06 => Some(MetaCommand::MarkerText),
            0x07 => Some(MetaCommand::CuePoint),
            0x20 => Some(MetaCommand::MIDIChannelPrefixAssignment),
            0x21 => Some(MetaCommand::MIDIPortPrefixAssignment),
            0x2F => Some(MetaCommand::EndOfTrack),
            0x51 => Some(MetaCommand::TempoSetting),
            0x54 => Some(MetaCommand::SMPTEOffset),
            0x58 => Some(MetaCommand::TimeSignature),
            0x59 => Some(MetaCommand::KeySignature),
            0x7F => Some(MetaCommand::SequencerSpecificEvent),
            _ => None,
        }
    }

    /// The command byte this command is written as.
    pub fn code(self) -> (b: u8)
        ensures
            b == meta_command_code(self),
    {
        match self {
            MetaCommand::SequenceNumber => 0x00,
            MetaCommand::TextEvent => 0x01,
            MetaCommand::CopyrightNotice => 0x02,
            MetaCommand::SequenceOrTrackName => 0x03,
            MetaCommand::InstrumentName => 0x04,
            MetaCommand::LyricText => 0x05,
            MetaCommand::MarkerText => 0x06,
            MetaCommand::CuePoint => 0x07,
            MetaCommand::MIDIChannelPrefixAssignment => 0x20,
            MetaCommand::MIDIPortPrefixAssignment => 0x21,
            MetaCommand::EndOfTrack => 0x2F,
            MetaCommand::TempoSetting => 0x51,
            MetaCommand::SMPTEOffset => 0x54,
            MetaCommand::TimeSignature => 0x58,
            MetaCommand::KeySignature => 0x59,
            MetaCommand::SequencerSpecificEvent => 0x7F,
            MetaCommand::Unknown => 0x80,
        }
    }
}

/// Meta event building and parsing.  A meta event carries a command, the
/// declared payload length as parsed from its variable-length field, and
/// the raw payload.
#[derive(Debug)]
pub struct MetaEvent {
    pub command: MetaCommand,
    pub length: u64,
    pub data: Vec<u8>,
}

impl View for MetaEvent {
    type V = MetaEventV;

    open spec fn view(&self) -> MetaEventV {
        MetaEventV { command: self.command, length: self.length, data: self.data@ }
    }
}

impl Clone for MetaEvent {
    fn clone(&self) -> (r: MetaEvent)
        ensures
            r@ == self@,
    {
        MetaEvent { command: self.command, length: self.length, data: self.data.clone() }
    }
}

impl MetaEvent {
    /// A meta event whose declared length matches its payload, as every
    /// event built by the constructors or the parser does.
    pub open spec fn length_consistent(&self) -> bool {
        self@.length == self@.data.len()
    }

    /// Turn the first `bytes` bytes of the data of this event into a u64,
    /// big-endian, high bytes falling out on the left when more than
    /// eight are asked for.
    pub fn data_as_u64(&self, bytes: usize) -> (r: u64)
        requires
            bytes <= self@.data.len(),
        ensures
            r == be_trunc64(self@.data.take(bytes as int)),
    {
        let mut res: u64 = 0;
        let mut i: usize = 0;
        while i < bytes
            invariant
                i <= bytes,
                bytes <= self@.data.len(),
                res == be_trunc64(self@.data.take(i as int)),
            decreases bytes - i,
        {
            res = (res << 8) | (self.data[i] as u64);
            i = i + 1;
            proof {
                assert(self@.data.take(i as int).drop_last() =~= self@.data.take(i - 1));
            }
        }
        res
    }

    /// Extract the next meta event from a reader.
    pub fn next_event(reader: &mut ByteSource) -> (r: Result<MetaEvent, MetaError>)
        requires
            old(reader).wf(),
        ensures
            final(reader).wf(),
            final(reader).data@ == old(reader).data@,
            final(reader).pos >= old(reader).pos,
            match r {
                Ok(ev) => {
                    &&& parse_meta(old(reader).remaining()) == Some(
                        (ev@, final(reader).pos - old(reader).pos),
                    )
                    &&& ev.length_consistent()
                },
                Err(e) => {
                    &&& parse_meta(old(reader).remaining()) is None
                    &&& old(reader).remaining().len() == 0 ==> e == MetaError::Error(
                        ReadError::UnexpectedEnd,
                    )
                    &&& (old(reader).remaining().len() >= 1 && crate::wire::parse_vlq(
                        old(reader).remaining().drop_first(),
                    ) is None) ==> (e matches MetaError::OtherErr(m) && m@
                        == "Couldn't read time for meta command"@)
                    &&& (old(reader).remaining().len() >= 1 && crate::wire::parse_vlq(
                        old(reader).remaining().drop_first(),
                    ) is Some) ==> e == MetaError::Error(ReadError::UnexpectedEnd)
                },
            },
    {
        let ghost s0 = old(reader).remaining();
        let command_byte = match read_byte(reader) {
            Ok(b) => b,
            Err(e) => {
                return Err(MetaError::Error(e));
            },
        };
        let command = match MetaCommand::from_u8(command_byte) {
            Some(c) => c,
            None => MetaCommand::Unknown,
        };
        proof {
            assert(s0.drop_first() =~= reader.remaining());
        }
        let len = match crate::reader::SMFReader::read_vtime(reader) {
            Ok(t) => t,
            Err(_) => {
                return Err(MetaError::OtherErr("Couldn't read time for meta command"));
            },
        };
        let ghost mid = reader.remaining();
        let ghost n = reader.pos - old(reader).pos - 1;
        proof {
            crate::wire::lemma_parse_vlq_bound(s0.drop_first());
            assert(1 <= n <= s0.drop_first().len());
            assert(mid =~= s0.skip(1 + n));
        }
        if len > (reader.data.len() - reader.pos) as u64 {
            return Err(MetaError::Error(ReadError::UnexpectedEnd));
        }
        let mut data: Vec<u8> = Vec::new();
        match read_amount(reader, &mut data, len as usize) {
            Ok(()) => {},
            Err(e) => {
                proof {
                    // the length was checked against the bytes left, so the
                    // source cannot have run out
                    assert(false);
                }
                return Err(MetaError::Error(e));
            },
        }
        proof {
            assert(data@ =~= s0.subrange(1 + n, 1 + n + len));
        }
        Ok(MetaEvent { command, length: len, data })
    }

    // event constructors below
    /// Create a sequence number meta event.
    pub fn sequence_number(sequence_number: u16) -> (r: MetaEvent)
        ensures
            r@.command == MetaCommand::SequenceNumber,
            r@.length == 2,
            r@.data == seq![(sequence_number / 256) as u8, (sequence_number % 256) as u8],
            r.length_consistent(),
    {
        MetaEvent {
            command: MetaCommand::SequenceNumber,
            length: 0x02,
            data: MetaEvent::u16_to_vec(sequence_number),
        }
    }

    // util functions for event constructors
    fn u16_to_vec(val: u16) -> (r: Vec<u8>)
        ensures
            r@ == seq![(val / 256) as u8, (val % 256) as u8],
    {
        let mut res: Vec<u8> = Vec::with_capacity(2);
        res.push((val >> 8) as u8);
        res.push(val as u8);
        proof {
            assert(val >> 8 == val / 256) by (bit_vector);
            assert(val as u8 == (val % 256) as u8) by (bit_vector);
            assert(res@ =~= seq![(val / 256) as u8, (val % 256) as u8]);
        }
        res
    }

    fn u24_to_vec(val: u32) -> (r: Vec<u8>)
        requires
            val <= 0x100_0000,
        ensures
            r@ == seq![(val / 0x1_0000 % 256) as u8, (val / 256 % 256) as u8, (val % 256) as u8],
    {
        let mut res: Vec<u8> = Vec::with_capacity(3);
        res.push((val >> 16) as u8);
        res.push((val >> 8) as u8);
        res.push(val as u8);
        proof {
            assert((val >> 16) as u8 == (val / 0x1_0000 % 256) as u8) by (bit_vector);
            assert((val >> 8) as u8 == (val / 256 % 256) as u8) by (bit_vector);
            assert(val as u8 == (val % 256) as u8) by (bit_vector);
            assert(res@ =~= seq![
                (val / 0x1_0000 % 256) as u8,
                (val / 256 % 256) as u8,
                (val % 256) as u8,
            ]);
        }
        res
    }

    /// Create a text meta event.
    pub fn text_event(text: String) -> (r: MetaEvent)
        ensures
            r@.command == MetaCommand::TextEvent,
            r@.data == vstd::utf8::encode_utf8(text@),
            r@.length == vstd::utf8::encode_utf8(text@).len(),
            r.length_consistent(),
    {
        let data = text.as_str().as_bytes_vec();
        let length = data.len() as u64;
        MetaEvent { command: MetaCommand::TextEvent, length, data }
    }

    /// Create a copyright notice meta event.
    pub fn copyright_notice(copyright: String) -> (r: MetaEvent)
        ensures
            r@.command == MetaCommand::CopyrightNotice,
            r@.data == vstd::utf8::encode_utf8(copyright@),
            r@.length == vstd::utf8::encode_utf8(copyright@).len(),
            r.length_consistent(),
    {
        let data = copyright.as_str().as_bytes_vec();
        let length = data.len() as u64;
        MetaEvent { command: MetaCommand::CopyrightNotice, length, data }
    }

    /// Create a name meta event.
    pub fn sequence_or_track_name(name: String) -> (r: MetaEvent)
        ensures
            r@.command == MetaCommand::SequenceOrTrackName,
            r@.data == vstd::utf8::encode_utf8(name@),
            r@.length == vstd::utf8::encode_utf8(name@).len(),
            r.length_consistent(),
    {
        let data = name.as_str().as_bytes_vec();
        let length = data.len() as u64;
        MetaEvent { command: MetaCommand::SequenceOrTrackName, length, data }
    }

    /// Create an instrument name meta event.
    pub fn instrument_name(name: String) -> (r: MetaEvent)
        ensures
            r@.command == MetaCommand::InstrumentName,
            r@.data == vstd::utf8::encode_utf8(name@),
            r@.length == vstd::utf8::encode_utf8(name@).len(),
            r.length_consistent(),
    {
        let data = name.as_str().as_bytes_vec();
        let length = data.len() as u64;
        MetaEvent { command: MetaCommand::InstrumentName, length, data }
    }

    /// Create a lyric text meta event.
    pub fn lyric_text(text: String) -> (r: MetaEvent)
        ensures
            r@.command == MetaCommand::LyricText,
            r@.data == vstd::utf8::encode_utf8(text@),
            r@.length == vstd::utf8::encode_utf8(text@).len(),
            r.length_consistent(),
    {
        let data = text.as_str().as_bytes_vec();
        let length = data.len() as u64;
        MetaEvent { command: MetaCommand::LyricText, length, data }
    }

    /// Create a marker text meta event.
    pub fn marker_text(text: String) -> (r: MetaEvent)
        ensures
            r@.command == MetaCommand::MarkerText,
            r@.data == vstd::utf8::encode_utf8(text@),
            r@.length == vstd::utf8::encode_utf8(text@).len(),
            r.length_consistent(),
    {
        let data = text.as_str().as_bytes_vec();
        let length = data.len() as u64;
        MetaEvent { command: MetaCommand::MarkerText, length, data }
    }

    /// Create a cue point meta event.
    pub fn cue_point(text: String) -> (r: MetaEvent)
        ensures
            r@.command == MetaCommand::CuePoint,
            r@.data == vstd::utf8::encode_utf8(text@),
            r@.length == vstd::utf8::encode_utf8(text@).len(),
            r.length_consistent(),
    {
        let data = text.as_str().as_bytes_vec();
        let length = data.len() as u64;
        MetaEvent { command: MetaCommand::CuePoint, length, data }
    }

    /// Create a midi channel prefix assignment meta event.
    pub fn midichannel_prefix_assignment(channel: u8) -> (r: MetaEvent)
        ensures
            r@.command == MetaCommand::MIDIChannelPrefixAssignment,
            r@.length == 1,
            r@.data == seq![channel],
            r.length_consistent(),
    {
        MetaEvent {
            command: MetaCommand::MIDIChannelPrefixAssignment,
            length: 1,
            data: vec![channel],
        }
    }

    /// Create a midi port prefix assignment meta event.
    pub fn midiport_prefix_assignment(port: u8) -> (r: MetaEvent)
        ensures
            r@.command == MetaCommand::MIDIPortPrefixAssignment,
            r@.length == 1,
            r@.data == seq![port],
            r.length_consistent(),
    {
        MetaEvent { command: MetaCommand::MIDIPortPrefixAssignment, length: 1, data: vec![port] }
    }

    /// Create an end of track meta event.
    pub fn end_of_track() -> (r: MetaEvent)
        ensures
            r@.command == MetaCommand::EndOfTrack,
            r@.length == 0,
            r@.data == Seq::<u8>::empty(),
            r.length_consistent(),
    {
        let ev = MetaEvent { command: MetaCommand::EndOfTrack, length: 0, data: vec![] };
        proof {
            assert(ev@.data =~= Seq::<u8>::empty());
        }
        ev
    }

    /// Create an event to set track tempo, stored as a 24-bit value in
    /// microseconds per quarter note.
    pub fn tempo_setting(tempo: u32) -> (r: MetaEvent)
        requires
            tempo <= 0x100_0000,
        ensures
            r@.command == MetaCommand::TempoSetting,
            r@.length == 3,
            r@.data == seq![
                (tempo / 0x1_0000 % 256) as u8,
                (tempo / 256 % 256) as u8,
                (tempo % 256) as u8,
            ],
            r.length_consistent(),
    {
        MetaEvent {
            command: MetaCommand::TempoSetting,
            length: 3,
            data: MetaEvent::u24_to_vec(tempo),
        }
    }

    /// Create an smpte offset meta event.
    pub fn smpte_offset(hours: u8, minutes: u8, seconds: u8, frames: u8, fractional: u8) -> (r:
        MetaEvent)
        ensures
            r@.command == MetaCommand::SMPTEOffset,
            r@.length == 5,
            r@.data == seq![hours, minutes, seconds, frames, fractional],
            r.length_consistent(),
    {
        MetaEvent {
            command: MetaCommand::SMPTEOffset,
            length: 5,
            data: vec![hours, minutes, seconds, frames, fractional],
        }
    }

    /// Create a time signature event of the form
    /// `numerator`/2^`denominator`, with `clocks_per_tick` MIDI clocks
    /// per metronome tick and `num_32nd_notes_per_24_clocks` thirty-second
    /// notes per twenty-four clocks.
    pub fn time_signature(
        numerator: u8,
        denominator: u8,
        clocks_per_tick: u8,
        num_32nd_notes_per_24_clocks: u8,
    ) -> (r: MetaEvent)
        ensures
            r@.command == MetaCommand::TimeSignature,
            r@.length == 4,
            r@.data == seq![numerator, denominator, clocks_per_tick, num_32nd_notes_per_24_clocks],
            r.length_consistent(),
    {
        MetaEvent {
            command: MetaCommand::TimeSignature,
            length: 4,
            data: vec![numerator, denominator, clocks_per_tick, num_32nd_notes_per_24_clocks],
        }
    }

    /// Create a key signature event expressed as the number of sharps or
    /// flats, and a major/minor flag.
    pub fn key_signature(sharps_flats: u8, major_minor: u8) -> (r: MetaEvent)
        ensures
            r@.command == MetaCommand::KeySignature,
            r@.length == 2,
            r@.data == seq![sharps_flats, major_minor],
            r.length_consistent(),
    {
        MetaEvent {
            command: MetaCommand::KeySignature,
            length: 2,
            data: vec![sharps_flats, major_minor],
        }
    }

    /// The MIDI-file equivalent of the system exclusive message:
    /// sequencer-specific directives carried verbatim.
    pub fn sequencer_specific_event(data: Vec<u8>) -> (r: MetaEvent)
        ensures
            r@.command == MetaCommand::SequencerSpecificEvent,
            r@.length == data@.len(),
            r@.data == data@,
            r.length_consistent(),
    {
        let length = data.len() as u64;
        MetaEvent { command: MetaCommand::SequencerSpecificEvent, length, data }
    }
}

} // verus!
