//! Midi message building and parsing.
use crate::util::{read_byte, ByteSource, ReadError};
use crate::wire::{
    first_sysex_end, is_channel_status, is_valid_status, lemma_first_sysex_end, parse_msg_given,
    parse_msg_running, status_data_bytes,
};
use vstd::prelude::*;

verus! {

/// An error that can occur trying to parse a midi message.
#[derive(Debug, Clone, Copy, PartialEq)]
pub enum MidiError {
    InvalidStatus(u8),
    OtherErr(&'static str),
    Error(ReadError),
}

/// The status field of a midi message indicates what midi command it
/// represents and, for voice messages, what channel it is on.
#[derive(Debug, PartialEq, Eq, Structural, Clone, Copy)]
pub enum Status {
    // voice
    NoteOff,
    NoteOn,
    PolyphonicAftertouch,
    ControlChange,
    ProgramChange,
    ChannelAftertouch,
    PitchBend,
    // system
    SysExStart,
    MIDITimeCodeQtrFrame,
    SongPositionPointer,
    SongSelect,
    TuneRequest,
    SysExEnd,
    TimingClock,
    Start,
    Continue,
    Stop,
    ActiveSensing,
    SystemReset,
}

/// The status byte that announces each message kind (voice kinds on
/// channel zero).
pub open spec fn status_code(s: Status) -> u8 {
    match s {
        Status::NoteOff => 0x80,
        Status::NoteOn => 0x90,
        Status::PolyphonicAftertouch => 0xA0,
        Status::ControlChange => 0xB0,
        Status::ProgramChange => 0xC0,
        Status::ChannelAftertouch => 0xD0,
        Status::PitchBend => 0xE0,
        Status::SysExStart => 0xF0,
        Status::MIDITimeCodeQtrFrame => 0xF1,
        Status::SongPositionPointer => 0xF2,
        Status::SongSelect => 0xF3,
        Status::TuneRequest => 0xF6,
        Status::SysExEnd => 0xF7,
        Status::TimingClock => 0xF8,
        Status::Start => 0xFA,
        Status::Continue => 0xFB,
        Status::Stop => 0xFC,
        Status::ActiveSensing => 0xFE,
        Status::SystemReset => 0xFF,
    }
}

/// The message kind announced by an exact status code, if any.
pub open spec fn spec_status_from_byte(b: u8) -> Option<Status> {
    if b == 0x80 {
        Some(Status::NoteOff)
    } else if b == 0x90 {
        Some(Status::NoteOn)
    } else if b == 0xA0 {
        Some(Status::PolyphonicAftertouch)
    } else if b == 0xB0 {
        Some(Status::ControlChange)
    } else if b == 0xC0 {
        Some(Status::ProgramChange)
    } else if b == 0xD0 {
        Some(Status::ChannelAftertouch)
    } else if b == 0xE0 {
        Some(Status::PitchBend)
    } else if b == 0xF0 {
        Some(Status::SysExStart)
    } else if b == 0xF1 {
        Some(Status::MIDITimeCodeQtrFrame)
    } else if b == 0xF2 {
        Some(Status::SongPositionPointer)
    } else if b == 0xF3 {
        Some(Status::SongSelect)
    } else if b == 0xF6 {
        Some(Status::TuneRequest)
    } else if b == 0xF7 {
        Some(Status::SysExEnd)
    } else if b == 0xF8 {
        Some(Status::TimingClock)
    } else if b == 0xFA {
        Some(Status::Start)
    } else if b == 0xFB {
        Some(Status::Continue)
    } else if b == 0xFC {
        Some(Status::Stop)
    } else if b == 0xFE {
        Some(Status::ActiveSensing)
    } else if b == 0xFF {
        Some(Status::SystemReset)
    } else {
        None
    }
}

/// The kind of the message whose first byte is `b`: the high nibble for
/// voice statuses, the exact byte for system statuses.  Meaningful only
/// when `is_valid_status(b)` holds.
pub open spec fn spec_status_of(b: u8) -> Status {
    if b < 0xF0 {
        if b < 0x90 {
            Status::NoteOff
        } else if b < 0xA0 {
            Status::NoteOn
        } else if b < 0xB0 {
            Status::PolyphonicAftertouch
        } else if b < 0xC0 {
            Status::ControlChange
        } else if b < 0xD0 {
            Status::ProgramChange
        } else if b < 0xE0 {
            Status::ChannelAftertouch
        } else {
            Status::PitchBend
        }
    } else {
        match spec_status_from_byte(b) {
            Some(s) => s,
            None => Status::NoteOff,
        }
    }
}

impl Status {
    /// The message kind whose exact status code is `b`, if any.
    pub fn from_u8(b: u8) -> (r: Option<Status>)
        ensures
            r == spec_status_from_byte(b),
    {
        match b {
            0x80 => Some(Status::NoteOff),
            0x90 => Some(Status::NoteOn),
            0xA0 => Some(Status::PolyphonicAftertouch),
            0xB0 => Some(Status::ControlChange),
            0xC0 => Some(Status::ProgramChange),
            0xD0 => Some(Status::ChannelAftertouch),
            0xE0 => Some(Status::PitchBend),
            0xF0 => Some(Status::SysExStart),
            0xF1 => Some(Status::MIDITimeCodeQtrFrame),
            0xF2 => Some(Status::SongPositionPointer),
            0xF3 => Some(Status::SongSelect),
            0xF6 => Some(Status::TuneRequest),
            0xF7 => Some(Status::SysExEnd),
            0xF8 => Some(Status::TimingClock),
            0xFA => Some(Status::Start),
            0xFB => Some(Status::Continue),
            0xFC => Some(Status::Stop),
            0xFE => Some(Status::ActiveSensing),
            0xFF => Some(Status::SystemReset),
            _ => None,
        }
    }
}

pub const STATUS_MASK: u8 = 0xF0;

pub const CHANNEL_MASK: u8 = 0x0F;

pub open spec fn spec_make_status(status: Status, channel: u8) -> u8 {
    status_code(status) | channel
}

/// Or in the channel bits to a status.
pub fn make_status(status: Status, channel: u8) -> (r: u8)
    ensures
        r == spec_make_status(status, channel),
{
    let code: u8 = match status {
        Status::NoteOff => 0x80,
        Status::NoteOn => 0x90,
        Status::PolyphonicAftertouch => 0xA0,
        Status::ControlChange => 0xB0,
        Status::ProgramChange => 0xC0,
        Status::ChannelAftertouch => 0xD0,
        Status::PitchBend => 0xE0,
        Status::SysExStart => 0xF0,
        Status::MIDITimeCodeQtrFrame => 0xF1,
        Status::SongPositionPointer => 0xF2,
        Status::SongSelect => 0xF3,
        Status::TuneRequest => 0xF6,
        Status::SysExEnd => 0xF7,
        Status::TimingClock => 0xF8,
        Status::Start => 0xFA,
        Status::Continue => 0xFB,
        Status::Stop => 0xFC,
        Status::ActiveSensing => 0xFE,
        Status::SystemReset => 0xFF,
    };
    code | channel
}

/// Midi message building and parsing.  A message is stored as its raw
/// wire bytes; byte zero, when present, is the status byte.
#[derive(Debug)]
pub struct MidiMessage {
    pub data: Vec<u8>,
}

impl View for MidiMessage {
    type V = Seq<u8>;

    open spec fn view(&self) -> Seq<u8> {
        self.data@
    }
}

impl Clone for MidiMessage {
    fn clone(&self) -> (r: MidiMessage)
        ensures
            r@ == self@,
    {
        MidiMessage { data: self.data.clone() }
    }
}

impl MidiMessage {
    /// A message whose first byte announces a known kind.
    pub open spec fn has_valid_status(&self) -> bool {
        self@.len() > 0 && is_valid_status(self@[0])
    }

    /// Return the status (type) of this message.
    pub fn status(&self) -> (r: Status)
        requires
            self.has_valid_status(),
        ensures
            r == spec_status_of(self@[0]),
    {
        let b = self.data[0];
        let key = if b >= 0xF0 {
            b
        } else {
            b & STATUS_MASK
        };
        proof {
            if b < 0xF0 {
                assert(b >= 0x80);
                assert((b & 0xF0) == 0x80 <==> (0x80 <= b < 0x90)) by (bit_vector);
                assert((b & 0xF0) == 0x90 <==> (0x90 <= b < 0xA0)) by (bit_vector);
                assert((b & 0xF0) == 0xA0 <==> (0xA0 <= b < 0xB0)) by (bit_vector);
                assert((b & 0xF0) == 0xB0 <==> (0xB0 <= b < 0xC0)) by (bit_vector);
                assert((b & 0xF0) == 0xC0 <==> (0xC0 <= b < 0xD0)) by (bit_vector);
                assert((b & 0xF0) == 0xD0 <==> (0xD0 <= b < 0xE0)) by (bit_vector);
                assert((b & 0xF0) == 0xE0 <==> (0xE0 <= b < 0xF0)) by (bit_vector);
            }
        }
        match Status::from_u8(key) {
            Some(s) => s,
            None => {
                proof {
                    assert(false);
                }
                Status::NoteOff
            },
        }
    }

    /// Return the channel this message is on, or `None` for system
    /// messages, which carry no channel.
    pub fn channel(&self) -> (r: Option<u8>)
        requires
            self.has_valid_status(),
        ensures
            r == if is_channel_status(self@[0]) {
                Some((self@[0] & 0x0F) as u8)
            } else {
                None::<u8>
            },
    {
        match self.status() {
            Status::NoteOff
            | Status::NoteOn
            | Status::PolyphonicAftertouch
            | Status::ControlChange
            | Status::ProgramChange
            | Status::ChannelAftertouch
            | Status::PitchBend => Some(self.data[0] & CHANNEL_MASK),
            _ => None,
        }
    }

    /// Get the data at index `index` from this message.  Status is at
    /// index 0.
    pub fn data(&self, index: usize) -> (r: u8)
        requires
            index < self@.len(),
        ensures
            r == self@[index as int],
    {
        self.data[index]
    }

    /// Create a midi message from a vector of bytes.
    pub fn from_bytes(bytes: Vec<u8>) -> (r: MidiMessage)
        ensures
            r@ == bytes@,
    {
        MidiMessage { data: bytes }
    }

    /// The number of data bytes for a message with the given status:
    /// `-2` marks system exclusive (read until the end marker), `-3` an
    /// invalid status.
    pub fn data_bytes(status: u8) -> (r: isize)
        ensures
            r as int == status_data_bytes(status),
    {
        proof {
            if status < 0xF0 && status >= 0x80 {
                assert((status & 0xF0) == 0x80 <==> (0x80 <= status < 0x90)) by (bit_vector);
                assert((status & 0xF0) == 0x90 <==> (0x90 <= status < 0xA0)) by (bit_vector);
                assert((status & 0xF0) == 0xA0 <==> (0xA0 <= status < 0xB0)) by (bit_vector);
                assert((status & 0xF0) == 0xB0 <==> (0xB0 <= status < 0xC0)) by (bit_vector);
                assert((status & 0xF0) == 0xC0 <==> (0xC0 <= status < 0xD0)) by (bit_vector);
                assert((status & 0xF0) == 0xD0 <==> (0xD0 <= status < 0xE0)) by (bit_vector);
                assert((status & 0xF0) == 0xE0 <==> (0xE0 <= status < 0xF0)) by (bit_vector);
            }
            if status < 0x80 {
                assert((status & 0xF0) < 0x80) by (bit_vector)
                    requires
                        status < 0x80,
                ;
            }
        }
        let key = if status >= 0xF0 {
            status
        } else {
            status & STATUS_MASK
        };
        match Status::from_u8(key) {
            Some(stat) => {
                match stat {
                    Status::NoteOff
                    | Status::NoteOn
                    | Status::PolyphonicAftertouch
                    | Status::ControlChange
                    | Status::PitchBend
                    | Status::SongPositionPointer => 2,
                    Status::SysExStart => -2,
                    Status::ProgramChange
                    | Status::ChannelAftertouch
                    | Status::MIDITimeCodeQtrFrame
                    | Status::SongSelect => 1,
                    Status::TuneRequest
                    | Status::SysExEnd
                    | Status::TimingClock
                    | Status::Start
                    | Status::Continue
                    | Status::Stop
                    | Status::ActiveSensing
                    | Status::SystemReset => 0,
                }
            },
            None => -3,
        }
    }

    /// Get the next midi message from the reader given that the status
    /// `stat` has just been read.
    pub fn next_message_given_status(stat: u8, reader: &mut ByteSource) -> (r: Result<
        MidiMessage,
        MidiError,
    >)
        requires
            old(reader).wf(),
        ensures
            final(reader).wf(),
            final(reader).data@ == old(reader).data@,
            final(reader).pos >= old(reader).pos,
            match r {
                Ok(m) => parse_msg_given(stat, old(reader).remaining()) == Some(
                    (m@, final(reader).pos - old(reader).pos),
                ),
                Err(e) => {
                    &&& parse_msg_given(stat, old(reader).remaining()) is None
                    &&& e == if status_data_bytes(stat) == -3 {
                        MidiError::InvalidStatus(stat)
                    } else {
                        MidiError::Error(ReadError::UnexpectedEnd)
                    }
                },
            },
    {
        let ghost s0 = old(reader).remaining();
        let mut ret: Vec<u8> = Vec::with_capacity(3);
        ret.push(stat);
        let n = MidiMessage::data_bytes(stat);
        if n == 0 {
            proof {
                assert(ret@ =~= seq![stat] + s0.take(0));
            }
        } else if n == 1 {
            match read_byte(reader) {
                Ok(b) => ret.push(b),
                Err(e) => {
                    return Err(MidiError::Error(e));
                },
            }
            proof {
                assert(ret@ =~= seq![stat] + s0.take(1));
            }
        } else if n == 2 {
            match read_byte(reader) {
                Ok(b) => ret.push(b),
                Err(e) => {
                    return Err(MidiError::Error(e));
                },
            }
            match read_byte(reader) {
                Ok(b) => ret.push(b),
                Err(e) => {
                    return Err(MidiError::Error(e));
                },
            }
            proof {
                assert(ret@ =~= seq![stat] + s0.take(2));
            }
        } else if n == -2 {
            // system exclusive: include every byte up to the end marker
            let ghost start = reader.pos as int;
            let mut done = false;
            while !done
                invariant
                    status_data_bytes(stat) == -2,
                    reader.wf(),
                    reader.data@ == old(reader).data@,
                    old(reader).pos <= reader.pos,
                    s0 == old(reader).remaining(),
                    ret@ == seq![stat] + s0.take(reader.pos - old(reader).pos),
                    forall|j: int|
                        0 <= j < reader.pos - old(reader).pos - 1 ==> s0[j] != 0xF7,
                    !done ==> forall|j: int|
                        0 <= j < reader.pos - old(reader).pos ==> s0[j] != 0xF7,
                    done ==> {
                        &&& reader.pos - old(reader).pos >= 1
                        &&& s0[reader.pos - old(reader).pos - 1] == 0xF7
                    },
                decreases reader.data@.len() - reader.pos + (if done {
                    0int
                } else {
                    1int
                }),
            {
                let b = match read_byte(reader) {
                    Ok(b) => b,
                    Err(e) => {
                        proof {
                            lemma_first_sysex_end(s0);
                            if first_sysex_end(s0) is Some {
                                let i = first_sysex_end(s0)->Some_0;
                                assert(s0[i] != 0xF7);
                            }
                        }
                        return Err(MidiError::Error(e));
                    },
                };
                ret.push(b);
                proof {
                    assert(ret@ =~= seq![stat] + s0.take(reader.pos - old(reader).pos));
                }
                if b == 0xF7 {
                    done = true;
                }
            }
            proof {
                let c = reader.pos - old(reader).pos;
                lemma_first_sysex_end(s0);
                match first_sysex_end(s0) {
                    Some(i) => {
                        if i < c - 1 {
                            assert(s0[i] != 0xF7);
                        }
                        if i > c - 1 {
                            assert(s0[c - 1] != 0xF7);
                        }
                        assert(i == c - 1);
                    },
                    None => {
                        assert(s0[c - 1] != 0xF7);
                    },
                }
            }
        } else {
            return Err(MidiError::InvalidStatus(stat));
        }
        Ok(MidiMessage { data: ret })
    }

    /// Get the next midi message from the reader given that there is a
    /// running status of `stat` and that in place of a status byte the
    /// data byte `databyte` was read.  A zero-data-byte kind cannot have
    /// elided its status, so the caller must rule it out.
    pub fn next_message_running_status(stat: u8, databyte: u8, reader: &mut ByteSource) -> (r:
        Result<MidiMessage, MidiError>)
        requires
            old(reader).wf(),
            status_data_bytes(stat) != 0,
        ensures
            final(reader).wf(),
            final(reader).data@ == old(reader).data@,
            final(reader).pos >= old(reader).pos,
            match r {
                Ok(m) => parse_msg_running(stat, databyte, old(reader).remaining()) == Some(
                    (m@, final(reader).pos - old(reader).pos),
                ),
                Err(e) => {
                    &&& parse_msg_running(stat, databyte, old(reader).remaining()) is None
                    &&& e == if status_data_bytes(stat) == -3 {
                        MidiError::InvalidStatus(stat)
                    } else if status_data_bytes(stat) == -2 {
                        MidiError::OtherErr("Running status not permitted with meta and sysex event")
                    } else {
                        MidiError::Error(ReadError::UnexpectedEnd)
                    }
                },
            },
    {
        let ghost s0 = old(reader).remaining();
        let mut ret: Vec<u8> = Vec::with_capacity(3);
        ret.push(stat);
        ret.push(databyte);
        let n = MidiMessage::data_bytes(stat);
        if n == 1 {
            proof {
                assert(ret@ =~= seq![stat, databyte]);
            }
        } else if n == 2 {
            match read_byte(reader) {
                Ok(b) => ret.push(b),
                Err(e) => {
                    return Err(MidiError::Error(e));
                },
            }
            proof {
                assert(ret@ =~= seq![stat, databyte, s0[0]]);
            }
        } else if n == -2 {
            return Err(
                MidiError::OtherErr("Running status not permitted with meta and sysex event"),
            );
        } else {
            return Err(MidiError::InvalidStatus(stat));
        }
        Ok(MidiMessage { data: ret })
    }

    /// Extract the next midi message from a reader.
    pub fn next_message(reader: &mut ByteSource) -> (r: Result<MidiMessage, MidiError>)
        requires
            old(reader).wf(),
        ensures
            final(reader).wf(),
            final(reader).data@ == old(reader).data@,
            old(reader).remaining_len() == 0 ==> r == Err::<MidiMessage, MidiError>(
                MidiError::Error(ReadError::UnexpectedEnd),
            ),
            old(reader).remaining_len() > 0 ==> {
                let stat = old(reader).remaining()[0];
                match r {
                    Ok(m) => parse_msg_given(stat, old(reader).remaining().drop_first()) == Some(
                        (m@, final(reader).pos - old(reader).pos - 1),
                    ),
                    Err(e) => {
                        &&& parse_msg_given(stat, old(reader).remaining().drop_first()) is None
                        &&& e == if status_data_bytes(stat) == -3 {
                            MidiError::InvalidStatus(stat)
                        } else {
                            MidiError::Error(ReadError::UnexpectedEnd)
                        }
                    },
                }
            },
    {
        let stat = match read_byte(reader) {
            Ok(b) => b,
            Err(e) => {
                return Err(MidiError::Error(e));
            },
        };
        proof {
            assert(old(reader).remaining().drop_first() =~= reader.remaining());
        }
        MidiMessage::next_message_given_status(stat, reader)
    }

    // Functions to build midi messages
    /// Create a note on message.
    pub fn note_on(note: u8, velocity: u8, channel: u8) -> (r: MidiMessage)
        ensures
            r@ == seq![spec_make_status(Status::NoteOn, channel), note, velocity],
    {
        MidiMessage { data: vec![make_status(Status::NoteOn, channel), note, velocity] }
    }

    /// Create a note off message.
    pub fn note_off(note: u8, velocity: u8, channel: u8) -> (r: MidiMessage)
        ensures
            r@ == seq![spec_make_status(Status::NoteOff, channel), note, velocity],
    {
        MidiMessage { data: vec![make_status(Status::NoteOff, channel), note, velocity] }
    }

    /// Create a polyphonic aftertouch message.
    /// This message is most often sent by pressing down on the key after it "bottoms out".
    pub fn polyphonic_aftertouch(note: u8, pressure: u8, channel: u8) -> (r: MidiMessage)
        ensures
            r@ == seq![spec_make_status(Status::PolyphonicAftertouch, channel), note, pressure],
    {
        MidiMessage { data: vec![make_status(Status::PolyphonicAftertouch, channel), note, pressure] }
    }

    /// Create a control change message.
    /// This message is sent when a controller value changes.
    pub fn control_change(controler: u8, data: u8, channel: u8) -> (r: MidiMessage)
        ensures
            r@ == seq![spec_make_status(Status::ControlChange, channel), controler, data],
    {
        MidiMessage { data: vec![make_status(Status::ControlChange, channel), controler, data] }
    }

    /// Create a program change message.
    /// This message is sent when the patch number changes.
    pub fn program_change(program: u8, channel: u8) -> (r: MidiMessage)
        ensures
            r@ == seq![spec_make_status(Status::ProgramChange, channel), program],
    {
        MidiMessage { data: vec![make_status(Status::ProgramChange, channel), program] }
    }

    /// Create a channel aftertouch message, carrying the single greatest
    /// pressure value of all currently depressed keys.
    pub fn channel_aftertouch(pressure: u8, channel: u8) -> (r: MidiMessage)
        ensures
            r@ == seq![spec_make_status(Status::ChannelAftertouch, channel), pressure],
    {
        MidiMessage { data: vec![make_status(Status::ChannelAftertouch, channel), pressure] }
    }

    /// Create a pitch bend message.  The bender position is a fourteen
    /// bit value split into `lsb` and `msb` seven-bit halves.
    pub fn pitch_bend(lsb: u8, msb: u8, channel: u8) -> (r: MidiMessage)
        ensures
            r@ == seq![spec_make_status(Status::PitchBend, channel), lsb, msb],
    {
        MidiMessage { data: vec![make_status(Status::PitchBend, channel), lsb, msb] }
    }
}

} // verus!
