//! The in-memory byte source that parsing consumes, and small helpers.
use encoding::all::ISO_8859_1;
use encoding::{DecoderTrap, Encoding};
use vstd::prelude::*;
use vstd::string::StringExecFns;

verus! {

/// The letter (and sharp sign, where one is due) of a pitch class.
pub open spec fn note_name_chars(pc: int) -> Seq<char> {
    if pc == 0 {
        seq!['C']
    } else if pc == 1 {
        seq!['C', '#']
    } else if pc == 2 {
        seq!['D']
    } else if pc == 3 {
        seq!['D', '#']
    } else if pc == 4 {
        seq!['E']
    } else if pc == 5 {
        seq!['F']
    } else if pc == 6 {
        seq!['F', '#']
    } else if pc == 7 {
        seq!['G']
    } else if pc == 8 {
        seq!['G', '#']
    } else if pc == 9 {
        seq!['A']
    } else if pc == 10 {
        seq!['A', '#']
    } else {
        seq!['B']
    }
}

pub open spec fn digit_char(d: int) -> char {
    if d == 0 {
        '0'
    } else if d == 1 {
        '1'
    } else if d == 2 {
        '2'
    } else if d == 3 {
        '3'
    } else if d == 4 {
        '4'
    } else if d == 5 {
        '5'
    } else if d == 6 {
        '6'
    } else if d == 7 {
        '7'
    } else if d == 8 {
        '8'
    } else {
        '9'
    }
}

/// The decimal digits of `n`, most significant first.
pub open spec fn dec_digits(n: nat) -> Seq<char>
    decreases n,
{
    if n < 10 {
        seq![digit_char(n as int)]
    } else {
        dec_digits(n / 10).push(digit_char((n % 10) as int))
    }
}

/// The name of a midi note number: its pitch class, then its octave,
/// counted so that note 12 opens octave zero and the notes below it sit
/// in octave minus one.
pub open spec fn spec_note_name(num: u32) -> Seq<char> {
    note_name_chars(num as int % 12) + (if num < 12 {
        seq!['-', '1']
    } else {
        dec_digits((num / 12 - 1) as nat)
    })
}

fn digit_str(d: u32) -> (r: &'static str)
    requires
        d < 10,
    ensures
        r@ == seq![digit_char(d as int)],
{
    let r: &'static str = match d {
        0 => "0",
        1 => "1",
        2 => "2",
        3 => "3",
        4 => "4",
        5 => "5",
        6 => "6",
        7 => "7",
        8 => "8",
        _ => "9",
    };
    proof {
        reveal_strlit("0");
        reveal_strlit("1");
        reveal_strlit("2");
        reveal_strlit("3");
        reveal_strlit("4");
        reveal_strlit("5");
        reveal_strlit("6");
        reveal_strlit("7");
        reveal_strlit("8");
        reveal_strlit("9");
        assert(r@ =~= seq![digit_char(d as int)]);
    }
    r
}

fn dec_string(n: u32) -> (r: String)
    ensures
        r@ == dec_digits(n as nat),
    decreases n,
{
    if n < 10 {
        let mut r = String::new();
        r.append(digit_str(n));
        proof {
            assert(r@ =~= dec_digits(n as nat));
        }
        r
    } else {
        let mut r = dec_string(n / 10);
        r.append(digit_str(n % 10));
        proof {
            assert(r@ =~= dec_digits(n as nat));
        }
        r
    }
}

/// convert a midi note number to a name
pub fn note_num_to_name(num: u32) -> (r: String)
    ensures
        r@ == spec_note_name(num),
{
    let pc = num % 12;
    let base: &'static str = match pc {
        0 => "C",
        1 => "C#",
        2 => "D",
        3 => "D#",
        4 => "E",
        5 => "F",
        6 => "F#",
        7 => "G",
        8 => "G#",
        9 => "A",
        10 => "A#",
        _ => "B",
    };
    proof {
        reveal_strlit("C");
        reveal_strlit("C#");
        reveal_strlit("D");
        reveal_strlit("D#");
        reveal_strlit("E");
        reveal_strlit("F");
        reveal_strlit("F#");
        reveal_strlit("G");
        reveal_strlit("G#");
        reveal_strlit("A");
        reveal_strlit("A#");
        reveal_strlit("B");
        assert(base@ =~= note_name_chars(num as int % 12));
    }
    let mut s = String::new();
    s.append(base);
    if num < 12 {
        s.append("-1");
        proof {
            reveal_strlit("-1");
            assert(s@ =~= spec_note_name(num));
        }
    } else {
        let digits = dec_string(num / 12 - 1);
        s.append(digits.as_str());
        proof {
            assert(s@ =~= spec_note_name(num));
        }
    }
    s
}

/// The characters a byte string denotes under Latin-1: each byte is the
/// Unicode code point of the same value.
pub open spec fn latin1_seq(s: Seq<u8>) -> Seq<char> {
    Seq::new(s.len(), |i: int| s[i] as char)
}

/// Decode a byte string as Latin-1 text.
///
/// Relies on encoding's `ISO_8859_1` single-byte codec: its forward index
/// is the identity on code points, so decoding accepts every byte and
/// never reaches the replacement arm.
#[verifier::external_body]
pub fn latin1_decode(s: &[u8]) -> (r: String)
    ensures
        r@ == latin1_seq(s@),
{
    match ISO_8859_1.decode(s, DecoderTrap::Replace) {
        Ok(text) => text,
        // unreachable: the Latin-1 decoder accepts every byte sequence
        Err(_) => String::new(),
    }
}

/// An error from the byte source: it ran out of bytes before a read was
/// satisfied.
#[derive(Debug, Clone, Copy, PartialEq, Eq, Structural)]
pub enum ReadError {
    UnexpectedEnd,
}

/// An in-memory byte stream with a read position.  Parsing consumes it
/// from front to back; the caller loads it with the file's bytes.
pub struct ByteSource {
    pub data: Vec<u8>,
    pub pos: usize,
}

impl ByteSource {
    /// The bytes not yet consumed.
    pub open spec fn remaining(&self) -> Seq<u8> {
        self.data@.skip(self.pos as int)
    }

    pub open spec fn remaining_len(&self) -> int {
        self.data@.len() - self.pos
    }

    /// Well-formed when the position has not run past the end.
    pub open spec fn wf(&self) -> bool {
        self.pos <= self.data@.len()
    }

    pub fn new(data: Vec<u8>) -> (r: ByteSource)
        ensures
            r.data@ == data@,
            r.pos == 0,
            r.wf(),
    {
        ByteSource { data, pos: 0 }
    }
}

/// Read a single byte from the source.
pub fn read_byte(reader: &mut ByteSource) -> (r: Result<u8, ReadError>)
    ensures
        final(reader).data@ == old(reader).data@,
        old(reader).pos < old(reader).data@.len() ==> {
            &&& r == Ok::<u8, ReadError>(old(reader).data@[old(reader).pos as int])
            &&& final(reader).pos == old(reader).pos + 1
        },
        old(reader).pos >= old(reader).data@.len() ==> {
            &&& r == Err::<u8, ReadError>(ReadError::UnexpectedEnd)
            &&& final(reader).pos == old(reader).pos
        },
{
    if reader.pos < reader.data.len() {
        let b = reader.data[reader.pos];
        reader.pos = reader.pos + 1;
        Ok(b)
    } else {
        Err(ReadError::UnexpectedEnd)
    }
}

/// Read exactly `old(buf).len()` bytes into `buf`, replacing its contents;
/// fail without consuming anything if the source holds fewer.
pub fn fill_buf(reader: &mut ByteSource, buf: &mut Vec<u8>) -> (r: Result<(), ReadError>)
    requires
        old(reader).wf(),
    ensures
        final(reader).data@ == old(reader).data@,
        final(reader).wf(),
        old(reader).remaining_len() >= old(buf)@.len() ==> {
            &&& r == Ok::<(), ReadError>(())
            &&& final(reader).pos == old(reader).pos + old(buf)@.len()
            &&& final(buf)@ == old(reader).remaining().take(old(buf)@.len() as int)
        },
        old(reader).remaining_len() < old(buf)@.len() ==> {
            &&& r == Err::<(), ReadError>(ReadError::UnexpectedEnd)
            &&& final(reader).pos == old(reader).pos
            &&& final(buf)@ == old(buf)@
        },
{
    let n = buf.len();
    let total = reader.data.len();
    if total - reader.pos < n {
        return Err(ReadError::UnexpectedEnd);
    }
    let mut i: usize = 0;
    while i < n
        invariant
            i <= n,
            n == old(buf)@.len(),
            buf@.len() == n,
            reader.data@ == old(reader).data@,
            reader.pos == old(reader).pos,
            total == reader.data@.len(),
            reader.pos + n <= total,
            forall|j: int| 0 <= j < i ==> buf@[j] == reader.data@[reader.pos + j],
            forall|j: int| i <= j < n ==> buf@[j] == old(buf)@[j],
        decreases n - i,
    {
        let b = reader.data[reader.pos + i];
        buf.set(i, b);
        i = i + 1;
    }
    reader.pos = reader.pos + n;
    proof {
        assert(buf@ =~= old(reader).remaining().take(n as int));
    }
    Ok(())
}

/// Append exactly `amt` bytes from the source to `dest`; fail without
/// consuming anything if the source holds fewer.
pub fn read_amount(reader: &mut ByteSource, dest: &mut Vec<u8>, amt: usize) -> (r: Result<
    (),
    ReadError,
>)
    requires
        old(reader).wf(),
        old(dest)@.len() + amt <= usize::MAX,
    ensures
        final(reader).data@ == old(reader).data@,
        final(reader).wf(),
        old(reader).remaining_len() >= amt ==> {
            &&& r == Ok::<(), ReadError>(())
            &&& final(reader).pos == old(reader).pos + amt
            &&& final(dest)@ == old(dest)@ + old(reader).remaining().take(amt as int)
        },
        old(reader).remaining_len() < amt ==> {
            &&& r == Err::<(), ReadError>(ReadError::UnexpectedEnd)
            &&& final(reader).pos == old(reader).pos
            &&& final(dest)@ == old(dest)@
        },
{
    let total = reader.data.len();
    if total - reader.pos < amt {
        return Err(ReadError::UnexpectedEnd);
    }
    let mut i: usize = 0;
    while i < amt
        invariant
            i <= amt,
            reader.data@ == old(reader).data@,
            reader.pos == old(reader).pos,
            total == reader.data@.len(),
            reader.pos + amt <= total,
            dest@ == old(dest)@ + reader.remaining().take(i as int),
            old(dest)@.len() + amt <= usize::MAX,
        decreases amt - i,
    {
        let b = reader.data[reader.pos + i];
        dest.push(b);
        i = i + 1;
        proof {
            assert(dest@ =~= old(dest)@ + reader.remaining().take(i as int));
        }
    }
    reader.pos = reader.pos + amt;
    Ok(())
}

} // verus!
