//! Byte-level model of the SMF wire format: variable-length quantities,
//! big-endian integers, and the status-byte tables.
use vstd::arithmetic::power::pow;
use vstd::prelude::*;

verus! {

/// The continuation-flagged groups of a variable-length quantity: every
/// 7-bit group of `v` above the lowest one, most significant first, each
/// with the high (continuation) bit set.
pub open spec fn vlq_cont(v: nat) -> Seq<u8>
    decreases v,
{
    if v == 0 {
        Seq::empty()
    } else {
        vlq_cont(v / 128).push((v % 128 + 128) as u8)
    }
}

/// The minimal variable-length encoding of `v`: continuation groups, then
/// the lowest 7-bit group with the continuation bit clear.
pub open spec fn vlq_encode(v: nat) -> Seq<u8> {
    vlq_cont(v / 128).push((v % 128) as u8)
}

/// The value denoted by a sequence of 7-bit groups (continuation bits ignored).
pub open spec fn vlq_value(s: Seq<u8>) -> nat
    decreases s.len(),
{
    if s.len() == 0 {
        0
    } else {
        vlq_value(s.drop_last()) * 128 + (s.last() % 128) as nat
    }
}

/// A well-formed variable-length quantity: at most nine bytes, all but the
/// last flagged as continuations, the last one not.
pub open spec fn is_vlq(s: Seq<u8>) -> bool {
    &&& 1 <= s.len() <= 9
    &&& s.last() < 128
    &&& forall|i: int| 0 <= i < s.len() - 1 ==> s[i] >= 128
}

pub proof fn lemma_vlq_cont_value(v: nat)
    ensures
        vlq_value(vlq_cont(v)) == v,
    decreases v,
{
    if v > 0 {
        lemma_vlq_cont_value(v / 128);
        assert(vlq_cont(v).drop_last() == vlq_cont(v / 128));
    }
}

pub proof fn lemma_vlq_cont_len(v: nat, k: nat)
    requires
        v < pow(128, k),
    ensures
        vlq_cont(v).len() <= k,
    decreases v,
{
    reveal(pow);
    if v > 0 {
        if k == 0 {
        } else {
            assert(pow(128, k) == 128 * pow(128, (k - 1) as nat));
            lemma_vlq_cont_len(v / 128, (k - 1) as nat);
        }
    }
}

pub proof fn lemma_vlq_cont_is_cont(v: nat)
    ensures
        forall|i: int| 0 <= i < vlq_cont(v).len() ==> vlq_cont(v)[i] >= 128,
    decreases v,
{
    if v > 0 {
        lemma_vlq_cont_is_cont(v / 128);
        let s = vlq_cont(v);
        assert forall|i: int| 0 <= i < s.len() implies s[i] >= 128 by {
            if i < s.len() - 1 {
                assert(s[i] == vlq_cont(v / 128)[i]);
            } else {
                assert(s[i] == (v % 128 + 128) as u8);
            }
        }
    }
}

/// One step of reading a variable-length quantity: at most `fuel` more
/// bytes may be read, `acc` holds the groups already absorbed.  Yields the
/// value and the number of bytes consumed.
pub open spec fn parse_vlq_rec(s: Seq<u8>, acc: nat, fuel: nat) -> Option<(nat, int)>
    decreases fuel,
{
    if fuel == 0 || s.len() == 0 {
        None
    } else {
        let b = s[0];
        let acc2 = acc * 128 + (b % 128) as nat;
        if b < 128 {
            Some((acc2, 1))
        } else {
            match parse_vlq_rec(s.drop_first(), acc2, (fuel - 1) as nat) {
                None => None,
                Some((v, n)) => Some((v, n + 1)),
            }
        }
    }
}

/// Read one variable-length quantity from the front of `s`, giving up after
/// nine continuation-flagged bytes.
pub open spec fn parse_vlq(s: Seq<u8>) -> Option<(nat, int)> {
    parse_vlq_rec(s, 0, 9)
}

pub proof fn lemma_parse_vlq_rec_bound(s: Seq<u8>, acc: nat, fuel: nat)
    ensures
        match parse_vlq_rec(s, acc, fuel) {
            Some((v, n)) => v < (acc + 1) * pow(128, fuel) && 1 <= n <= fuel && n <= s.len(),
            None => true,
        },
    decreases fuel,
{
    if fuel > 0 && s.len() > 0 {
        let b = s[0];
        let acc2 = acc * 128 + (b % 128) as nat;
        let p1 = pow(128, (fuel - 1) as nat);
        vstd::arithmetic::power::lemma_pow_positive(128, (fuel - 1) as nat);
        assert(pow(128, fuel) == 128 * p1) by {
            reveal(pow);
        }
        if b < 128 {
            assert(acc2 < (acc + 1) * 128);
            assert((acc + 1) * 128 <= (acc + 1) * (128 * p1)) by (nonlinear_arith)
                requires
                    p1 >= 1,
                    acc >= 0,
            ;
        } else {
            lemma_parse_vlq_rec_bound(s.drop_first(), acc2, (fuel - 1) as nat);
            if parse_vlq_rec(s.drop_first(), acc2, (fuel - 1) as nat) is Some {
                let (v, n) = parse_vlq_rec(s.drop_first(), acc2, (fuel - 1) as nat)->Some_0;
                assert(v < (acc2 + 1) * p1);
                assert(acc2 + 1 <= (acc + 1) * 128);
                assert(v < (acc + 1) * (128 * p1)) by (nonlinear_arith)
                    requires
                        v < (acc2 + 1) * p1,
                        acc2 + 1 <= (acc + 1) * 128,
                        p1 >= 1,
                ;
            }
        }
    }
}

/// A successfully parsed variable-length quantity is a value below `2^63`
/// that consumed between one and nine bytes.
pub proof fn lemma_parse_vlq_bound(s: Seq<u8>)
    ensures
        match parse_vlq(s) {
            Some((v, n)) => v < 0x8000_0000_0000_0000 && 1 <= n <= 9 && n <= s.len(),
            None => true,
        },
{
    lemma_parse_vlq_rec_bound(s, 0, 9);
    assert(pow(128, 9) == 0x8000_0000_0000_0000) by {
        reveal_with_fuel(pow, 10);
    }
}

/// A stream whose first nine bytes all carry the continuation flag: its
/// variable-length quantity is rejected as too long, however it goes on.
pub open spec fn vlq_overlong(s: Seq<u8>) -> bool {
    s.len() >= 9 && forall|i: int| 0 <= i < 9 ==> s[i] >= 128
}

/// The rejection law for malformed quantities: a stream that opens with
/// nine continuation-flagged bytes never yields a value, however it goes
/// on.
pub proof fn lemma_vlq_overlong_rejected(s: Seq<u8>)
    requires
        vlq_overlong(s),
    ensures
        parse_vlq(s) is None,
{
    lemma_parse_vlq_rec_none(s, 0, 9);
}

/// If none of the first `fuel` available bytes terminates the quantity,
/// parsing fails.
proof fn lemma_parse_vlq_rec_none(s: Seq<u8>, acc: nat, fuel: nat)
    requires
        forall|i: int| 0 <= i < fuel && i < s.len() ==> s[i] >= 128,
    ensures
        parse_vlq_rec(s, acc, fuel) is None,
    decreases fuel,
{
    if fuel > 0 && s.len() > 0 {
        let b = s[0];
        let acc2 = acc * 128 + (b % 128) as nat;
        assert(forall|i: int|
            0 <= i < fuel - 1 && i < s.drop_first().len() ==> s.drop_first()[i] >= 128);
        lemma_parse_vlq_rec_none(s.drop_first(), acc2, (fuel - 1) as nat);
    }
}

/// Front decomposition of the value of a group sequence.
proof fn lemma_vlq_value_front(s: Seq<u8>)
    requires
        s.len() >= 1,
    ensures
        vlq_value(s) == (s[0] % 128) * pow(128, (s.len() - 1) as nat) + vlq_value(s.drop_first()),
    decreases s.len(),
{
    if s.len() == 1 {
        assert(s.drop_last() =~= Seq::<u8>::empty());
        assert(s.drop_first() =~= Seq::<u8>::empty());
        assert(pow(128, 0) == 1) by {
            reveal(pow);
        }
    } else {
        lemma_vlq_value_front(s.drop_last());
        let r = (s[0] % 128) as nat;
        let q = pow(128, (s.len() - 2) as nat);
        let m = vlq_value(s.drop_last().drop_first());
        assert(s.drop_last()[0] == s[0]);
        assert(s.drop_last().drop_first() =~= s.drop_first().drop_last());
        assert(s.drop_first().last() == s.last());
        assert(vlq_value(s) == vlq_value(s.drop_last()) * 128 + (s.last() % 128) as nat);
        assert(vlq_value(s.drop_last()) == r * q + m);
        assert(vlq_value(s.drop_first()) == m * 128 + (s.last() % 128) as nat);
        assert(pow(128, (s.len() - 1) as nat) == 128 * q) by {
            reveal(pow);
        }
        assert((r * q + m) * 128 == r * (128 * q) + m * 128) by (nonlinear_arith);
    }
}

/// Parsing a well-formed quantity at the front of a stream consumes exactly
/// its bytes and yields its value.
pub proof fn lemma_parse_vlq_exact(s: Seq<u8>, rest: Seq<u8>)
    requires
        is_vlq(s),
    ensures
        parse_vlq(s + rest) == Some((vlq_value(s), s.len() as int)),
{
    lemma_parse_vlq_rec_exact(s, rest, 0, 9);
    lemma_vlq_value_zero_acc(s);
}

proof fn lemma_vlq_value_zero_acc(s: Seq<u8>)
    ensures
        0 * pow(128, s.len()) + vlq_value(s) == vlq_value(s),
{
}

proof fn lemma_parse_vlq_rec_exact(s: Seq<u8>, rest: Seq<u8>, acc: nat, fuel: nat)
    requires
        1 <= s.len() <= fuel,
        s.last() < 128,
        forall|i: int| 0 <= i < s.len() - 1 ==> s[i] >= 128,
    ensures
        parse_vlq_rec(s + rest, acc, fuel) == Some(
            ((acc * pow(128, s.len() as nat) + vlq_value(s)) as nat, s.len() as int),
        ),
    decreases s.len(),
{
    let whole = s + rest;
    assert(whole[0] == s[0]);
    let b = s[0];
    let acc2 = acc * 128 + (b % 128) as nat;
    if s.len() == 1 {
        assert(b < 128);
        assert(vlq_value(s) == (b % 128) as nat) by {
            assert(s.drop_last() =~= Seq::<u8>::empty());
            assert(vlq_value(Seq::<u8>::empty()) == 0);
        }
        assert(pow(128, 1) == 128 * pow(128, 0) && pow(128, 0) == 1) by {
            reveal(pow);
        }
        assert(parse_vlq_rec(whole, acc, fuel) == Some((acc2, 1int)));
    } else {
        assert(b >= 128);
        assert(whole.drop_first() =~= s.drop_first() + rest);
        assert(s.drop_first().last() == s.last());
        assert(forall|i: int| 0 <= i < s.drop_first().len() - 1 ==> s.drop_first()[i] >= 128);
        lemma_parse_vlq_rec_exact(s.drop_first(), rest, acc2, (fuel - 1) as nat);
        lemma_vlq_value_front(s);
        let p1 = pow(128, (s.len() - 1) as nat);
        assert(pow(128, s.len() as nat) == 128 * p1) by {
            reveal(pow);
        }
        assert(acc2 * p1 == acc * (128 * p1) + ((b % 128) as nat) * p1) by (nonlinear_arith)
            requires
                acc2 == acc * 128 + (b % 128) as nat,
        ;
    }
}

/// The number of data bytes that follow a status byte: `-2` marks a
/// system-exclusive message (read until the terminator), `-3` an
/// unrecognized status.
pub open spec fn status_data_bytes(status: u8) -> int {
    if status < 0x80 {
        -3
    } else if status < 0xC0 {
        2
    } else if status < 0xE0 {
        1
    } else if status < 0xF0 {
        2
    } else if status == 0xF0 {
        -2
    } else if status == 0xF1 || status == 0xF3 {
        1
    } else if status == 0xF2 {
        2
    } else if status == 0xF4 || status == 0xF5 || status == 0xF9 || status == 0xFD {
        -3
    } else {
        0
    }
}

/// A status byte whose message kind is known.
pub open spec fn is_valid_status(b: u8) -> bool {
    status_data_bytes(b) != -3
}

/// A status byte that carries a channel in its low nibble.
pub open spec fn is_channel_status(b: u8) -> bool {
    0x80 <= b < 0xF0
}

/// Index of the first system-exclusive terminator byte in `s`.
pub open spec fn first_sysex_end(s: Seq<u8>) -> Option<int>
    decreases s.len(),
{
    if s.len() == 0 {
        None
    } else if s[0] == 0xF7 {
        Some(0)
    } else {
        match first_sysex_end(s.drop_first()) {
            None => None,
            Some(i) => Some(i + 1),
        }
    }
}

pub proof fn lemma_first_sysex_end(s: Seq<u8>)
    ensures
        match first_sysex_end(s) {
            Some(i) => 0 <= i < s.len() && s[i] == 0xF7 && forall|j: int| 0 <= j < i ==> s[j]
                != 0xF7,
            None => forall|j: int| 0 <= j < s.len() ==> s[j] != 0xF7,
        },
    decreases s.len(),
{
    if s.len() > 0 && s[0] != 0xF7 {
        lemma_first_sysex_end(s.drop_first());
        match first_sysex_end(s.drop_first()) {
            Some(i) => {
                assert forall|j: int| 0 <= j < i + 1 implies s[j] != 0xF7 by {
                    if j > 0 {
                        assert(s[j] == s.drop_first()[j - 1]);
                    }
                }
            },
            None => {
                assert forall|j: int| 0 <= j < s.len() implies s[j] != 0xF7 by {
                    if j > 0 {
                        assert(s[j] == s.drop_first()[j - 1]);
                    }
                }
            },
        }
    }
}

/// The wire form of a message read after the status byte `stat`: the bytes
/// taken from `s` together with how many of them were consumed.
pub open spec fn parse_msg_given(stat: u8, s: Seq<u8>) -> Option<(Seq<u8>, int)> {
    let n = status_data_bytes(stat);
    if n == -3 {
        None
    } else if n >= 0 {
        if s.len() >= n {
            Some((seq![stat] + s.take(n), n))
        } else {
            None
        }
    } else {
        match first_sysex_end(s) {
            None => None,
            Some(i) => Some((seq![stat] + s.take(i + 1), i + 1)),
        }
    }
}

/// The wire form of a running-status message: the elided status `stat` is
/// prepended, `db` was already read in place of a status byte.
pub open spec fn parse_msg_running(stat: u8, db: u8, s: Seq<u8>) -> Option<(Seq<u8>, int)> {
    let n = status_data_bytes(stat);
    if n == 1 {
        Some((seq![stat, db], 0))
    } else if n == 2 {
        if s.len() >= 1 {
            Some((seq![stat, db, s[0]], 1))
        } else {
            None
        }
    } else {
        None
    }
}

/// The value of a big-endian byte string.
pub open spec fn be_value(s: Seq<u8>) -> nat
    decreases s.len(),
{
    if s.len() == 0 {
        0
    } else {
        be_value(s.drop_last()) * 256 + s.last() as nat
    }
}

/// The two big-endian bytes of a 16-bit value.
pub open spec fn be16(v: u16) -> Seq<u8> {
    seq![(v / 256) as u8, (v % 256) as u8]
}

/// The four big-endian bytes of a 32-bit value.
pub open spec fn be32(v: u32) -> Seq<u8> {
    seq![
        (v / 0x100_0000) as u8,
        (v / 0x1_0000 % 256) as u8,
        (v / 256 % 256) as u8,
        (v % 256) as u8,
    ]
}

/// The encoding of any value below `2^63` is a well-formed quantity of at
/// most nine bytes, and decoding it restores the value.
pub proof fn lemma_vlq_round_trip(v: nat)
    requires
        v < 0x8000_0000_0000_0000,
    ensures
        is_vlq(vlq_encode(v)),
        vlq_encode(v).len() <= 9,
        vlq_value(vlq_encode(v)) == v,
        parse_vlq(vlq_encode(v)) == Some((v, vlq_encode(v).len() as int)),
{
    let e = vlq_encode(v);
    assert(pow(128, 8) == 0x100_0000_0000_0000) by {
        reveal_with_fuel(pow, 9);
    }
    lemma_vlq_cont_len(v / 128, 8);
    lemma_vlq_cont_is_cont(v / 128);
    lemma_vlq_cont_value(v / 128);
    assert(e.drop_last() == vlq_cont(v / 128));
    assert(vlq_value(e) == vlq_value(vlq_cont(v / 128)) * 128 + v % 128);
    lemma_parse_vlq_exact(e, Seq::<u8>::empty());
    assert(e + Seq::<u8>::empty() =~= e);
}

/// Big-endian accumulation into a 64-bit register, high bytes falling
/// out on the left.
pub open spec fn be_trunc64(s: Seq<u8>) -> u64
    decreases s.len(),
{
    if s.len() == 0 {
        0
    } else {
        (be_trunc64(s.drop_last()) << 8) | (s.last() as u64)
    }
}

/// The ghost shape of a meta event.
#[verifier::ext_equal]
pub ghost struct MetaEventV {
    pub command: crate::meta::MetaCommand,
    pub length: u64,
    pub data: Seq<u8>,
}

/// The ghost shape of a track event's payload.
#[verifier::ext_equal]
pub ghost enum EventV {
    Midi(Seq<u8>),
    Meta(MetaEventV),
}

/// The ghost shape of a delta-timed event.
#[verifier::ext_equal]
pub ghost struct TrackEventV {
    pub vtime: u64,
    pub event: EventV,
}

/// The ghost shape of a track.
#[verifier::ext_equal]
pub ghost struct TrackV {
    pub copyright: Option<Seq<char>>,
    pub name: Option<Seq<char>>,
    pub events: Seq<TrackEventV>,
}

/// The ghost shape of a whole file.
#[verifier::ext_equal]
pub ghost struct SMFV {
    pub format: crate::SMFFormat,
    pub tracks: Seq<TrackV>,
    pub division: i16,
}

/// Read one meta event (after its `0xFF` marker): a command byte, a
/// variable-length payload length, then exactly that many payload bytes.
pub open spec fn parse_meta(s: Seq<u8>) -> Option<(MetaEventV, int)> {
    if s.len() < 1 {
        None
    } else {
        match parse_vlq(s.drop_first()) {
            None => None,
            Some((len, n)) => if s.len() >= 1 + n + len {
                Some(
                    (
                        MetaEventV {
                            command: crate::meta::meta_command_of(s[0]),
                            length: len as u64,
                            data: s.subrange(1 + n, 1 + n + len),
                        },
                        1 + n + len,
                    ),
                )
            } else {
                None
            },
        }
    }
}

/// Read one delta-timed event given the running status `rs`: a
/// variable-length delta, then a meta event, an announced message, or a
/// running-status message.  Yields the event, the bytes consumed, and
/// the running status for the next event.
pub open spec fn parse_track_event(rs: u8, s: Seq<u8>) -> Option<(TrackEventV, int, u8)> {
    match parse_vlq(s) {
        None => None,
        Some((t, nv)) => {
            let rest = s.skip(nv);
            if rest.len() == 0 {
                None
            } else {
                let b = rest[0];
                if b == 0xFF {
                    match parse_meta(rest.drop_first()) {
                        None => None,
                        Some((m, nm)) => Some(
                            (
                                TrackEventV { vtime: t as u64, event: EventV::Meta(m) },
                                nv + 1 + nm,
                                rs,
                            ),
                        ),
                    }
                } else if b >= 0x80 {
                    match parse_msg_given(b, rest.drop_first()) {
                        None => None,
                        Some((d, nm)) => Some(
                            (
                                TrackEventV { vtime: t as u64, event: EventV::Midi(d) },
                                nv + 1 + nm,
                                b,
                            ),
                        ),
                    }
                } else {
                    match parse_msg_running(rs, b, rest.drop_first()) {
                        None => None,
                        Some((d, nm)) => Some(
                            (
                                TrackEventV { vtime: t as u64, event: EventV::Midi(d) },
                                nv + 1 + nm,
                                rs,
                            ),
                        ),
                    }
                }
            }
        },
    }
}

/// Read events until exactly `left` bytes have been consumed; at least
/// one event is always read, and overshooting the declared byte count
/// fails.
pub open spec fn parse_events(rs: u8, s: Seq<u8>, left: int) -> Option<Seq<TrackEventV>>
    decreases left,
{
    if left <= 0 {
        None
    } else {
        match parse_track_event(rs, s) {
            None => None,
            Some((te, c, rs2)) => {
                if c <= 0 {
                    None
                } else if c == left {
                    Some(seq![te])
                } else if c > left {
                    None
                } else {
                    match parse_events(rs2, s.skip(c), left - c) {
                        None => None,
                        Some(rest) => Some(seq![te] + rest),
                    }
                }
            },
        }
    }
}

/// The text of the first copyright notice among the events, if any.
pub open spec fn first_copyright(evs: Seq<TrackEventV>) -> Option<Seq<char>>
    decreases evs.len(),
{
    if evs.len() == 0 {
        None
    } else {
        match evs[0].event {
            EventV::Meta(m) => if m.command == crate::meta::MetaCommand::CopyrightNotice {
                Some(crate::util::latin1_seq(m.data))
            } else {
                first_copyright(evs.drop_first())
            },
            EventV::Midi(_) => first_copyright(evs.drop_first()),
        }
    }
}

/// The text of the first sequence-or-track-name event, if any.
pub open spec fn first_name(evs: Seq<TrackEventV>) -> Option<Seq<char>>
    decreases evs.len(),
{
    if evs.len() == 0 {
        None
    } else {
        match evs[0].event {
            EventV::Meta(m) => if m.command == crate::meta::MetaCommand::SequenceOrTrackName {
                Some(crate::util::latin1_seq(m.data))
            } else {
                first_name(evs.drop_first())
            },
            EventV::Midi(_) => first_name(evs.drop_first()),
        }
    }
}

pub open spec fn mtrk_magic() -> Seq<u8> {
    seq![0x4Du8, 0x54u8, 0x72u8, 0x6Bu8]
}

pub open spec fn mthd_magic() -> Seq<u8> {
    seq![0x4Du8, 0x54u8, 0x68u8, 0x64u8]
}

/// Read one track chunk: the magic, a four-byte big-endian length, then
/// exactly that many bytes of events.  The first copyright and name
/// events seen are captured as the track's copyright and name.
pub open spec fn parse_track(s: Seq<u8>) -> Option<(TrackV, int)> {
    if s.len() < 8 {
        None
    } else if s.subrange(0, 4) != mtrk_magic() {
        None
    } else {
        let len = be_value(s.subrange(4, 8)) as int;
        match parse_events(0, s.skip(8), len) {
            None => None,
            Some(evs) => Some(
                (
                    TrackV {
                        copyright: first_copyright(evs),
                        name: first_name(evs),
                        events: evs,
                    },
                    8 + len,
                ),
            ),
        }
    }
}

/// A stream that opens with a RIFF wrapper, whose first twenty bytes are
/// skipped before the header chunk is read.
pub open spec fn riff_prefix(s: Seq<u8>) -> bool {
    s.len() >= 4 && s[0] == 0x52 && s[1] == 0x49 && s[2] == 0x46 && s[3] == 0x46
}

pub open spec fn format_code(f: crate::SMFFormat) -> u16 {
    match f {
        crate::SMFFormat::Single => 0,
        crate::SMFFormat::MultiTrack => 1,
        crate::SMFFormat::MultiSong => 2,
    }
}

pub open spec fn format_of_byte(b: u8) -> Option<crate::SMFFormat> {
    if b == 0 {
        Some(crate::SMFFormat::Single)
    } else if b == 1 {
        Some(crate::SMFFormat::MultiTrack)
    } else if b == 2 {
        Some(crate::SMFFormat::MultiSong)
    } else {
        None
    }
}

/// Read the fourteen header bytes that must sit at the front of `s`:
/// the magic, a length field that is consumed but not gated on, the
/// format byte, the track count and the division.
pub open spec fn parse_header_at(s: Seq<u8>) -> Option<(crate::SMFFormat, u16, i16)> {
    if s.len() < 14 {
        None
    } else if s.subrange(0, 4) != mthd_magic() {
        None
    } else {
        match format_of_byte(s[9]) {
            None => None,
            Some(f) => Some(
                (
                    f,
                    (s[10] as u16 * 256 + s[11] as u16) as u16,
                    (s[12] as u16 * 256 + s[13] as u16) as i16,
                ),
            ),
        }
    }
}

/// Read `n` track chunks one after the other.
pub open spec fn parse_tracks(s: Seq<u8>, n: nat) -> Option<Seq<TrackV>>
    decreases n,
{
    if n == 0 {
        Some(Seq::empty())
    } else {
        match parse_track(s) {
            None => None,
            Some((t, c)) => match parse_tracks(s.skip(c), (n - 1) as nat) {
                None => None,
                Some(ts) => Some(seq![t] + ts),
            },
        }
    }
}

/// Read a whole file: an optional RIFF wrapper, the header chunk, then
/// as many tracks as the header declares.
pub open spec fn parse_smf(s: Seq<u8>) -> Option<SMFV> {
    if riff_prefix(s) && s.len() < 20 {
        None
    } else {
        let s1 = if riff_prefix(s) {
            s.skip(20)
        } else {
            s
        };
        match parse_header_at(s1) {
            None => None,
            Some((f, n, d)) => match parse_tracks(s1.skip(14), n as nat) {
                None => None,
                Some(ts) => Some(SMFV { format: f, tracks: ts, division: d }),
            },
        }
    }
}

/// The wire form of a meta event: the marker, the command byte, the
/// variable-length payload length, then the payload.
pub open spec fn encode_meta(m: MetaEventV) -> Seq<u8> {
    seq![0xFFu8, crate::meta::meta_command_code(m.command)] + vlq_encode(m.length as nat) + m.data
}

/// The wire form of an event: a midi message is its own bytes.
pub open spec fn encode_event(e: EventV) -> Seq<u8> {
    match e {
        EventV::Midi(d) => d,
        EventV::Meta(m) => encode_meta(m),
    }
}

/// The wire form of a delta-timed event.
pub open spec fn encode_track_event(te: TrackEventV) -> Seq<u8> {
    vlq_encode(te.vtime as nat) + encode_event(te.event)
}

pub open spec fn encode_events(evs: Seq<TrackEventV>) -> Seq<u8>
    decreases evs.len(),
{
    if evs.len() == 0 {
        Seq::empty()
    } else {
        encode_track_event(evs[0]) + encode_events(evs.drop_first())
    }
}

/// An end-of-track marker event.
pub open spec fn is_eot(te: TrackEventV) -> bool {
    te.event matches EventV::Meta(m) && m.command == crate::meta::MetaCommand::EndOfTrack
}

pub open spec fn has_eot(evs: Seq<TrackEventV>) -> bool {
    exists|i: int| 0 <= i < evs.len() && is_eot(evs[i])
}

/// The wire form of the end-of-track marker that writing appends when a
/// track lacks one: zero delta, the meta marker, the end-of-track
/// command, zero length.
pub open spec fn eot_bytes() -> Seq<u8> {
    seq![0x00u8, 0xFFu8, 0x2Fu8, 0x00u8]
}

/// The byte stream a track's events are written as: the events in order,
/// with an end-of-track marker appended when none is present.
pub open spec fn track_body(evs: Seq<TrackEventV>) -> Seq<u8> {
    if has_eot(evs) {
        encode_events(evs)
    } else {
        encode_events(evs) + eot_bytes()
    }
}

/// The wire form of a track chunk: magic, the body's exact byte count
/// big-endian, then the body.
pub open spec fn encode_track(evs: Seq<TrackEventV>) -> Seq<u8> {
    mtrk_magic() + be32(track_body(evs).len() as u32) + track_body(evs)
}

/// The wire form of the header chunk.
pub open spec fn encode_header(format: u16, ntracks: u16, division: i16) -> Seq<u8> {
    mthd_magic() + be32(6) + be16(format) + be16(ntracks) + be16(division as u16)
}

/// A midi message that writing and re-parsing preserves: it announces a
/// known kind other than the meta marker, and its payload has exactly the
/// shape that kind dictates on the wire.
pub open spec fn midi_wf(d: Seq<u8>) -> bool {
    &&& d.len() >= 1
    &&& d[0] != 0xFF
    &&& status_data_bytes(d[0]) != -3
    &&& (status_data_bytes(d[0]) >= 0 ==> d.len() == status_data_bytes(d[0]) + 1)
    &&& (status_data_bytes(d[0]) == -2 ==> {
        &&& d.len() >= 2
        &&& d.last() == 0xF7
        &&& forall|i: int| 1 <= i < d.len() - 1 ==> d[i] != 0xF7
    })
}

/// A meta event whose declared length matches its payload and fits a
/// nine-byte variable-length field.
pub open spec fn meta_wf(m: MetaEventV) -> bool {
    &&& m.length == m.data.len()
    &&& m.data.len() < 0x8000_0000_0000_0000
}

/// A delta-timed event that writing and re-parsing preserves.
pub open spec fn track_event_wf(te: TrackEventV) -> bool {
    &&& te.vtime < 0x8000_0000_0000_0000
    &&& match te.event {
        EventV::Midi(d) => midi_wf(d),
        EventV::Meta(m) => meta_wf(m),
    }
}

pub open spec fn track_wf(evs: Seq<TrackEventV>) -> bool {
    forall|i: int| 0 <= i < evs.len() ==> track_event_wf(#[trigger] evs[i])
}

/// The end-of-track marker event that writing appends when a track lacks
/// one.
pub open spec fn eot_event() -> TrackEventV {
    TrackEventV {
        vtime: 0,
        event: EventV::Meta(
            MetaEventV {
                command: crate::meta::MetaCommand::EndOfTrack,
                length: 0,
                data: Seq::empty(),
            },
        ),
    }
}

/// The events a written track parses back to: the events themselves, with
/// the appended end-of-track marker when they carry none.
pub open spec fn written_events(evs: Seq<TrackEventV>) -> Seq<TrackEventV> {
    if has_eot(evs) {
        evs
    } else {
        evs.push(eot_event())
    }
}

/// A list of byte strings laid end to end.
pub open spec fn concat_bytes(ts: Seq<Seq<u8>>) -> Seq<u8>
    decreases ts.len(),
{
    if ts.len() == 0 {
        Seq::empty()
    } else {
        ts[0] + concat_bytes(ts.drop_first())
    }
}

pub proof fn lemma_concat_bytes_push(ts: Seq<Seq<u8>>, x: Seq<u8>)
    ensures
        concat_bytes(ts.push(x)) == concat_bytes(ts) + x,
    decreases ts.len(),
{
    if ts.len() == 0 {
        reveal_with_fuel(concat_bytes, 2);
        assert(ts.push(x).drop_first() =~= Seq::<Seq<u8>>::empty());
        assert(concat_bytes(ts.push(x)) =~= concat_bytes(ts) + x);
    } else {
        assert(ts.push(x).drop_first() =~= ts.drop_first().push(x));
        lemma_concat_bytes_push(ts.drop_first(), x);
        assert(ts.push(x)[0] == ts[0]);
        assert(ts[0] + (concat_bytes(ts.drop_first()) + x) =~= (ts[0] + concat_bytes(
            ts.drop_first(),
        )) + x);
    }
}

pub proof fn lemma_encode_events_push(evs: Seq<TrackEventV>, x: TrackEventV)
    ensures
        encode_events(evs.push(x)) == encode_events(evs) + encode_track_event(x),
    decreases evs.len(),
{
    if evs.len() == 0 {
        reveal_with_fuel(encode_events, 2);
        assert(evs.push(x).drop_first() =~= Seq::<TrackEventV>::empty());
        assert(encode_events(evs.push(x)) =~= encode_events(evs) + encode_track_event(x));
    } else {
        assert(evs.push(x).drop_first() =~= evs.drop_first().push(x));
        lemma_encode_events_push(evs.drop_first(), x);
        assert(evs.push(x)[0] == evs[0]);
        assert(encode_track_event(evs[0]) + (encode_events(evs.drop_first())
            + encode_track_event(x)) =~= (encode_track_event(evs[0]) + encode_events(
            evs.drop_first(),
        )) + encode_track_event(x));
    }
}

pub proof fn lemma_be_value4(s: Seq<u8>)
    requires
        s.len() == 4,
    ensures
        be_value(s) == s[0] * 0x100_0000 + s[1] * 0x1_0000 + s[2] * 256 + s[3],
{
    reveal_with_fuel(be_value, 5);
    let s3 = s.drop_last();
    let s2 = s3.drop_last();
    let s1 = s2.drop_last();
    let s0 = s1.drop_last();
    assert(s0 =~= Seq::<u8>::empty());
    assert(be_value(s0) == 0);
    assert(be_value(s1) == s[0]);
    assert(be_value(s2) == s[0] * 256 + s[1]);
    assert(be_value(s3) == (s[0] * 256 + s[1]) * 256 + s[2]);
    assert(be_value(s) == ((s[0] * 256 + s[1]) * 256 + s[2]) * 256 + s[3]);
}

pub proof fn lemma_first_copyright_push(evs: Seq<TrackEventV>, te: TrackEventV)
    ensures
        first_copyright(evs.push(te)) == match first_copyright(evs) {
            Some(c) => Some(c),
            None => match te.event {
                EventV::Meta(m) => if m.command == crate::meta::MetaCommand::CopyrightNotice {
                    Some(crate::util::latin1_seq(m.data))
                } else {
                    None
                },
                EventV::Midi(_) => None,
            },
        },
    decreases evs.len(),
{
    if evs.len() == 0 {
        reveal_with_fuel(first_copyright, 2);
        assert(evs.push(te)[0] == te);
        assert(evs.push(te).drop_first() =~= Seq::<TrackEventV>::empty());
    } else {
        assert(evs.push(te)[0] == evs[0]);
        assert(evs.push(te).drop_first() =~= evs.drop_first().push(te));
        lemma_first_copyright_push(evs.drop_first(), te);
    }
}

pub proof fn lemma_first_name_push(evs: Seq<TrackEventV>, te: TrackEventV)
    ensures
        first_name(evs.push(te)) == match first_name(evs) {
            Some(c) => Some(c),
            None => match te.event {
                EventV::Meta(m) => if m.command == crate::meta::MetaCommand::SequenceOrTrackName {
                    Some(crate::util::latin1_seq(m.data))
                } else {
                    None
                },
                EventV::Midi(_) => None,
            },
        },
    decreases evs.len(),
{
    if evs.len() == 0 {
        reveal_with_fuel(first_name, 2);
        assert(evs.push(te)[0] == te);
        assert(evs.push(te).drop_first() =~= Seq::<TrackEventV>::empty());
    } else {
        assert(evs.push(te)[0] == evs[0]);
        assert(evs.push(te).drop_first() =~= evs.drop_first().push(te));
        lemma_first_name_push(evs.drop_first(), te);
    }
}

pub proof fn lemma_has_eot_take_step(evs: Seq<TrackEventV>, i: int)
    requires
        0 <= i < evs.len(),
    ensures
        has_eot(evs.take(i + 1)) == (has_eot(evs.take(i)) || is_eot(evs[i])),
{
    let pre = evs.take(i);
    let cur = evs.take(i + 1);
    assert(cur =~= pre.push(evs[i]));
    if has_eot(pre) {
        let j = choose|j: int| 0 <= j < pre.len() && is_eot(pre[j]);
        assert(is_eot(cur[j]));
    }
    if is_eot(evs[i]) {
        assert(is_eot(cur[i]));
    }
    if has_eot(cur) {
        let j = choose|j: int| 0 <= j < cur.len() && is_eot(cur[j]);
        if j < i {
            assert(is_eot(pre[j]));
        }
    }
}

proof fn lemma_first_sysex_end_at(s: Seq<u8>, i: int)
    requires
        0 <= i < s.len(),
        s[i] == 0xF7,
        forall|j: int| 0 <= j < i ==> s[j] != 0xF7,
    ensures
        first_sysex_end(s) == Some(i),
{
    lemma_first_sysex_end(s);
    match first_sysex_end(s) {
        Some(k) => {
            if k < i {
                assert(s[k] != 0xF7);
            }
            if k > i {
                assert(s[i] != 0xF7);
            }
        },
        None => {
            assert(s[i] != 0xF7);
        },
    }
}

/// The four big-endian bytes of a 32-bit value denote that value.
pub proof fn lemma_be32_value(x: u32)
    ensures
        be_value(be32(x)) == x,
{
    lemma_be_value4(be32(x));
    assert(x / 0x100_0000 * 0x100_0000 + x / 0x1_0000 % 256 * 0x1_0000 + x / 256 % 256 * 256 + x
        % 256 == x) by (bit_vector);
}

/// One well-formed event at the front of a stream parses back exactly,
/// consuming exactly its own wire bytes.
pub proof fn lemma_parse_event_exact(te: TrackEventV, rs: u8, rest: Seq<u8>)
    requires
        track_event_wf(te),
    ensures
        parse_track_event(rs, encode_track_event(te) + rest) == Some(
            (
                te,
                encode_track_event(te).len() as int,
                match te.event {
                    EventV::Midi(d) => d[0],
                    EventV::Meta(_) => rs,
                },
            ),
        ),
        encode_track_event(te).len() >= 1,
{
    let tail = encode_event(te.event) + rest;
    let whole = encode_track_event(te) + rest;
    let venc = vlq_encode(te.vtime as nat);
    assert(whole =~= venc + tail);
    lemma_vlq_round_trip(te.vtime as nat);
    lemma_parse_vlq_exact(venc, tail);
    let nv = venc.len() as int;
    assert(parse_vlq(whole) == Some((te.vtime as nat, nv)));
    assert(whole.skip(nv) =~= tail);
    match te.event {
        EventV::Meta(m) => {
            let lenc = vlq_encode(m.length as nat);
            assert(tail[0] == 0xFF);
            let after = tail.drop_first();
            assert(after =~= seq![crate::meta::meta_command_code(m.command)] + lenc + m.data
                + rest);
            let inner = after.drop_first();
            assert(inner =~= lenc + (m.data + rest));
            lemma_vlq_round_trip(m.length as nat);
            lemma_parse_vlq_exact(lenc, m.data + rest);
            let n = lenc.len() as int;
            assert(parse_vlq(inner) == Some((m.length as nat, n)));
            assert(after.len() >= 1 + n + m.length);
            assert(after.subrange(1 + n, 1 + n + m.length as int) =~= m.data);
            assert(crate::meta::meta_command_of(crate::meta::meta_command_code(m.command))
                == m.command);
            assert(parse_meta(after) == Some((m, 1 + n + m.length as int)));
            assert(encode_track_event(te).len() == nv + 1 + (1 + n + m.length));
        },
        EventV::Midi(d) => {
            let b = d[0];
            assert(tail =~= d + rest);
            assert(tail[0] == b);
            let after = tail.drop_first();
            assert(after =~= d.drop_first() + rest);
            assert(b >= 0x80);
            let n = status_data_bytes(b);
            if n >= 0 {
                assert(after.len() >= n);
                assert(seq![b] + after.take(n) =~= d);
                assert(parse_msg_given(b, after) == Some((d, n)));
            } else {
                let i = d.len() - 2;
                assert(after[i] == d.last());
                assert(forall|j: int| 0 <= j < i ==> after[j] == d[j + 1]);
                lemma_first_sysex_end_at(after, i);
                assert(seq![b] + after.take(i + 1) =~= d);
                assert(parse_msg_given(b, after) == Some((d, i + 1)));
            }
            assert(encode_track_event(te).len() == nv + d.len());
        },
    }
}

/// A written event stream parses back to exactly the events it was
/// written from, whatever bytes follow it.
pub proof fn lemma_parse_events_exact(evs: Seq<TrackEventV>, rs: u8, rest: Seq<u8>)
    requires
        track_wf(evs),
        evs.len() >= 1,
    ensures
        parse_events(rs, encode_events(evs) + rest, encode_events(evs).len() as int) == Some(evs),
    decreases evs.len(),
{
    let e0 = evs[0];
    let tail = evs.drop_first();
    let enc0 = encode_track_event(e0);
    let whole = encode_events(evs) + rest;
    assert(encode_events(evs) == enc0 + encode_events(tail));
    assert(whole =~= enc0 + (encode_events(tail) + rest));
    lemma_parse_event_exact(e0, rs, encode_events(tail) + rest);
    let c0 = enc0.len() as int;
    let left = encode_events(evs).len() as int;
    let rs2 = match e0.event {
        EventV::Midi(d) => d[0],
        EventV::Meta(_) => rs,
    };
    assert(parse_track_event(rs, whole) == Some((e0, c0, rs2)));
    if tail.len() == 0 {
        assert(encode_events(tail) =~= Seq::<u8>::empty());
        assert(c0 == left);
        assert(seq![e0] =~= evs);
    } else {
        assert(track_event_wf(tail[0]));
        assert(encode_track_event(tail[0]).len() >= 1) by {
            lemma_parse_event_exact(tail[0], rs2, Seq::empty());
        }
        assert(encode_events(tail).len() >= 1) by {
            assert(encode_events(tail) == encode_track_event(tail[0]) + encode_events(
                tail.drop_first(),
            ));
        }
        assert(c0 < left);
        assert(forall|i: int| 0 <= i < tail.len() ==> track_event_wf(#[trigger] tail[i]));
        lemma_parse_events_exact(tail, rs2, rest);
        assert(whole.skip(c0) =~= encode_events(tail) + rest);
        assert(left - c0 == encode_events(tail).len());
        assert(parse_events(rs2, whole.skip(c0), left - c0) == Some(tail));
        assert(seq![e0] + tail =~= evs);
    }
}

/// The round-trip law for one track: the length field written is the
/// exact byte count of the event stream that follows it, and parsing the
/// written chunk yields the same event list, with an end-of-track marker
/// appended when the original carried none, and the copyright and name
/// re-captured from those events.
pub proof fn lemma_track_round_trip(evs: Seq<TrackEventV>)
    requires
        track_wf(evs),
        track_body(evs).len() <= 0xFFFF_FFFF,
    ensures
        ({
            let chunk = encode_track(evs);
            let evs2 = written_events(evs);
            &&& be_value(chunk.subrange(4, 8)) == track_body(evs).len()
            &&& parse_track(chunk) == Some(
                (
                    TrackV {
                        copyright: first_copyright(evs2),
                        name: first_name(evs2),
                        events: evs2,
                    },
                    chunk.len() as int,
                ),
            )
        }),
{
    lemma_parse_track_exact(evs, Seq::empty());
    assert(encode_track(evs) + Seq::<u8>::empty() =~= encode_track(evs));
}

/// The parsed shape of a written track: its own events with the
/// end-of-track marker appended when they carry none, and the copyright
/// and name re-captured from them.
pub open spec fn written_track(evs: Seq<TrackEventV>) -> TrackV {
    let evs2 = written_events(evs);
    TrackV { copyright: first_copyright(evs2), name: first_name(evs2), events: evs2 }
}

proof fn lemma_parse_track_exact(evs: Seq<TrackEventV>, rest: Seq<u8>)
    requires
        track_wf(evs),
        track_body(evs).len() <= 0xFFFF_FFFF,
    ensures
        be_value(encode_track(evs).subrange(4, 8)) == track_body(evs).len(),
        parse_track(encode_track(evs) + rest) == Some(
            (written_track(evs), encode_track(evs).len() as int),
        ),
{
    let chunk = encode_track(evs);
    let whole = chunk + rest;
    let body = track_body(evs);
    let evs2 = written_events(evs);
    assert(chunk.subrange(0, 4) =~= mtrk_magic());
    assert(chunk.subrange(4, 8) =~= be32(body.len() as u32));
    assert(whole.subrange(0, 4) =~= mtrk_magic());
    assert(whole.subrange(4, 8) =~= be32(body.len() as u32));
    lemma_be32_value(body.len() as u32);
    assert(be_value(whole.subrange(4, 8)) == body.len());
    assert(encode_track_event(eot_event()) =~= eot_bytes()) by {
        assert(vlq_encode(0) =~= seq![0u8]);
        assert(encode_meta(eot_event().event->Meta_0) =~= seq![0xFFu8, 0x2Fu8, 0x00u8]);
    }
    if has_eot(evs) {
        assert(body == encode_events(evs2));
        assert(evs.len() >= 1) by {
            let i = choose|i: int| 0 <= i < evs.len() && is_eot(evs[i]);
        }
    } else {
        lemma_encode_events_push(evs, eot_event());
        assert(body =~= encode_events(evs2));
        assert(track_event_wf(eot_event()));
    }
    assert(track_wf(evs2));
    assert(evs2.len() >= 1);
    lemma_parse_events_exact(evs2, 0, rest);
    assert(whole.skip(8) =~= encode_events(evs2) + rest);
    assert(parse_events(0, whole.skip(8), body.len() as int) == Some(evs2));
    assert(chunk.len() == 8 + body.len());
}

proof fn lemma_parse_tracks_exact(ts: Seq<Seq<TrackEventV>>, rest: Seq<u8>)
    requires
        forall|i: int| 0 <= i < ts.len() ==> track_wf(#[trigger] ts[i]) && track_body(
            ts[i],
        ).len() <= 0xFFFF_FFFF,
    ensures
        parse_tracks(
            concat_bytes(ts.map_values(|e: Seq<TrackEventV>| encode_track(e))) + rest,
            ts.len() as nat,
        ) == Some(ts.map_values(|e: Seq<TrackEventV>| written_track(e))),
    decreases ts.len(),
{
    let chunks = ts.map_values(|e: Seq<TrackEventV>| encode_track(e));
    let whole = concat_bytes(chunks) + rest;
    if ts.len() == 0 {
        assert(ts.map_values(|e: Seq<TrackEventV>| written_track(e))
            =~= Seq::<TrackV>::empty());
    } else {
        let tail = ts.drop_first();
        let tail_chunks = tail.map_values(|e: Seq<TrackEventV>| encode_track(e));
        assert(chunks.drop_first() =~= tail_chunks);
        assert(chunks[0] == encode_track(ts[0]));
        let after = concat_bytes(tail_chunks) + rest;
        assert(whole =~= encode_track(ts[0]) + after);
        lemma_parse_track_exact(ts[0], after);
        let c = encode_track(ts[0]).len() as int;
        assert(whole.skip(c) =~= after);
        assert(forall|i: int| 0 <= i < tail.len() ==> tail[i] == ts[i + 1]);
        assert(forall|i: int| 0 <= i < tail.len() ==> track_wf(#[trigger] tail[i]) && track_body(
            tail[i],
        ).len() <= 0xFFFF_FFFF);
        lemma_parse_tracks_exact(tail, rest);
        assert(seq![written_track(ts[0])] + tail.map_values(
            |e: Seq<TrackEventV>| written_track(e),
        ) =~= ts.map_values(|e: Seq<TrackEventV>| written_track(e)));
    }
}

/// The round-trip law for a whole file: a header followed by written
/// track chunks parses back to the same format and division and to the
/// written shape of every track.
pub proof fn lemma_smf_round_trip(
    format: crate::SMFFormat,
    tracks: Seq<Seq<TrackEventV>>,
    division: i16,
)
    requires
        tracks.len() <= 0xFFFF,
        forall|i: int| 0 <= i < tracks.len() ==> track_wf(#[trigger] tracks[i]) && track_body(
            tracks[i],
        ).len() <= 0xFFFF_FFFF,
    ensures
        parse_smf(
            encode_header(format_code(format), tracks.len() as u16, division) + concat_bytes(
                tracks.map_values(|e: Seq<TrackEventV>| encode_track(e)),
            ),
        ) == Some(
            SMFV {
                format,
                tracks: tracks.map_values(|e: Seq<TrackEventV>| written_track(e)),
                division,
            },
        ),
{
    let n = tracks.len() as u16;
    let header = encode_header(format_code(format), n, division);
    let chunks = concat_bytes(tracks.map_values(|e: Seq<TrackEventV>| encode_track(e)));
    let s = header + chunks;
    assert(header.len() == 14);
    assert(s[0] == 0x4D);
    assert(!riff_prefix(s));
    assert(s.subrange(0, 4) =~= mthd_magic());
    assert(s[9] == format_code(format) as u8);
    assert(format_of_byte(s[9]) == Some(format));
    assert(s[10] == n / 256 && s[11] == n % 256);
    assert((s[10] as u16 * 256 + s[11] as u16) as u16 == n);
    let x = division as u16;
    assert(s[12] == x / 256 && s[13] == x % 256);
    assert((s[12] as u16 * 256 + s[13] as u16) as u16 == x);
    assert((x as i16) == division) by (bit_vector)
        requires
            x == division as u16,
    ;
    assert(parse_header_at(s) == Some((format, n, division)));
    assert(s.skip(14) =~= chunks + Seq::<u8>::empty());
    lemma_parse_tracks_exact(tracks, Seq::empty());
    assert(parse_tracks(s.skip(14), n as nat) == Some(
        tracks.map_values(|e: Seq<TrackEventV>| written_track(e)),
    ));
}

/// The running-status law: a second message whose status byte is elided
/// decodes to exactly the event the explicit form decodes to, one wire
/// byte shorter, and leaves the running status unchanged.
pub proof fn lemma_running_status_reconstruction(rs: u8, vtime: u64, db: u8, s: Seq<u8>)
    requires
        vtime < 0x8000_0000_0000_0000,
        db < 0x80,
        status_data_bytes(rs) == 1 || status_data_bytes(rs) == 2,
        status_data_bytes(rs) == 2 ==> s.len() >= 1,
    ensures
        ({
            let elided = vlq_encode(vtime as nat) + seq![db] + s;
            let explicit = vlq_encode(vtime as nat) + seq![rs, db] + s;
            match (parse_track_event(rs, elided), parse_track_event(rs, explicit)) {
                (Some((te1, c1, rs1)), Some((te2, c2, rs2))) => {
                    &&& te1 == te2
                    &&& c2 == c1 + 1
                    &&& rs1 == rs
                    &&& rs2 == rs
                },
                _ => false,
            }
        }),
{
    let venc = vlq_encode(vtime as nat);
    let nv = venc.len() as int;
    let elided = venc + seq![db] + s;
    let explicit = venc + seq![rs, db] + s;
    lemma_vlq_round_trip(vtime as nat);
    lemma_parse_vlq_exact(venc, seq![db] + s);
    lemma_parse_vlq_exact(venc, seq![rs, db] + s);
    assert(elided =~= venc + (seq![db] + s));
    assert(explicit =~= venc + (seq![rs, db] + s));
    assert(parse_vlq(elided) == Some((vtime as nat, nv)));
    assert(parse_vlq(explicit) == Some((vtime as nat, nv)));
    let erest = elided.skip(nv);
    let xrest = explicit.skip(nv);
    assert(erest =~= seq![db] + s);
    assert(xrest =~= seq![rs, db] + s);
    assert(erest[0] == db && xrest[0] == rs);
    assert(rs >= 0x80 && rs != 0xFF);
    assert(erest.drop_first() =~= s);
    assert(xrest.drop_first() =~= seq![db] + s);
    let n = status_data_bytes(rs);
    if n == 1 {
        assert(parse_msg_running(rs, db, s) == Some((seq![rs, db], 0int)));
        assert(seq![rs] + (seq![db] + s).take(1) =~= seq![rs, db]);
        assert(parse_msg_given(rs, seq![db] + s) == Some((seq![rs, db], 1int)));
    } else {
        assert(parse_msg_running(rs, db, s) == Some((seq![rs, db, s[0]], 1int)));
        assert(seq![rs] + (seq![db] + s).take(2) =~= seq![rs, db, s[0]]);
        assert(parse_msg_given(rs, seq![db] + s) == Some((seq![rs, db, s[0]], 2int)));
    }
}

} // verus!
