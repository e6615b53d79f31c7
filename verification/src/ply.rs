//! The packed chart front end: a fixed-width little-endian header followed
//! by notes, tempo changes and slide attachments, decoded byte by byte into
//! the same raw record the JSON front end produces.
use vstd::prelude::*;

use crate::jsonparse::{JsonFumen, ParseError, RawBpmChange, RawNote, RawSoPoint};

verus! {

/// The little-endian 16-bit value at `off`.
pub open spec fn le_u16(s: Seq<u8>, off: int) -> int {
    s[off] + 0x100 * s[off + 1]
}

/// The little-endian signed 16-bit value at `off`.
pub open spec fn le_i16(s: Seq<u8>, off: int) -> int {
    if le_u16(s, off) >= 0x8000 {
        le_u16(s, off) - 0x1_0000
    } else {
        le_u16(s, off)
    }
}

/// The little-endian 32-bit value at `off`.
pub open spec fn le_u32(s: Seq<u8>, off: int) -> int {
    s[off] + 0x100 * s[off + 1] + 0x1_0000 * s[off + 2] + 0x100_0000 * s[off + 3]
}

/// The little-endian signed 32-bit value at `off`.
pub open spec fn le_i32(s: Seq<u8>, off: int) -> int {
    if le_u32(s, off) >= 0x8000_0000 {
        le_u32(s, off) - 0x1_0000_0000
    } else {
        le_u32(s, off)
    }
}

/// The signed byte at `off`.
pub open spec fn le_i8(s: Seq<u8>, off: int) -> int {
    if s[off] >= 0x80 {
        s[off] - 0x100
    } else {
        s[off] as int
    }
}

/// The binary format stores the starting tempo as 32 bits in the common
/// single-precision layout; this reads them as a whole number of milli-bpm,
/// rounding down. Negative values, infinities and values at or above
/// 2 to the 43rd name no usable tempo.
pub open spec fn millibpm_of_bits(bits: u32) -> Option<i64> {
    let e = (bits >> 23) & 0xff;
    let m = (bits & 0x007f_ffff) as u64;
    if bits >= 0x8000_0000 {
        Option::None
    } else if e == 255 {
        Option::None
    } else if e >= 170 {
        Option::None
    } else if e == 0 {
        Option::Some(0i64)
    } else if e >= 150 {
        Option::Some((((0x0080_0000u64 + m) * 1000) as u64 * ((1u64 << (e - 150) as u64)) as u64) as i64)
    } else if e <= 100 {
        Option::Some(0i64)
    } else {
        Option::Some((((0x0080_0000u64 + m) * 1000) as u64 / ((1u64 << (150 - e) as u64)) as u64) as i64)
    }
}

/// One note record decoded at `off`, with the offset just past it; `None`
/// when the buffer ends inside the record. A chain block follows the base
/// block exactly when bit 3 of the magic byte is set.
pub open spec fn spec_note_at(s: Seq<u8>, off: int) -> Option<(RawNote, int)> {
    if off + 14 > s.len() {
        Option::None
    } else {
        let nrefl = le_i16(s, off + 12);
        let nr = if nrefl > 0 {
            nrefl
        } else {
            0
        };
        let b = off + 14 + 2 * nr;
        if b + 24 > s.len() {
            Option::None
        } else {
            let chained = (s[b + 12] / 8) % 2 == 1;
            let note = RawNote {
                starttime: le_i32(s, off) as i64,
                flytime: le_i32(s, off + 4) as i64,
                id: le_i16(s, off + 8) as i64,
                source: le_i16(s, off + 10) as i64,
                numreflectnotes: nrefl as i64,
                numalsoreflectednotes: le_i8(s, b) as i64,
                side: le_i8(s, b + 1) as i64,
                istop: le_i8(s, b + 2) as i64,
                notetype: le_i8(s, b + 3) as i64,
                lolength: le_i16(s, b + 4) as i64,
                position: le_i16(s, b + 6) as i64,
                isset: le_i8(s, b + 8) as i64,
                magicnumber: le_i8(s, b + 12) as i64,
                chainlastid: 0,
                chainnextid: 0,
                chainid: 0,
                chaindeltatime: 0,
            };
            if chained {
                if b + 36 > s.len() {
                    Option::None
                } else {
                    Option::Some(
                        (
                            RawNote {
                                chainlastid: le_i16(s, b + 24) as i64,
                                chainnextid: le_i16(s, b + 26) as i64,
                                chainid: le_i16(s, b + 28) as i64,
                                chaindeltatime: le_i16(s, b + 30) as i64,
                                ..note
                            },
                            b + 36,
                        ),
                    )
                }
            } else {
                Option::Some((note, b + 24))
            }
        }
    }
}

/// `count` note records decoded from `off` on, with the offset past them.
pub open spec fn spec_notes(s: Seq<u8>, off: int, count: int) -> Option<(Seq<RawNote>, int)>
    decreases count,
{
    if count <= 0 {
        Option::Some((Seq::<RawNote>::empty(), off))
    } else {
        match spec_note_at(s, off) {
            Option::None => Option::None,
            Option::Some((note, off2)) => match spec_notes(s, off2, count - 1) {
                Option::None => Option::None,
                Option::Some((rest, off3)) => Option::Some((seq![note] + rest, off3)),
            },
        }
    }
}

/// One tempo-change record decoded at `off`; 36 bytes wide, the new tempo
/// packed as 32 bits of single precision.
pub open spec fn spec_bpmchange_at(s: Seq<u8>, off: int) -> Option<(RawBpmChange, int)> {
    if off + 36 > s.len() {
        Option::None
    } else {
        match millibpm_of_bits(le_u32(s, off + 16) as u32) {
            Option::None => Option::None,
            Option::Some(mb) => Option::Some(
                (
                    RawBpmChange {
                        id: le_i16(s, off + 2) as i64,
                        time: le_i32(s, off + 4) as i64,
                        event_millibpm: mb,
                    },
                    off + 36,
                ),
            ),
        }
    }
}

/// `count` tempo-change records decoded from `off` on.
pub open spec fn spec_bpmchanges(s: Seq<u8>, off: int, count: int) -> Option<
    (Seq<RawBpmChange>, int),
>
    decreases count,
{
    if count <= 0 {
        Option::Some((Seq::<RawBpmChange>::empty(), off))
    } else {
        match spec_bpmchange_at(s, off) {
            Option::None => Option::None,
            Option::Some((c, off2)) => match spec_bpmchanges(s, off2, count - 1) {
                Option::None => Option::None,
                Option::Some((rest, off3)) => Option::Some((seq![c] + rest, off3)),
            },
        }
    }
}

/// One slide-attachment record decoded at `off`; 16 bytes wide.
pub open spec fn spec_sopoint_at(s: Seq<u8>, off: int) -> Option<(RawSoPoint, int)> {
    if off + 16 > s.len() {
        Option::None
    } else {
        Option::Some(
            (
                RawSoPoint {
                    noteid: le_i16(s, off) as i64,
                    id: le_i16(s, off + 2) as i64,
                    position: le_i16(s, off + 4) as i64,
                    starttime: le_i32(s, off + 8) as i64,
                    flytime: le_i32(s, off + 12) as i64,
                },
                off + 16,
            ),
        )
    }
}

/// `count` slide-attachment records decoded from `off` on.
pub open spec fn spec_sopoints(s: Seq<u8>, off: int, count: int) -> Option<(Seq<RawSoPoint>, int)>
    decreases count,
{
    if count <= 0 {
        Option::Some((Seq::<RawSoPoint>::empty(), off))
    } else {
        match spec_sopoint_at(s, off) {
            Option::None => Option::None,
            Option::Some((p, off2)) => match spec_sopoints(s, off2, count - 1) {
                Option::None => Option::None,
                Option::Some((rest, off3)) => Option::Some((seq![p] + rest, off3)),
            },
        }
    }
}

/// Whether the whole packed chart decodes, and what its parts are: the
/// header is 44 bytes, then the notes, tempo changes and slide attachments
/// follow back to back.
pub open spec fn spec_decode_ply(s: Seq<u8>) -> Option<
    (i64, Seq<RawNote>, Seq<RawBpmChange>, Seq<RawSoPoint>),
> {
    if s.len() < 44 {
        Option::None
    } else {
        match millibpm_of_bits(le_u32(s, 16) as u32) {
            Option::None => Option::None,
            Option::Some(mb) => {
                let nnotes = if le_i16(s, 28) > 0 {
                    le_i16(s, 28)
                } else {
                    0
                };
                let nbpm = if le_i16(s, 30) > 0 {
                    le_i16(s, 30)
                } else {
                    0
                };
                let nso = if le_i16(s, 36) > 0 {
                    le_i16(s, 36)
                } else {
                    0
                };
                match spec_notes(s, 44, nnotes) {
                    Option::None => Option::None,
                    Option::Some((notes, off2)) => match spec_bpmchanges(s, off2, nbpm) {
                        Option::None => Option::None,
                        Option::Some((bpms, off3)) => match spec_sopoints(s, off3, nso) {
                            Option::None => Option::None,
                            Option::Some((sops, _)) => Option::Some((mb, notes, bpms, sops)),
                        },
                    },
                }
            },
        }
    }
}

/// The unsigned byte at `off`, as a machine integer.
fn read_u8(bytes: &[u8], off: usize) -> (r: u8)
    requires
        off < bytes@.len(),
    ensures
        r == bytes@[off as int],
{
    bytes[off]
}

/// The little-endian signed 16-bit value at `off`.
fn read_i16(bytes: &[u8], off: usize) -> (r: i64)
    requires
        off + 2 <= bytes@.len(),
    ensures
        r == le_i16(bytes@, off as int),
        -0x8000 <= r < 0x8000,
{
    let b0 = bytes[off] as i64;
    let b1 = bytes[off + 1] as i64;
    let v = b0 + 0x100 * b1;
    if v >= 0x8000 {
        v - 0x1_0000
    } else {
        v
    }
}

/// The little-endian signed 32-bit value at `off`.
fn read_i32(bytes: &[u8], off: usize) -> (r: i64)
    requires
        off + 4 <= bytes@.len(),
    ensures
        r == le_i32(bytes@, off as int),
        -0x8000_0000 <= r < 0x8000_0000,
{
    let b0 = bytes[off] as i64;
    let b1 = bytes[off + 1] as i64;
    let b2 = bytes[off + 2] as i64;
    let b3 = bytes[off + 3] as i64;
    let v = b0 + 0x100 * b1 + 0x1_0000 * b2 + 0x100_0000 * b3;
    if v >= 0x8000_0000 {
        v - 0x1_0000_0000
    } else {
        v
    }
}

/// The little-endian 32-bit value at `off`, as raw bits.
fn read_u32(bytes: &[u8], off: usize) -> (r: u32)
    requires
        off + 4 <= bytes@.len(),
    ensures
        r == le_u32(bytes@, off as int),
{
    let b0 = bytes[off] as u32;
    let b1 = bytes[off + 1] as u32;
    let b2 = bytes[off + 2] as u32;
    let b3 = bytes[off + 3] as u32;
    b0 + 0x100 * b1 + 0x1_0000 * b2 + 0x100_0000 * b3
}

/// The signed byte at `off`.
fn read_i8(bytes: &[u8], off: usize) -> (r: i64)
    requires
        off < bytes@.len(),
    ensures
        r == le_i8(bytes@, off as int),
        -0x80 <= r < 0x80,
{
    let b = bytes[off] as i64;
    if b >= 0x80 {
        b - 0x100
    } else {
        b
    }
}

/// The tempo named by 32 single-precision bits, in milli-bpm, rounded down;
/// see [`millibpm_of_bits`].
fn bits_to_millibpm(bits: u32) -> (r: Option<i64>)
    ensures
        r == millibpm_of_bits(bits),
{
    let e = (bits >> 23) & 0xff;
    proof {
        assert(bits & 0x007f_ffff < 0x0080_0000) by (bit_vector);
        assert(((bits >> 23) & 0xff) < 0x100) by (bit_vector);
    }
    let m = (bits & 0x007f_ffff) as u64;
    if bits >= 0x8000_0000 {
        None
    } else if e == 255 {
        None
    } else if e >= 170 {
        None
    } else if e == 0 {
        Some(0)
    } else if e >= 150 {
        let num = (0x0080_0000u64 + m) * 1000;
        let sh = 1u64 << ((e - 150) as u64);
        proof {
            assert((1u64 << ((e - 150) as u64)) <= 0x8_0000u64) by (bit_vector)
                requires
                    150 <= e < 170,
            ;
            assert(num * sh < 0x8000_0000_0000_0000u64) by (nonlinear_arith)
                requires
                    num < 0x4_0000_0000u64,
                    sh <= 0x8_0000u64,
            ;
        }
        Some((num * sh) as i64)
    } else if e <= 100 {
        Some(0)
    } else {
        let num = (0x0080_0000u64 + m) * 1000;
        let sh = 1u64 << ((150 - e) as u64);
        proof {
            assert((1u64 << ((150 - e) as u64)) >= 1u64) by (bit_vector)
                requires
                    100 < e < 150,
            ;
            assert(num / sh <= num) by (nonlinear_arith)
                requires
                    num >= 0,
                    sh >= 1,
            ;
        }
        Some((num / sh) as i64)
    }
}

/// One note record read at `off`; `None` exactly when [`spec_note_at`] says
/// the record does not fit the buffer.
fn read_note(bytes: &[u8], off: usize) -> (r: Option<(RawNote, usize)>)
    requires
        off <= bytes@.len(),
    ensures
        match r {
            Option::Some((note, off2)) => spec_note_at(bytes@, off as int) == Option::Some(
                (note, off2 as int),
            ) && off < off2 <= bytes@.len(),
            Option::None => spec_note_at(bytes@, off as int) is None,
        },
{
    let total = bytes.len();
    if total - off < 14 {
        return None;
    }
    let nrefl = read_i16(bytes, off + 12);
    let nr: usize = if nrefl > 0 {
        nrefl as usize
    } else {
        0
    };
    if total - (off + 14) < 2 * nr {
        return None;
    }
    let b = off + 14 + 2 * nr;
    if total - b < 24 {
        return None;
    }
    let magic_byte = read_u8(bytes, b + 12);
    let chained = magic_byte & 8 == 8;
    proof {
        let mb = magic_byte;
        assert((mb & 8 == 8) == ((mb / 8) % 2 == 1)) by (bit_vector);
    }
    let note = RawNote {
        starttime: read_i32(bytes, off),
        flytime: read_i32(bytes, off + 4),
        id: read_i16(bytes, off + 8),
        source: read_i16(bytes, off + 10),
        numreflectnotes: nrefl,
        numalsoreflectednotes: read_i8(bytes, b),
        side: read_i8(bytes, b + 1),
        istop: read_i8(bytes, b + 2),
        notetype: read_i8(bytes, b + 3),
        lolength: read_i16(bytes, b + 4),
        position: read_i16(bytes, b + 6),
        isset: read_i8(bytes, b + 8),
        magicnumber: read_i8(bytes, b + 12),
        chainlastid: 0,
        chainnextid: 0,
        chainid: 0,
        chaindeltatime: 0,
    };
    if chained {
        if total - b < 36 {
            return None;
        }
        Some(
            (
                RawNote {
                    chainlastid: read_i16(bytes, b + 24),
                    chainnextid: read_i16(bytes, b + 26),
                    chainid: read_i16(bytes, b + 28),
                    chaindeltatime: read_i16(bytes, b + 30),
                    ..note
                },
                b + 36,
            ),
        )
    } else {
        Some((note, b + 24))
    }
}

/// One tempo-change record read at `off`; `None` exactly when
/// [`spec_bpmchange_at`] says the record does not fit or its tempo bits
/// name no usable number.
fn read_bpmchange(bytes: &[u8], off: usize) -> (r: Option<(RawBpmChange, usize)>)
    requires
        off <= bytes@.len(),
    ensures
        match r {
            Option::Some((c, off2)) => spec_bpmchange_at(bytes@, off as int) == Option::Some(
                (c, off2 as int),
            ) && off < off2 <= bytes@.len(),
            Option::None => spec_bpmchange_at(bytes@, off as int) is None,
        },
{
    let total = bytes.len();
    if total - off < 36 {
        return None;
    }
    let mb = match bits_to_millibpm(read_u32(bytes, off + 16)) {
        Some(mb) => mb,
        None => {
            return None;
        },
    };
    Some(
        (
            RawBpmChange {
                id: read_i16(bytes, off + 2),
                time: read_i32(bytes, off + 4),
                event_millibpm: mb,
            },
            off + 36,
        ),
    )
}

/// One slide-attachment record read at `off`; `None` exactly when
/// [`spec_sopoint_at`] says the record does not fit the buffer.
fn read_sopoint(bytes: &[u8], off: usize) -> (r: Option<(RawSoPoint, usize)>)
    requires
        off <= bytes@.len(),
    ensures
        match r {
            Option::Some((p, off2)) => spec_sopoint_at(bytes@, off as int) == Option::Some(
                (p, off2 as int),
            ) && off < off2 <= bytes@.len(),
            Option::None => spec_sopoint_at(bytes@, off as int) is None,
        },
{
    let total = bytes.len();
    if total - off < 16 {
        return None;
    }
    Some(
        (
            RawSoPoint {
                noteid: read_i16(bytes, off),
                id: read_i16(bytes, off + 2),
                position: read_i16(bytes, off + 4),
                starttime: read_i32(bytes, off + 8),
                flytime: read_i32(bytes, off + 12),
            },
            off + 16,
        ),
    )
}

impl JsonFumen {
    /// Decode a packed chart. The result is byte-for-byte the record that
    /// [`spec_decode_ply`] names, and decoding fails with `InvalidBinary`
    /// exactly when that record does not exist: the buffer ends inside a
    /// field, or a tempo's bits name no usable number.
    #[verifier::rlimit(100)]
    pub fn from_bytes(bytes: &[u8]) -> (r: Result<JsonFumen, ParseError>)
        ensures
            r is Ok <==> spec_decode_ply(bytes@) is Some,
            match r {
                Result::Ok(c) => {
                    let (mb, notes, bpms, sops) = spec_decode_ply(bytes@)->Some_0;
                    &&& c.header == le_i32(bytes@, 0)
                    &&& c.filetype == le_i8(bytes@, 4)
                    &&& c.startbpm_millibpm == mb
                    &&& c.length == le_i32(bytes@, 20)
                    &&& c.numnotes == le_i16(bytes@, 28)
                    &&& c.numbpmchanges == le_i16(bytes@, 30)
                    &&& c.numgeneratednotes == le_i16(bytes@, 32)
                    &&& c.numsopoints == le_i16(bytes@, 36)
                    &&& c.notes@ == notes
                    &&& c.bpmchanges@ == bpms
                    &&& c.sopoints@ == sops
                },
                Result::Err(e) => e == ParseError::InvalidBinary,
            },
    {
        let total = bytes.len();
        if total < 44 {
            return Err(ParseError::InvalidBinary);
        }
        let header = read_i32(bytes, 0);
        let filetype = read_i8(bytes, 4);
        let bpmbits = read_u32(bytes, 16);
        let length = read_i32(bytes, 20);
        let numnotes = read_i16(bytes, 28);
        let numbpmchanges = read_i16(bytes, 30);
        let numgeneratednotes = read_i16(bytes, 32);
        let numsopoints = read_i16(bytes, 36);
        let startbpm_millibpm = match bits_to_millibpm(bpmbits) {
            Some(mb) => mb,
            None => {
                return Err(ParseError::InvalidBinary);
            },
        };
        let nnotes: usize = if numnotes > 0 {
            numnotes as usize
        } else {
            0
        };
        let nbpm: usize = if numbpmchanges > 0 {
            numbpmchanges as usize
        } else {
            0
        };
        let nso: usize = if numsopoints > 0 {
            numsopoints as usize
        } else {
            0
        };
        let mut off: usize = 44;
        let mut notes: Vec<RawNote> = Vec::new();
        let mut i: usize = 0;
        while i < nnotes
            invariant
                bytes@.len() >= 44,
                numnotes == le_i16(bytes@, 28) && numbpmchanges == le_i16(bytes@, 30)
                    && numsopoints == le_i16(bytes@, 36),
                millibpm_of_bits(le_u32(bytes@, 16) as u32) == Option::Some(startbpm_millibpm),
                nnotes as int == (if le_i16(bytes@, 28) > 0 { le_i16(bytes@, 28) } else { 0 }),
                nbpm as int == (if le_i16(bytes@, 30) > 0 { le_i16(bytes@, 30) } else { 0 }),
                nso as int == (if le_i16(bytes@, 36) > 0 { le_i16(bytes@, 36) } else { 0 }),
                i <= nnotes,
                44 <= off <= bytes@.len(),
                notes@.len() == i,
                spec_notes(bytes@, 44, nnotes as int) == (match spec_notes(
                    bytes@,
                    off as int,
                    nnotes - i,
                ) {
                    Option::None => Option::<(Seq<RawNote>, int)>::None,
                    Option::Some((rest, e)) => Option::Some((notes@ + rest, e)),
                }),
            decreases nnotes - i,
        {
            let (note, off2) = match read_note(bytes, off) {
                Some(v) => v,
                None => {
                    proof {
                        assert(spec_notes(bytes@, off as int, nnotes - i) is None);
                        assert(spec_notes(bytes@, 44, nnotes as int) is None);
                        assert(spec_decode_ply(bytes@) is None);
                    }
                    return Err(ParseError::InvalidBinary);
                },
            };
            proof {
                lemma_cons_assoc_note(notes@, note, bytes@, off2 as int, nnotes - i - 1);
            }
            notes.push(note);
            off = off2;
            i = i + 1;
        }
        proof {
            assert(notes@ + Seq::<RawNote>::empty() =~= notes@);
            assert(spec_notes(bytes@, 44, nnotes as int) == Option::Some((notes@, off as int)));
        }
        let ghost notes_end = off as int;
        let mut bpmchanges: Vec<RawBpmChange> = Vec::new();
        let mut i: usize = 0;
        while i < nbpm
            invariant
                bytes@.len() >= 44,
                numnotes == le_i16(bytes@, 28) && numbpmchanges == le_i16(bytes@, 30)
                    && numsopoints == le_i16(bytes@, 36),
                millibpm_of_bits(le_u32(bytes@, 16) as u32) == Option::Some(startbpm_millibpm),
                nnotes as int == (if le_i16(bytes@, 28) > 0 { le_i16(bytes@, 28) } else { 0 }),
                nbpm as int == (if le_i16(bytes@, 30) > 0 { le_i16(bytes@, 30) } else { 0 }),
                nso as int == (if le_i16(bytes@, 36) > 0 { le_i16(bytes@, 36) } else { 0 }),
                i <= nbpm,
                off <= bytes@.len(),
                bpmchanges@.len() == i,
                spec_notes(bytes@, 44, nnotes as int) == Option::Some((notes@, notes_end)),
                spec_bpmchanges(bytes@, notes_end, nbpm as int) == (match spec_bpmchanges(
                    bytes@,
                    off as int,
                    nbpm - i,
                ) {
                    Option::None => Option::<(Seq<RawBpmChange>, int)>::None,
                    Option::Some((rest, e)) => Option::Some((bpmchanges@ + rest, e)),
                }),
            decreases nbpm - i,
        {
            let (c, off2) = match read_bpmchange(bytes, off) {
                Some(v) => v,
                None => {
                    proof {
                        assert(spec_bpmchanges(bytes@, off as int, nbpm - i) is None);
                        assert(spec_bpmchanges(bytes@, notes_end, nbpm as int) is None);
                        assert(spec_decode_ply(bytes@) is None);
                    }
                    return Err(ParseError::InvalidBinary);
                },
            };
            proof {
                lemma_cons_assoc_bpm(bpmchanges@, c, bytes@, off2 as int, nbpm - i - 1);
            }
            bpmchanges.push(c);
            off = off2;
            i = i + 1;
        }
        proof {
            assert(bpmchanges@ + Seq::<RawBpmChange>::empty() =~= bpmchanges@);
            assert(spec_bpmchanges(bytes@, notes_end, nbpm as int) == Option::Some(
                (bpmchanges@, off as int),
            ));
        }
        let ghost bpm_end = off as int;
        let mut sopoints: Vec<RawSoPoint> = Vec::new();
        let mut i: usize = 0;
        while i < nso
            invariant
                bytes@.len() >= 44,
                numnotes == le_i16(bytes@, 28) && numbpmchanges == le_i16(bytes@, 30)
                    && numsopoints == le_i16(bytes@, 36),
                millibpm_of_bits(le_u32(bytes@, 16) as u32) == Option::Some(startbpm_millibpm),
                nnotes as int == (if le_i16(bytes@, 28) > 0 { le_i16(bytes@, 28) } else { 0 }),
                nbpm as int == (if le_i16(bytes@, 30) > 0 { le_i16(bytes@, 30) } else { 0 }),
                nso as int == (if le_i16(bytes@, 36) > 0 { le_i16(bytes@, 36) } else { 0 }),
                i <= nso,
                off <= bytes@.len(),
                sopoints@.len() == i,
                spec_notes(bytes@, 44, nnotes as int) == Option::Some((notes@, notes_end)),
                spec_bpmchanges(bytes@, notes_end, nbpm as int) == Option::Some(
                    (bpmchanges@, bpm_end),
                ),
                spec_sopoints(bytes@, bpm_end, nso as int) == (match spec_sopoints(
                    bytes@,
                    off as int,
                    nso - i,
                ) {
                    Option::None => Option::<(Seq<RawSoPoint>, int)>::None,
                    Option::Some((rest, e)) => Option::Some((sopoints@ + rest, e)),
                }),
            decreases nso - i,
        {
            let (p, off2) = match read_sopoint(bytes, off) {
                Some(v) => v,
                None => {
                    proof {
                        assert(spec_sopoints(bytes@, off as int, nso - i) is None);
                        assert(spec_sopoints(bytes@, bpm_end, nso as int) is None);
                        assert(spec_decode_ply(bytes@) is None);
                    }
                    return Err(ParseError::InvalidBinary);
                },
            };
            proof {
                lemma_cons_assoc_sop(sopoints@, p, bytes@, off2 as int, nso - i - 1);
            }
            sopoints.push(p);
            off = off2;
            i = i + 1;
        }
        proof {
            assert(sopoints@ + Seq::<RawSoPoint>::empty() =~= sopoints@);
            assert(spec_sopoints(bytes@, bpm_end, nso as int) == Option::Some(
                (sopoints@, off as int),
            ));
            assert(spec_decode_ply(bytes@) == Option::Some(
                (startbpm_millibpm, notes@, bpmchanges@, sopoints@),
            ));
        }
        Ok(
            JsonFumen {
                header,
                filetype,
                startbpm_millibpm,
                length,
                numnotes,
                numbpmchanges,
                numgeneratednotes,
                numsopoints,
                notes,
                bpmchanges,
                sopoints,
            },
        )
    }
}

/// Prepending a decoded record associates with the rest of the decode.
proof fn lemma_cons_assoc_note(done: Seq<RawNote>, nt: RawNote, s: Seq<u8>, off2: int, left: int)
    ensures
        match spec_notes(s, off2, left) {
            Option::None => true,
            Option::Some((rest, e)) => done + (seq![nt] + rest) =~= done.push(nt) + rest,
        },
{
    match spec_notes(s, off2, left) {
        Option::None => {},
        Option::Some((rest, e)) => {
            assert(done + (seq![nt] + rest) =~= done.push(nt) + rest);
        },
    }
}

/// Prepending a decoded record associates with the rest of the decode.
proof fn lemma_cons_assoc_bpm(
    done: Seq<RawBpmChange>,
    c: RawBpmChange,
    s: Seq<u8>,
    off2: int,
    left: int,
)
    ensures
        match spec_bpmchanges(s, off2, left) {
            Option::None => true,
            Option::Some((rest, e)) => done + (seq![c] + rest) =~= done.push(c) + rest,
        },
{
    match spec_bpmchanges(s, off2, left) {
        Option::None => {},
        Option::Some((rest, e)) => {
            assert(done + (seq![c] + rest) =~= done.push(c) + rest);
        },
    }
}

/// Prepending a decoded record associates with the rest of the decode.
proof fn lemma_cons_assoc_sop(done: Seq<RawSoPoint>, p: RawSoPoint, s: Seq<u8>, off2: int, left: int)
    ensures
        match spec_sopoints(s, off2, left) {
            Option::None => true,
            Option::Some((rest, e)) => done + (seq![p] + rest) =~= done.push(p) + rest,
        },
{
    match spec_sopoints(s, off2, left) {
        Option::None => {},
        Option::Some((rest, e)) => {
            assert(done + (seq![p] + rest) =~= done.push(p) + rest);
        },
    }
}

} // verus!
