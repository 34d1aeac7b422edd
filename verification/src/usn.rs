//! NTFS change-journal (USN) records: the fixed-layout structures handed to
//! the volume control codes, the decoding of a `USN_RECORD_V2` from raw
//! bytes, and the time and string conversions that go with it.
#![allow(non_snake_case, non_camel_case_types)]

use vstd::prelude::*;
use crate::text::chars_of;

verus! {

pub type BOOL = i32;
pub type DWORD = u32;
pub type WORD = u16;

pub const TRUE: BOOL = 1;
pub const FALSE: BOOL = 0;
pub const INVALID_HANDLE_VALUE: isize = -1;

pub const GENERIC_READ: DWORD = 0x80000000;
pub const GENERIC_WRITE: DWORD = 0x40000000;
pub const FILE_SHARE_READ: DWORD = 0x00000001;
pub const FILE_SHARE_WRITE: DWORD = 0x00000002;
pub const OPEN_EXISTING: DWORD = 3;
pub const FILE_ATTRIBUTE_DIRECTORY: DWORD = 0x00000010;
pub const FILE_ATTRIBUTE_HIDDEN: DWORD = 0x00000002;
pub const FILE_ATTRIBUTE_READONLY: DWORD = 0x00000001;

pub const FSCTL_QUERY_USN_JOURNAL: DWORD = 0x00090094;
pub const FSCTL_ENUM_USN_DATA: DWORD = 0x000900B0;
pub const FSCTL_READ_USN_JOURNAL: DWORD = 0x000900BB;

pub const USN_REASON_FILE_CREATE: DWORD = 0x00000100;
pub const USN_REASON_FILE_DELETE: DWORD = 0x00000200;
pub const USN_REASON_RENAME_NEW_NAME: DWORD = 0x00002000;
pub const USN_REASON_RENAME_OLD_NAME: DWORD = 0x00001000;
pub const USN_REASON_DATA_EXTEND: DWORD = 0x00000002;
pub const USN_REASON_DATA_OVERWRITE: DWORD = 0x00000001;
pub const USN_REASON_DATA_TRUNCATION: DWORD = 0x00000004;
pub const USN_REASON_CLOSE: DWORD = 0x80000000;

pub const TOKEN_QUERY: DWORD = 0x0008;
pub const TOKEN_ADJUST_PRIVILEGES: DWORD = 0x0020;
pub const SE_PRIVILEGE_ENABLED: DWORD = 0x00000002;

/// Size in bytes of the fixed part of a `USN_RECORD_V2`.
pub const USN_RECORD_MIN: usize = 60;

/// Output of the journal query control code.
pub struct USN_JOURNAL_DATA_V0 {
    pub usn_journal_id: u64,
    pub first_usn: i64,
    pub next_usn: i64,
    pub lowest_valid_usn: i64,
    pub max_usn: i64,
    pub maximum_size: u64,
    pub allocation_delta: u64,
}

/// Input of the master-file-table enumeration control code.
pub struct MFT_ENUM_DATA_V0 {
    pub start_file_reference_number: u64,
    pub low_usn: i64,
    pub high_usn: i64,
}

/// Input of the journal read control code.
pub struct READ_USN_JOURNAL_DATA_V0 {
    pub start_usn: i64,
    pub reason_mask: DWORD,
    pub return_only_on_close: DWORD,
    pub timeout: u64,
    pub bytes_to_wait_for: u64,
    pub usn_journal_id: u64,
}

pub struct LUID {
    pub low_part: u32,
    pub high_part: i32,
}

pub struct LUID_AND_ATTRIBUTES {
    pub luid: LUID,
    pub attributes: DWORD,
}

pub struct TOKEN_PRIVILEGES {
    pub privilege_count: u32,
    pub privileges: [LUID_AND_ATTRIBUTES; 1],
}

/// A decoded `USN_RECORD_V2`.
#[derive(Debug)]
pub struct UsnRecord {
    pub record_length: u32,
    pub major_version: u16,
    pub minor_version: u16,
    pub file_reference_number: u64,
    pub parent_file_reference_number: u64,
    pub usn: i64,
    pub timestamp: i64,
    pub reason: u32,
    pub source_info: u32,
    pub security_id: u32,
    pub file_attributes: u32,
    pub file_name_length: u16,
    pub file_name_offset: u16,
    pub file_name: String,
}

/// The value of a `UsnRecord`, its name taken as characters.
pub struct UsnRecordView {
    pub record_length: u32,
    pub major_version: u16,
    pub minor_version: u16,
    pub file_reference_number: u64,
    pub parent_file_reference_number: u64,
    pub usn: i64,
    pub timestamp: i64,
    pub reason: u32,
    pub source_info: u32,
    pub security_id: u32,
    pub file_attributes: u32,
    pub file_name_length: u16,
    pub file_name_offset: u16,
    pub file_name: Seq<char>,
}

impl View for UsnRecord {
    type V = UsnRecordView;

    open spec fn view(&self) -> UsnRecordView {
        UsnRecordView {
            record_length: self.record_length,
            major_version: self.major_version,
            minor_version: self.minor_version,
            file_reference_number: self.file_reference_number,
            parent_file_reference_number: self.parent_file_reference_number,
            usn: self.usn,
            timestamp: self.timestamp,
            reason: self.reason,
            source_info: self.source_info,
            security_id: self.security_id,
            file_attributes: self.file_attributes,
            file_name_length: self.file_name_length,
            file_name_offset: self.file_name_offset,
            file_name: self.file_name@,
        }
    }
}

impl Clone for UsnRecord {
    fn clone(&self) -> (r: Self)
        ensures
            r@ == self@,
    {
        UsnRecord {
            record_length: self.record_length,
            major_version: self.major_version,
            minor_version: self.minor_version,
            file_reference_number: self.file_reference_number,
            parent_file_reference_number: self.parent_file_reference_number,
            usn: self.usn,
            timestamp: self.timestamp,
            reason: self.reason,
            source_info: self.source_info,
            security_id: self.security_id,
            file_attributes: self.file_attributes,
            file_name_length: self.file_name_length,
            file_name_offset: self.file_name_offset,
            file_name: self.file_name.clone(),
        }
    }
}

// ---------------------------------------------------------------------------
// Little-endian fields
// ---------------------------------------------------------------------------

pub open spec fn le16(d: Seq<u8>, o: int) -> int {
    d[o] + d[o + 1] * 256
}

pub open spec fn le32(d: Seq<u8>, o: int) -> int {
    le16(d, o) + le16(d, o + 2) * 65536
}

pub open spec fn le64(d: Seq<u8>, o: int) -> int {
    le32(d, o) + le32(d, o + 4) * 0x1_0000_0000
}

fn read_u16(d: &[u8], o: usize) -> (r: u16)
    requires
        o + 2 <= d@.len(),
    ensures
        r == le16(d@, o as int),
{
    (d[o] as u16) + (d[o + 1] as u16) * 256
}

fn read_u32(d: &[u8], o: usize) -> (r: u32)
    requires
        o + 4 <= d@.len(),
    ensures
        r == le32(d@, o as int),
{
    let _n = d.len();
    let lo = read_u16(d, o);
    let hi = read_u16(d, o + 2);
    (lo as u32) + (hi as u32) * 65536
}

fn read_u64(d: &[u8], o: usize) -> (r: u64)
    requires
        o + 8 <= d@.len(),
    ensures
        r == le64(d@, o as int),
{
    let _n = d.len();
    let lo = read_u32(d, o);
    let hi = read_u32(d, o + 4);
    (lo as u64) + (hi as u64) * 0x1_0000_0000
}

// ---------------------------------------------------------------------------
// UTF-16
// ---------------------------------------------------------------------------

pub open spec fn is_surrogate(u: u16) -> bool {
    0xD800 <= u && u <= 0xDFFF
}

pub open spec fn is_high_surrogate(u: u16) -> bool {
    0xD800 <= u && u <= 0xDBFF
}

pub open spec fn is_low_surrogate(u: u16) -> bool {
    0xDC00 <= u && u <= 0xDFFF
}

/// Decoding of UTF-16 code units where every unpaired surrogate becomes U+FFFD.
pub open spec fn utf16_decode_lossy(s: Seq<u16>) -> Seq<char>
    decreases s.len(),
{
    if s.len() == 0 {
        seq![]
    } else if !is_surrogate(s[0]) {
        seq![(s[0] as u32) as char] + utf16_decode_lossy(s.drop_first())
    } else if is_high_surrogate(s[0]) && s.len() >= 2 && is_low_surrogate(s[1]) {
        seq![
            (0x10000 + (s[0] - 0xD800) * 1024 + (s[1] - 0xDC00)) as char,
        ] + utf16_decode_lossy(s.skip(2))
    } else {
        seq!['\u{FFFD}'] + utf16_decode_lossy(s.drop_first())
    }
}

/// Calls `String::from_utf16_lossy`. Trusted: the result is the UTF-16 decoding of the
/// units, each unpaired surrogate replaced by U+FFFD, as its documentation describes.
#[verifier::external_body]
pub(crate) fn utf16_to_string(units: &Vec<u16>) -> (s: String)
    ensures
        s@ == utf16_decode_lossy(units@),
{
    String::from_utf16_lossy(units)
}

/// UTF-16 code units of one character.
pub open spec fn utf16_units(c: char) -> Seq<u16> {
    let u = c as u32;
    if u < 0x10000 {
        seq![u as u16]
    } else {
        seq![
            (0xD800 + (u - 0x10000) / 1024) as u16,
            (0xDC00 + (u - 0x10000) % 1024) as u16,
        ]
    }
}

/// UTF-16 encoding of a character sequence.
pub open spec fn utf16_encode(s: Seq<char>) -> Seq<u16>
    decreases s.len(),
{
    if s.len() == 0 {
        seq![]
    } else {
        utf16_encode(s.drop_last()) + utf16_units(s.last())
    }
}

/// The UTF-16 encoding of `s` followed by a terminating zero unit, as the
/// wide-character system calls take it.
pub fn to_wstring(s: &str) -> (w: Vec<u16>)
    ensures
        w@ == utf16_encode(s@).push(0u16),
{
    let cs = chars_of(s);
    let mut w: Vec<u16> = Vec::new();
    let mut i: usize = 0;
    while i < cs.len()
        invariant
            i <= cs.len(),
            cs@ == s@,
            w@ == utf16_encode(cs@.take(i as int)),
        decreases cs.len() - i,
    {
        let u = cs[i] as u32;
        assert(cs@.take(i + 1).drop_last() =~= cs@.take(i as int));
        if u < 0x10000 {
            w.push(u as u16);
        } else {
            proof {
                vstd::utf8::char_is_scalar(cs@[i as int]);
            }
            let v = u - 0x10000;
            w.push((0xD800 + v / 1024) as u16);
            w.push((0xDC00 + v % 1024) as u16);
        }
        i = i + 1;
        assert(w@ =~= utf16_encode(cs@.take(i as int)));
    }
    assert(cs@.take(cs.len() as int) =~= cs@);
    w.push(0u16);
    w
}

// ---------------------------------------------------------------------------
// Records
// ---------------------------------------------------------------------------

/// The bytes hold a record: at least the fixed part, and a record length that is at
/// least the fixed part and fits the bytes.
pub open spec fn record_fits(d: Seq<u8>) -> bool {
    d.len() >= 60 && 60 <= le32(d, 0) && le32(d, 0) <= d.len()
}

/// The UTF-16 units of the name: `len` bytes from `off`, read in pairs; an odd last
/// byte is dropped.
pub open spec fn name_units(d: Seq<u8>, off: int, len: int) -> Seq<u16> {
    Seq::new((len / 2) as nat, |i: int| le16(d, off + 2 * i) as u16)
}

/// The name of a record: decoded when its length is positive and it lies within the
/// bytes, else empty.
pub open spec fn record_name(d: Seq<u8>) -> Seq<char> {
    let len = le16(d, 56);
    let off = le16(d, 58);
    if len > 0 && off <= d.len() && len <= d.len() - off {
        utf16_decode_lossy(name_units(d, off, len))
    } else {
        seq![]
    }
}

/// The record that the bytes hold, when they hold one.
pub open spec fn record_spec(d: Seq<u8>) -> Option<UsnRecordView> {
    if record_fits(d) {
        Some(
            UsnRecordView {
                record_length: le32(d, 0) as u32,
                major_version: le16(d, 4) as u16,
                minor_version: le16(d, 6) as u16,
                file_reference_number: le64(d, 8) as u64,
                parent_file_reference_number: le64(d, 16) as u64,
                usn: le64(d, 24) as i64,
                timestamp: le64(d, 32) as i64,
                reason: le32(d, 40) as u32,
                source_info: le32(d, 44) as u32,
                security_id: le32(d, 48) as u32,
                file_attributes: le32(d, 52) as u32,
                file_name_length: le16(d, 56) as u16,
                file_name_offset: le16(d, 58) as u16,
                file_name: record_name(d),
            },
        )
    } else {
        None
    }
}

pub open spec fn opt_record_view(r: Option<UsnRecord>) -> Option<UsnRecordView> {
    match r {
        Some(x) => Some(x@),
        None => None,
    }
}

/// Decodes the record that starts at byte `start` of `data`.
fn parse_usn_record_at(data: &[u8], start: usize) -> (r: Option<UsnRecord>)
    requires
        start <= data@.len(),
    ensures
        opt_record_view(r) == record_spec(data@.skip(start as int)),
{
    let ghost d = data@.skip(start as int);
    if data.len() - start < 60 {
        return None;
    }
    let record_length = read_u32(data, start);
    assert(le32(d, 0) == le32(data@, start as int));
    if record_length as usize > data.len() - start || record_length < 60 {
        return None;
    }
    let major_version = read_u16(data, start + 4);
    let minor_version = read_u16(data, start + 6);
    let file_reference_number = read_u64(data, start + 8);
    let parent_file_reference_number = read_u64(data, start + 16);
    let usn_raw = read_u64(data, start + 24);
    let ts_raw = read_u64(data, start + 32);
    let reason = read_u32(data, start + 40);
    let source_info = read_u32(data, start + 44);
    let security_id = read_u32(data, start + 48);
    let file_attributes = read_u32(data, start + 52);
    let file_name_length = read_u16(data, start + 56);
    let file_name_offset = read_u16(data, start + 58);
    assert(le16(d, 4) == le16(data@, start + 4));
    assert(le16(d, 6) == le16(data@, start + 6));
    assert(le64(d, 8) == le64(data@, start + 8));
    assert(le64(d, 16) == le64(data@, start + 16));
    assert(le64(d, 24) == le64(data@, start + 24));
    assert(le64(d, 32) == le64(data@, start + 32));
    assert(le32(d, 40) == le32(data@, start + 40));
    assert(le32(d, 44) == le32(data@, start + 44));
    assert(le32(d, 48) == le32(data@, start + 48));
    assert(le32(d, 52) == le32(data@, start + 52));
    assert(le16(d, 56) == le16(data@, start + 56));
    assert(le16(d, 58) == le16(data@, start + 58));
    let rest = data.len() - start;
    let file_name = if file_name_length > 0 && file_name_offset as usize <= rest
        && file_name_length as usize <= rest - file_name_offset as usize {
        let name_start = start + file_name_offset as usize;
        let pairs = (file_name_length as usize) / 2;
        let mut units: Vec<u16> = Vec::new();
        let mut i: usize = 0;
        while i < pairs
            invariant
                i <= pairs,
                pairs == file_name_length / 2,
                name_start == start + file_name_offset,
                name_start + file_name_length <= data@.len(),
                d == data@.skip(start as int),
                units@ == name_units(d, file_name_offset as int, file_name_length as int).take(
                    i as int,
                ),
            decreases pairs - i,
        {
            let _n = data.len();
            let u = read_u16(data, name_start + 2 * i);
            assert(le16(d, file_name_offset + 2 * i) == le16(data@, name_start + 2 * i));
            units.push(u);
            i = i + 1;
            assert(units@ =~= name_units(d, file_name_offset as int, file_name_length as int).take(
                i as int,
            ));
        }
        assert(units@ =~= name_units(d, file_name_offset as int, file_name_length as int));
        utf16_to_string(&units)
    } else {
        String::new()
    };
    #[verifier::truncate]
    let usn = usn_raw as i64;
    #[verifier::truncate]
    let timestamp = ts_raw as i64;
    Some(
        UsnRecord {
            record_length,
            major_version,
            minor_version,
            file_reference_number,
            parent_file_reference_number,
            usn,
            timestamp,
            reason,
            source_info,
            security_id,
            file_attributes,
            file_name_length,
            file_name_offset,
            file_name,
        },
    )
}

/// Decodes a `USN_RECORD_V2` from raw bytes. `None` when fewer than 60 bytes are given,
/// or when the record length is under 60 or beyond the bytes given.
pub fn parse_usn_record(data: &[u8]) -> (r: Option<UsnRecord>)
    ensures
        opt_record_view(r) == record_spec(data@),
{
    assert(data@.skip(0) =~= data@);
    parse_usn_record_at(data, 0)
}

/// The records of a control-code output buffer: decoding starts after the 8-byte
/// (or 4-byte) header at `start`, and continues while a fixed part fits before `end`;
/// a position that holds no record is skipped by 4 bytes.
pub open spec fn records_from(buf: Seq<u8>, pos: int, end: int) -> Seq<UsnRecordView>
    decreases (if pos <= end {
        end - pos
    } else {
        0
    }),
{
    if pos < 0 || pos + 60 > end || pos > buf.len() {
        seq![]
    } else {
        let d = buf.skip(pos);
        if record_fits(d) {
            seq![record_spec(d)->0] + records_from(buf, pos + le32(d, 0), end)
        } else {
            records_from(buf, pos + 4, end)
        }
    }
}

/// Decodes every record in `buffer[4..bytes_returned]`, as the enumeration and
/// read loops walk the buffer: a record advances by its length, a position that
/// holds none by 4 bytes. A record may extend past `bytes_returned` into the buffer.
pub fn parse_records(buffer: &[u8], bytes_returned: usize) -> (r: Vec<UsnRecord>)
    requires
        bytes_returned <= buffer@.len(),
    ensures
        r@.map_values(|x: UsnRecord| x@) == records_from(buffer@, 4, bytes_returned as int),
{
    let mut out: Vec<UsnRecord> = Vec::new();
    let mut offset: usize = 4;
    while offset <= bytes_returned && bytes_returned - offset >= 60
        invariant
            4 <= offset,
            bytes_returned <= buffer@.len(),
            out@.map_values(|x: UsnRecord| x@) + records_from(
                buffer@,
                offset as int,
                bytes_returned as int,
            ) == records_from(buffer@, 4, bytes_returned as int),
        decreases (if offset <= bytes_returned {
            bytes_returned - offset + 1
        } else {
            0
        }),
    {
        let _n = buffer.len();
        let rec = parse_usn_record_at(buffer, offset);
        let ghost old_out = out@;
        match rec {
            Some(record) => {
                let len = record.record_length as usize;
                let ghost rv = record@;
                out.push(record);
                assert(out@.map_values(|x: UsnRecord| x@) =~= old_out.map_values(
                    |x: UsnRecord| x@,
                ).push(rv));
                assert(records_from(buffer@, offset as int, bytes_returned as int) == seq![rv]
                    + records_from(buffer@, offset + len, bytes_returned as int));
                assert(out@.map_values(|x: UsnRecord| x@) + records_from(
                    buffer@,
                    offset + len,
                    bytes_returned as int,
                ) =~= old_out.map_values(|x: UsnRecord| x@) + records_from(
                    buffer@,
                    offset as int,
                    bytes_returned as int,
                ));
                offset = offset + len;
            },
            None => {
                offset = offset + 4;
            },
        }
    }
    assert(out@.map_values(|x: UsnRecord| x@) =~= out@.map_values(|x: UsnRecord| x@) + seq![]);
    out
}

// ---------------------------------------------------------------------------
// Time
// ---------------------------------------------------------------------------

/// Integer division that rounds toward zero, as Rust's `/` does on signed integers.
pub open spec fn div_toward_zero(a: int, b: int) -> int {
    if a >= 0 {
        a / b
    } else {
        0 - ((0 - a) / b)
    }
}

/// Converts a FILETIME (100-ns intervals since 1601-01-01) to Unix seconds: whole
/// seconds rounded toward zero, less the 11644473600 seconds between the epochs.
pub fn filetime_to_unix_epoch(filetime: i64) -> (r: i64)
    ensures
        r == div_toward_zero(filetime as int, 10_000_000) - 11644473600,
{
    let unix_epoch_diff: i64 = 11644473600;
    let seconds = filetime / 10_000_000;
    seconds - unix_epoch_diff
}

} // verus!
