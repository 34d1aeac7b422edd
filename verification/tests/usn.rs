use findex::usn::{filetime_to_unix_epoch, parse_records, parse_usn_record, to_wstring, UsnRecord, USN_JOURNAL_DATA_V0};
use findex::usn_reader::{FileChange, UsnReader};

fn record(frn: u64, parent: u64, usn: i64, ts: i64, reason: u32, attrs: u32, name: &str) -> Vec<u8> {
    let units: Vec<u16> = name.encode_utf16().collect();
    let name_len = units.len() * 2;
    let len = 60 + name_len;
    let mut b = Vec::new();
    b.extend_from_slice(&(len as u32).to_le_bytes());
    b.extend_from_slice(&2u16.to_le_bytes());
    b.extend_from_slice(&0u16.to_le_bytes());
    b.extend_from_slice(&frn.to_le_bytes());
    b.extend_from_slice(&parent.to_le_bytes());
    b.extend_from_slice(&usn.to_le_bytes());
    b.extend_from_slice(&ts.to_le_bytes());
    b.extend_from_slice(&reason.to_le_bytes());
    b.extend_from_slice(&0u32.to_le_bytes());
    b.extend_from_slice(&0u32.to_le_bytes());
    b.extend_from_slice(&attrs.to_le_bytes());
    b.extend_from_slice(&(name_len as u16).to_le_bytes());
    b.extend_from_slice(&60u16.to_le_bytes());
    for u in units {
        b.extend_from_slice(&u.to_le_bytes());
    }
    b
}

fn buffer(records: &[Vec<u8>]) -> Vec<u8> {
    let mut b = vec![0u8; 4];
    for r in records {
        b.extend_from_slice(r);
    }
    b
}

const EPOCH_FT: i64 = 116444736000000000;

#[test]
fn decodes_a_record() {
    let bytes = record(42, 5, 900, EPOCH_FT, 0x100, 0x10, "Users");
    let r = parse_usn_record(&bytes).unwrap();
    assert_eq!(r.record_length, 70);
    assert_eq!(r.major_version, 2);
    assert_eq!(r.file_reference_number, 42);
    assert_eq!(r.parent_file_reference_number, 5);
    assert_eq!(r.usn, 900);
    assert_eq!(r.reason, 0x100);
    assert_eq!(r.file_attributes, 0x10);
    assert_eq!(r.file_name_length, 10);
    assert_eq!(r.file_name, "Users");
}

#[test]
fn rejects_short_or_inconsistent_bytes() {
    assert!(parse_usn_record(&[0u8; 59]).is_none());
    let mut bytes = record(1, 5, 1, 0, 0, 0, "a");
    bytes[0] = 200;
    assert!(parse_usn_record(&bytes).is_none());
    let mut small = record(1, 5, 1, 0, 0, 0, "a");
    small[0] = 10;
    assert!(parse_usn_record(&small).is_none());
}

#[test]
fn unpaired_surrogate_is_replaced() {
    let mut bytes = record(1, 5, 1, 0, 0, 0, "ab");
    bytes[60] = 0x00;
    bytes[61] = 0xD8;
    let r = parse_usn_record(&bytes).unwrap();
    assert_eq!(r.file_name, "\u{FFFD}b");
}

#[test]
fn parses_a_buffer_of_records() {
    let buf = buffer(&[record(1, 5, 10, 0, 0, 0, "a"), record(2, 5, 11, 0, 0, 0, "bb")]);
    let rs = parse_records(&buf, buf.len());
    assert_eq!(rs.len(), 2);
    assert_eq!(rs[0].file_name, "a");
    assert_eq!(rs[1].file_name, "bb");
    assert_eq!(UsnReader::next_start_usn(&rs, 3), 12);
    assert_eq!(UsnReader::next_start_reference(&rs, 0), 3);
    assert_eq!(UsnReader::next_start_usn(&Vec::new(), 3), 4);
    assert_eq!(parse_records(&buf, 3).len(), 0);
}

#[test]
fn filetime_conversion() {
    assert_eq!(filetime_to_unix_epoch(EPOCH_FT), 0);
    assert_eq!(filetime_to_unix_epoch(EPOCH_FT + 10_000_000), 1);
    assert_eq!(filetime_to_unix_epoch(0), -11644473600);
    assert_eq!(filetime_to_unix_epoch(-15_000_000), -1 - 11644473600);
}

#[test]
fn wide_strings() {
    assert_eq!(to_wstring("ab"), vec![97u16, 98, 0]);
    assert_eq!(to_wstring(""), vec![0u16]);
    assert_eq!(to_wstring("\u{1F600}"), vec![0xD83Du16, 0xDE00, 0]);
}

#[test]
fn enumerates_a_volume() {
    let bufs = buffer(&[
        record(100, 5, 1, EPOCH_FT, 0, 0x10, "Users"),
        record(101, 100, 2, EPOCH_FT + 10_000_000, 0, 0x2, "a.txt"),
        record(102, 5, 3, 0, 0, 0, "$MFT"),
        record(103, 999, 4, 0, 0, 0, "orphan"),
    ]);
    let rs = parse_records(&bufs, bufs.len());
    let es = UsnReader::enumerate_volume('C', &rs);
    assert_eq!(es.len(), 2);
    assert_eq!(es[0].name, "Users");
    assert_eq!(es[0].path, "C:\\Users");
    assert_eq!(es[0].parent_path, "C:\\");
    assert!(es[0].is_dir);
    assert_eq!(es[0].extension, "");
    assert_eq!(es[1].path, "C:\\Users\\a.txt");
    assert_eq!(es[1].parent_path, "C:\\Users");
    assert_eq!(es[1].extension, ".txt");
    assert!(es[1].is_hidden);
    assert_eq!(es[1].modified, 1);
    assert_eq!(es[1].volume, "C");
    assert!(UsnReader::enumerate_volume('C', &Vec::new()).is_empty());
}

#[test]
fn cyclic_parents_do_not_resolve() {
    let bufs = buffer(&[record(200, 201, 1, 0, 0, 0, "x"), record(201, 200, 2, 0, 0, 0, "y")]);
    let rs = parse_records(&bufs, bufs.len());
    assert!(UsnReader::enumerate_volume('D', &rs).is_empty());
}

#[test]
fn reads_changes() {
    let buf = buffer(&[
        record(1, 5, 50, EPOCH_FT, 0x100, 0, "new.txt"),
        record(2, 5, 51, 0, 0x200, 0, "old.txt"),
        record(3, 5, 52, 0, 0x8000_0000, 0, "closed.txt"),
        record(4, 5, 53, 0, 0x1000, 0, "renamed.txt"),
        record(5, 5, 54, 0, 0x2, 0x10, "grown"),
    ]);
    let (changes, next) = UsnReader::read_changes('E', 49, &Vec::new(), &buf, buf.len());
    assert_eq!(next, 55);
    assert_eq!(changes.len(), 4);
    match &changes[0] {
        FileChange::Added(e) => {
            assert_eq!(e.path, "E:\\new.txt");
            assert_eq!(e.parent_path, "E:\\");
            assert_eq!(e.extension, ".txt");
            assert_eq!(e.volume, "E");
        },
        _ => panic!("expected an addition"),
    }
    assert!(matches!(&changes[1], FileChange::Deleted(n) if n == "E:\\old.txt"));
    assert!(matches!(&changes[2], FileChange::Deleted(n) if n == "E:\\renamed.txt"));
    match &changes[3] {
        FileChange::Modified(e) => {
            assert!(e.is_dir);
            assert_eq!(e.extension, "");
        },
        _ => panic!("expected a modification"),
    }
}

#[test]
fn one_record_can_give_two_changes() {
    let bytes = record(9, 5, 1, 0, 0x100 | 0x200, 0, "tmp.dat");
    let r: UsnRecord = parse_usn_record(&bytes).unwrap();
    let cs = UsnReader::changes_from_records(&Vec::new(), &vec![r], 'C');
    assert_eq!(cs.len(), 2);
    assert!(matches!(&cs[0], FileChange::Added(_)));
    assert!(matches!(&cs[1], FileChange::Deleted(n) if n == "C:\\tmp.dat"));
}

#[test]
fn deletion_in_a_folder_carries_the_indexed_path() {
    let known_buf = buffer(&[
        record(100, 5, 1, 0, 0, 0x10, "Users"),
        record(101, 100, 2, 0, 0, 0, "a.txt"),
    ]);
    let known = parse_records(&known_buf, known_buf.len());
    let indexed = UsnReader::enumerate_volume('C', &known);
    assert_eq!(indexed[1].path, "C:\\Users\\a.txt");
    let buf = buffer(&[record(101, 100, 60, 0, 0x200, 0, "a.txt")]);
    let (changes, next) = UsnReader::read_changes('C', 59, &known, &buf, buf.len());
    assert_eq!(next, 61);
    assert_eq!(changes.len(), 1);
    assert!(matches!(&changes[0], FileChange::Deleted(p) if *p == indexed[1].path));
}

#[test]
fn new_folder_and_file_in_one_read_get_full_paths() {
    let known_buf = buffer(&[record(100, 5, 1, 0, 0, 0x10, "Users")]);
    let known = parse_records(&known_buf, known_buf.len());
    let buf = buffer(&[
        record(300, 100, 70, 0, 0x100, 0x10, "new"),
        record(301, 300, 71, 0, 0x100, 0, "b.md"),
        record(302, 999, 72, 0, 0x100, 0, "lost.md"),
    ]);
    let records = parse_records(&buf, buf.len());
    let changes = UsnReader::changes_from_records(&known, &records, 'C');
    assert_eq!(changes.len(), 3);
    match &changes[0] {
        FileChange::Added(e) => {
            assert_eq!(e.path, "C:\\Users\\new");
            assert_eq!(e.parent_path, "C:\\Users");
        },
        _ => panic!("expected an addition"),
    }
    match &changes[1] {
        FileChange::Added(e) => {
            assert_eq!(e.path, "C:\\Users\\new\\b.md");
            assert_eq!(e.parent_path, "C:\\Users\\new");
        },
        _ => panic!("expected an addition"),
    }
    match &changes[2] {
        FileChange::Added(e) => {
            assert_eq!(e.path, "C:\\lost.md");
            assert_eq!(e.parent_path, "");
        },
        _ => panic!("expected an addition"),
    }
}

#[test]
fn journal_query_and_availability() {
    let j = USN_JOURNAL_DATA_V0 {
        usn_journal_id: 77,
        first_usn: 0,
        next_usn: 500,
        lowest_valid_usn: 0,
        max_usn: 9000,
        maximum_size: 0,
        allocation_delta: 0,
    };
    assert_eq!(UsnReader::query_journal_id(&j), (500, 77, 9000));
    assert!(UsnReader::is_usn_available(true, true));
    assert!(!UsnReader::is_usn_available(true, false));
    assert!(!UsnReader::is_usn_available(false, true));
}
