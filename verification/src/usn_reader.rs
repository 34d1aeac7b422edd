//! What the journal reader makes of decoded records: index entries with
//! their full paths for a whole-volume enumeration, and file changes for an
//! incremental read. Opening the volume and issuing the control codes is left
//! to the caller, which hands over the decoded records.
use std::collections::HashMap;
use vstd::prelude::*;
use crate::index_engine::last_index_of;
use crate::text::{chars_of, ends_with, push_all, slice_chars, string_of};
use crate::types::{FileEntry, FileEntryView};
use crate::usn::{
    div_toward_zero, filetime_to_unix_epoch, parse_records, records_from, UsnRecord, UsnRecordView, USN_JOURNAL_DATA_V0,
    FILE_ATTRIBUTE_DIRECTORY, FILE_ATTRIBUTE_HIDDEN, FILE_ATTRIBUTE_READONLY, USN_REASON_CLOSE,
    USN_REASON_DATA_EXTEND, USN_REASON_DATA_OVERWRITE, USN_REASON_DATA_TRUNCATION,
    USN_REASON_FILE_CREATE, USN_REASON_FILE_DELETE, USN_REASON_RENAME_NEW_NAME,
    USN_REASON_RENAME_OLD_NAME,
};

verus! {

broadcast use vstd::std_specs::hash::group_hash_axioms;

/// A change read from the journal.
#[derive(Debug)]
pub enum FileChange {
    Added(FileEntry),
    Deleted(String),
    Modified(FileEntry),
    Renamed(String, String),
}

pub enum FileChangeView {
    Added(FileEntryView),
    Deleted(Seq<char>),
    Modified(FileEntryView),
    Renamed(Seq<char>, Seq<char>),
}

impl View for FileChange {
    type V = FileChangeView;

    open spec fn view(&self) -> FileChangeView {
        match self {
            FileChange::Added(e) => FileChangeView::Added(e@),
            FileChange::Deleted(s) => FileChangeView::Deleted(s@),
            FileChange::Modified(e) => FileChangeView::Modified(e@),
            FileChange::Renamed(a, b) => FileChangeView::Renamed(a@, b@),
        }
    }
}

/// The journal reader.
pub struct UsnReader;

/// The extension of a single file name as `Path::extension` gives it: the text after
/// the last dot, absent when there is no dot, when the only dot is the first character,
/// and for `..` and the empty name.
pub open spec fn extension_of(name: Seq<char>) -> Option<Seq<char>> {
    if name.len() == 0 || name == seq!['.', '.'] {
        None
    } else {
        match last_index_of(name, '.') {
            Some(d) => if d == 0 {
                None
            } else {
                Some(name.skip(d + 1))
            },
            None => None,
        }
    }
}

/// The extension field of an entry: empty for a folder, else a dot and the extension,
/// or empty when there is none.
pub open spec fn extension_field(name: Seq<char>, is_dir: bool) -> Seq<char> {
    if is_dir {
        Seq::empty()
    } else {
        match extension_of(name) {
            Some(e) => seq!['.'] + e,
            None => Seq::empty(),
        }
    }
}

pub fn extension_field_of(name: &Vec<char>, is_dir: bool) -> (r: Vec<char>)
    ensures
        r@ == extension_field(name@, is_dir),
{
    if is_dir {
        return Vec::new();
    }
    let dotdot = name.len() == 2 && name[0] == '.' && name[1] == '.';
    if name.len() == 0 || dotdot {
        proof {
            if name@ == seq!['.', '.'] {
            } else if dotdot {
                assert(name@ =~= seq!['.', '.']);
            }
        }
        return Vec::new();
    }
    assert(name@ != seq!['.', '.']) by {
        if name@ == seq!['.', '.'] {
            assert(name@.len() == 2 && name@[0] == '.' && name@[1] == '.');
        }
    }
    match crate::index_engine::rfind_char(name, '.') {
        Some(d) => {
            proof {
                crate::index_engine::lemma_last_index_of(name@, '.');
            }
            if d == 0 {
                Vec::new()
            } else {
                let mut r: Vec<char> = Vec::new();
                r.push('.');
                let tail = slice_chars(name, d + 1, name.len());
                push_all(&mut r, &tail);
                assert(r@ =~= seq!['.'] + name@.skip(d + 1));
                r
            }
        },
        None => Vec::new(),
    }
}

/// `C:\` for drive letter `C`.
pub open spec fn root_of(vl: char) -> Seq<char> {
    seq![vl, ':', '\\']
}

pub open spec fn attr_dir(a: u32) -> bool {
    a & FILE_ATTRIBUTE_DIRECTORY != 0
}

pub open spec fn attr_hidden(a: u32) -> bool {
    a & FILE_ATTRIBUTE_HIDDEN != 0
}

pub open spec fn attr_readonly(a: u32) -> bool {
    a & FILE_ATTRIBUTE_READONLY != 0
}

/// The path that a changed record stands for: its name joined to the resolved path of its
/// parent folder, or directly under the volume root when the parent does not resolve.
pub open spec fn change_path(r: UsnRecordView, pm: Map<u64, (Seq<char>, u64)>, vl: char, fuel: nat) -> Seq<char> {
    match resolve(pm, vl, r.parent_file_reference_number, fuel) {
        Some(pp) => join_path(pp, r.file_name),
        None => root_of(vl) + r.file_name,
    }
}

/// The entry that a changed record stands for: its full path as `change_path` gives it,
/// the resolved parent path (empty when the parent does not resolve), and the record's
/// time as the modification time.
pub open spec fn change_entry(r: UsnRecordView, pm: Map<u64, (Seq<char>, u64)>, vl: char, fuel: nat) -> FileEntryView {
    FileEntryView {
        id: 0,
        name: r.file_name,
        path: change_path(r, pm, vl, fuel),
        parent_path: match resolve(pm, vl, r.parent_file_reference_number, fuel) {
            Some(pp) => pp,
            None => Seq::empty(),
        },
        size: 0,
        created: 0,
        modified: (div_toward_zero(r.timestamp as int, 10_000_000) - 11644473600) as i64,
        accessed: 0,
        is_dir: attr_dir(r.file_attributes),
        is_hidden: attr_hidden(r.file_attributes),
        is_readonly: attr_readonly(r.file_attributes),
        extension: extension_field(r.file_name, attr_dir(r.file_attributes)),
        volume: seq![vl],
    }
}

/// The changes that one record gives, its paths resolved through `pm`. A record whose
/// reason is exactly "close" gives none. Creation or a new name gives an addition, else a
/// data change gives a modification; deletion gives a removal of the record's path, and
/// so does an old name.
pub open spec fn record_changes(r: UsnRecordView, pm: Map<u64, (Seq<char>, u64)>, vl: char, fuel: nat) -> Seq<FileChangeView> {
    if r.reason == USN_REASON_CLOSE {
        Seq::empty()
    } else {
        let create = r.reason & USN_REASON_FILE_CREATE != 0;
        let delete = r.reason & USN_REASON_FILE_DELETE != 0;
        let rename_new = r.reason & USN_REASON_RENAME_NEW_NAME != 0;
        let rename_old = r.reason & USN_REASON_RENAME_OLD_NAME != 0;
        let modified = r.reason & (USN_REASON_DATA_EXTEND | USN_REASON_DATA_OVERWRITE
            | USN_REASON_DATA_TRUNCATION) != 0;
        let e = change_entry(r, pm, vl, fuel);
        (if create || rename_new {
            seq![FileChangeView::Added(e)]
        } else if modified {
            seq![FileChangeView::Modified(e)]
        } else {
            Seq::empty()
        }) + (if delete {
            seq![FileChangeView::Deleted(e.path)]
        } else {
            Seq::empty()
        }) + (if rename_old {
            seq![FileChangeView::Deleted(e.path)]
        } else {
            Seq::empty()
        })
    }
}

pub open spec fn change_views(s: Seq<FileChange>) -> Seq<FileChangeView> {
    s.map_values(|c: FileChange| c@)
}

/// The most recent journal position of the records, or `start` when there are none.
pub open spec fn last_usn_or(rs: Seq<UsnRecordView>, start: i64) -> i64 {
    if rs.len() == 0 {
        start
    } else {
        rs.last().usn
    }
}

/// The file reference number after that of the last record, or `start` when there are
/// none.
pub open spec fn next_reference_or(rs: Seq<UsnRecordView>, start: u64) -> int {
    if rs.len() == 0 {
        start as int
    } else {
        rs.last().file_reference_number + 1
    }
}

pub open spec fn record_views(s: Seq<UsnRecord>) -> Seq<UsnRecordView> {
    s.map_values(|r: UsnRecord| r@)
}

/// The changes of a run of records, record after record. Each record's paths resolve
/// through the folders that the volume's enumeration `known` names, as updated by the
/// records before it.
pub open spec fn changes_of(rs: Seq<UsnRecordView>, known: Seq<UsnRecordView>, vl: char, fuel: nat) -> Seq<FileChangeView>
    decreases rs.len(),
{
    if rs.len() == 0 {
        Seq::empty()
    } else {
        changes_of(rs.drop_last(), known, vl, fuel) + record_changes(
            rs.last(),
            parent_map(known + rs.drop_last(), vl),
            vl,
            fuel,
        )
    }
}

/// Whether the enumeration keeps a record: its name is not empty, does not start with
/// `$`, and is not `.` or `..`.
pub open spec fn keeps_name(name: Seq<char>) -> bool {
    name.len() > 0 && name[0] != '$' && name != seq!['.'] && name != seq!['.', '.']
}

/// Name and parent of every kept record by reference number; a later record replaces an
/// earlier one. Reference 5, the root folder, is there first, named by the root.
pub open spec fn parent_map(rs: Seq<UsnRecordView>, vl: char) -> Map<u64, (Seq<char>, u64)>
    decreases rs.len(),
{
    if rs.len() == 0 {
        Map::empty().insert(5u64, (root_of(vl), 0u64))
    } else {
        let m = parent_map(rs.drop_last(), vl);
        if keeps_name(rs.last().file_name) {
            m.insert(rs.last().file_reference_number, (rs.last().file_name, rs.last().parent_file_reference_number))
        } else {
            m
        }
    }
}

/// `parent\name`, with no second backslash when the parent already ends with one.
pub open spec fn join_path(parent: Seq<char>, name: Seq<char>) -> Seq<char> {
    if ends_with(parent, seq!['\\']) {
        parent + name
    } else {
        parent + seq!['\\'] + name
    }
}

/// The full path of reference `r`: the root for reference 5; else the path of its parent
/// joined with its name, following at most `fuel` parent links; absent when a reference
/// on the way is not in the map.
pub open spec fn resolve(pm: Map<u64, (Seq<char>, u64)>, vl: char, r: u64, fuel: nat) -> Option<Seq<char>>
    decreases fuel,
{
    if r == 5 {
        Some(root_of(vl))
    } else if !pm.contains_key(r) || fuel == 0 {
        None
    } else {
        match resolve(pm, vl, pm[r].1, (fuel - 1) as nat) {
            Some(pp) => Some(join_path(pp, pm[r].0)),
            None => None,
        }
    }
}

/// The entry that the enumeration makes of a kept record whose path resolves. Its
/// parent path is the resolved path of its parent reference, or the volume root when that
/// does not resolve. (NTFS parents are folders; a parent reference that names a file is
/// resolved too, not replaced by the root as a resolver that caches only folders and
/// what it met on the way would give.)
pub open spec fn volume_entry(r: UsnRecordView, pm: Map<u64, (Seq<char>, u64)>, vl: char, fuel: nat) -> Option<FileEntryView> {
    match resolve(pm, vl, r.file_reference_number, fuel) {
        Some(full) => Some(
            FileEntryView {
                id: 0,
                name: r.file_name,
                path: full,
                parent_path: match resolve(pm, vl, r.parent_file_reference_number, fuel) {
                    Some(pp) => pp,
                    None => root_of(vl),
                },
                size: 0,
                created: 0,
                modified: (div_toward_zero(r.timestamp as int, 10_000_000) - 11644473600) as i64,
                accessed: 0,
                is_dir: attr_dir(r.file_attributes),
                is_hidden: attr_hidden(r.file_attributes),
                is_readonly: attr_readonly(r.file_attributes),
                extension: extension_field(r.file_name, attr_dir(r.file_attributes)),
                volume: seq![vl],
            },
        ),
        None => None,
    }
}

/// The entries of the kept records whose path resolves, in record order.
pub open spec fn volume_entries(rs: Seq<UsnRecordView>, all: Seq<UsnRecordView>, vl: char) -> Seq<FileEntryView>
    decreases rs.len(),
{
    if rs.len() == 0 {
        Seq::empty()
    } else {
        let prev = volume_entries(rs.drop_last(), all, vl);
        if keeps_name(rs.last().file_name) {
            match volume_entry(rs.last(), parent_map(all, vl), vl, (all.len() + 1) as nat) {
                Some(e) => prev.push(e),
                None => prev,
            }
        } else {
            prev
        }
    }
}

/// Following parent links with more fuel finds the same path.
pub proof fn lemma_resolve_more_fuel(pm: Map<u64, (Seq<char>, u64)>, vl: char, r: u64, f1: nat, f2: nat)
    requires
        f1 <= f2,
        resolve(pm, vl, r, f1) is Some,
    ensures
        resolve(pm, vl, r, f2) == resolve(pm, vl, r, f1),
    decreases f1,
{
    if r != 5 {
        lemma_resolve_more_fuel(pm, vl, pm[r].1, (f1 - 1) as nat, (f2 - 1) as nat);
    }
}

/// A deletion is reported with the full path through which the deleted file's own
/// reference resolves (the path that the enumeration gave its entry), when the folder
/// map names the file with the record's name and parent.
pub proof fn lemma_deletion_reports_path(
    r: UsnRecordView,
    pm: Map<u64, (Seq<char>, u64)>,
    vl: char,
    fuel: nat,
    p: Seq<char>,
)
    requires
        r.file_reference_number != 5,
        pm.contains_key(r.file_reference_number),
        pm[r.file_reference_number] == (r.file_name, r.parent_file_reference_number),
        resolve(pm, vl, r.file_reference_number, fuel) == Some(p),
        r.reason != USN_REASON_CLOSE,
        r.reason & USN_REASON_FILE_DELETE != 0,
    ensures
        record_changes(r, pm, vl, fuel).contains(FileChangeView::Deleted(p)),
{
    let pp = resolve(pm, vl, r.parent_file_reference_number, (fuel - 1) as nat);
    assert(pp is Some);
    lemma_resolve_more_fuel(pm, vl, r.parent_file_reference_number, (fuel - 1) as nat, fuel);
    assert(change_path(r, pm, vl, fuel) == p);
    let create = r.reason & USN_REASON_FILE_CREATE != 0;
    let rename_new = r.reason & USN_REASON_RENAME_NEW_NAME != 0;
    let modified = r.reason & (USN_REASON_DATA_EXTEND | USN_REASON_DATA_OVERWRITE
        | USN_REASON_DATA_TRUNCATION) != 0;
    let e = change_entry(r, pm, vl, fuel);
    let a: Seq<FileChangeView> = if create || rename_new {
        seq![FileChangeView::Added(e)]
    } else if modified {
        seq![FileChangeView::Modified(e)]
    } else {
        Seq::empty()
    };
    let cs = record_changes(r, pm, vl, fuel);
    assert(cs[a.len() as int] == FileChangeView::Deleted(p));
}

/// A record that reports a file's creation or its new name, and is more than a bare
/// close, first gives the addition of that file: with the record's name, at the record's
/// name joined to the path its parent resolves to, or directly under the volume root when
/// the parent does not resolve.
pub proof fn lemma_new_name_added(r: UsnRecordView, pm: Map<u64, (Seq<char>, u64)>, vl: char, fuel: nat)
    requires
        r.reason != USN_REASON_CLOSE,
        r.reason & USN_REASON_RENAME_NEW_NAME != 0 || r.reason & USN_REASON_FILE_CREATE != 0,
    ensures
        record_changes(r, pm, vl, fuel).len() > 0,
        adds_file(record_changes(r, pm, vl, fuel)[0], r.file_name, new_path(r, pm, vl, fuel)),
        record_changes(r, pm, vl, fuel)[0] matches FileChangeView::Added(e) && e.is_dir
            == attr_dir(r.file_attributes) && e.volume == seq![vl],
{
}

/// Whether a change adds a file of that name at that path.
pub open spec fn adds_file(c: FileChangeView, name: Seq<char>, path: Seq<char>) -> bool {
    match c {
        FileChangeView::Added(e) => e.name == name && e.path == path,
        _ => false,
    }
}

/// The path at which a record's file is added: its name joined to the path its parent
/// resolves to, or directly under the volume root.
pub open spec fn new_path(r: UsnRecordView, pm: Map<u64, (Seq<char>, u64)>, vl: char, fuel: nat) -> Seq<char> {
    match resolve(pm, vl, r.parent_file_reference_number, fuel) {
        Some(pp) => join_path(pp, r.file_name),
        None => root_of(vl) + r.file_name,
    }
}

/// A record whose reason is exactly "close" gives no change.
pub proof fn lemma_close_gives_nothing(r: UsnRecordView, pm: Map<u64, (Seq<char>, u64)>, vl: char, fuel: nat)
    requires
        r.reason == USN_REASON_CLOSE,
    ensures
        record_changes(r, pm, vl, fuel).len() == 0,
{
}

/// A record that reports a change of a file's data, but neither its creation nor a new
/// name, first gives a modification of the file under its name and path.
pub proof fn lemma_data_change_modified(r: UsnRecordView, pm: Map<u64, (Seq<char>, u64)>, vl: char, fuel: nat)
    requires
        r.reason != USN_REASON_CLOSE,
        r.reason & USN_REASON_RENAME_NEW_NAME == 0,
        r.reason & USN_REASON_FILE_CREATE == 0,
        r.reason & USN_REASON_DATA_EXTEND != 0 || r.reason & USN_REASON_DATA_OVERWRITE != 0
            || r.reason & USN_REASON_DATA_TRUNCATION != 0,
    ensures
        record_changes(r, pm, vl, fuel).len() > 0,
        record_changes(r, pm, vl, fuel)[0] matches FileChangeView::Modified(e) && e.name
            == r.file_name && e.path == new_path(r, pm, vl, fuel),
{
    let x = r.reason;
    assert(x & USN_REASON_DATA_EXTEND != 0 || x & USN_REASON_DATA_OVERWRITE != 0 || x
        & USN_REASON_DATA_TRUNCATION != 0 ==> x & (USN_REASON_DATA_EXTEND | USN_REASON_DATA_OVERWRITE
        | USN_REASON_DATA_TRUNCATION) != 0) by (bit_vector);
}

/// A record that reports a deletion or an old name, and is more than a bare close, gives
/// the removal of the path at which the file stood.
pub proof fn lemma_old_name_deleted(r: UsnRecordView, pm: Map<u64, (Seq<char>, u64)>, vl: char, fuel: nat)
    requires
        r.reason != USN_REASON_CLOSE,
        r.reason & USN_REASON_RENAME_OLD_NAME != 0 || r.reason & USN_REASON_FILE_DELETE != 0,
    ensures
        record_changes(r, pm, vl, fuel).contains(FileChangeView::Deleted(new_path(r, pm, vl, fuel))),
{
    let cs = record_changes(r, pm, vl, fuel);
    let create = r.reason & USN_REASON_FILE_CREATE != 0;
    let rename_new = r.reason & USN_REASON_RENAME_NEW_NAME != 0;
    let modified = r.reason & (USN_REASON_DATA_EXTEND | USN_REASON_DATA_OVERWRITE
        | USN_REASON_DATA_TRUNCATION) != 0;
    let e = change_entry(r, pm, vl, fuel);
    let a: Seq<FileChangeView> = if create || rename_new {
        seq![FileChangeView::Added(e)]
    } else if modified {
        seq![FileChangeView::Modified(e)]
    } else {
        Seq::empty()
    };
    assert(cs[a.len() as int] == FileChangeView::Deleted(e.path));
}

/// In a run of records, every record that reports a creation or a new name, and is more
/// than a bare close, gives an addition of its file under its name, its path resolved
/// through the folders known before it.
pub proof fn lemma_run_adds_new_names(rs: Seq<UsnRecordView>, known: Seq<UsnRecordView>, vl: char, fuel: nat, k: int)
    requires
        0 <= k < rs.len(),
        rs[k].reason != USN_REASON_CLOSE,
        rs[k].reason & USN_REASON_RENAME_NEW_NAME != 0 || rs[k].reason & USN_REASON_FILE_CREATE != 0,
    ensures
        exists|i: int|
            0 <= i < changes_of(rs, known, vl, fuel).len() && adds_file(
                #[trigger] changes_of(rs, known, vl, fuel)[i],
                rs[k].file_name,
                new_path(rs[k], parent_map(known + rs.take(k), vl), vl, fuel),
            ),
    decreases rs.len(),
{
    let pre = changes_of(rs.drop_last(), known, vl, fuel);
    if k == rs.len() - 1 {
        assert(rs.drop_last() =~= rs.take(k));
        let pm = parent_map(known + rs.drop_last(), vl);
        lemma_new_name_added(rs.last(), pm, vl, fuel);
        let cs = record_changes(rs.last(), pm, vl, fuel);
        assert(changes_of(rs, known, vl, fuel) == pre + cs);
        assert(changes_of(rs, known, vl, fuel)[pre.len() as int] == cs[0]);
    } else {
        let d = rs.drop_last();
        assert(d[k] == rs[k]);
        assert(d.take(k) =~= rs.take(k));
        lemma_run_adds_new_names(d, known, vl, fuel, k);
        let i = choose|i: int|
            0 <= i < pre.len() && adds_file(
                #[trigger] pre[i],
                rs[k].file_name,
                new_path(rs[k], parent_map(known + rs.take(k), vl), vl, fuel),
            );
        let cs = record_changes(rs.last(), parent_map(known + d, vl), vl, fuel);
        assert(changes_of(rs, known, vl, fuel) == pre + cs);
        assert(changes_of(rs, known, vl, fuel)[i] == pre[i]);
    }
}

/// The folder map holds the last kept record for a reference, with its name and parent.
proof fn lemma_parent_map_last(rs: Seq<UsnRecordView>, vl: char, k: int)
    requires
        0 <= k < rs.len(),
        keeps_name(rs[k].file_name),
        forall|j: int|
            k < j < rs.len() ==> #[trigger] rs[j].file_reference_number
                != rs[k].file_reference_number,
    ensures
        parent_map(rs, vl).contains_key(rs[k].file_reference_number),
        parent_map(rs, vl)[rs[k].file_reference_number] == (
            rs[k].file_name,
            rs[k].parent_file_reference_number,
        ),
    decreases rs.len(),
{
    if k < rs.len() - 1 {
        let d = rs.drop_last();
        assert(d[k] == rs[k]);
        assert forall|j: int| k < j < d.len() implies #[trigger] d[j].file_reference_number
            != d[k].file_reference_number by {
            assert(d[j] == rs[j]);
        }
        lemma_parent_map_last(d, vl, k);
        assert(rs[rs.len() - 1].file_reference_number != rs[k].file_reference_number);
    }
}

/// The entries of a run hold the entry of each kept record whose path resolves.
proof fn lemma_volume_entries_hold(rs: Seq<UsnRecordView>, all: Seq<UsnRecordView>, vl: char, k: int, e: FileEntryView)
    requires
        0 <= k < rs.len(),
        keeps_name(rs[k].file_name),
        volume_entry(rs[k], parent_map(all, vl), vl, (all.len() + 1) as nat) == Some(e),
    ensures
        volume_entries(rs, all, vl).contains(e),
    decreases rs.len(),
{
    let prev = volume_entries(rs.drop_last(), all, vl);
    if k == rs.len() - 1 {
        assert(volume_entries(rs, all, vl) == prev.push(e));
        assert(prev.push(e)[prev.len() as int] == e);
    } else {
        assert(rs.drop_last()[k] == rs[k]);
        lemma_volume_entries_hold(rs.drop_last(), all, vl, k, e);
        let j = choose|j: int| 0 <= j < prev.len() && prev[j] == e;
        assert(volume_entries(rs, all, vl)[j] == e);
    }
}

/// Enumerating a volume keeps no record whose name is empty, starts with `$`, or is `.`
/// or `..`: every entry it gives bears a name other than these.
pub proof fn lemma_enumeration_skips(rs: Seq<UsnRecordView>, all: Seq<UsnRecordView>, vl: char)
    ensures
        forall|i: int|
            0 <= i < volume_entries(rs, all, vl).len() ==> {
                let n = (#[trigger] volume_entries(rs, all, vl)[i]).name;
                n.len() > 0 && n[0] != '$' && n != seq!['.'] && n != seq!['.', '.']
            },
    decreases rs.len(),
{
    if rs.len() > 0 {
        lemma_enumeration_skips(rs.drop_last(), all, vl);
        let prev = volume_entries(rs.drop_last(), all, vl);
        let es = volume_entries(rs, all, vl);
        assert forall|i: int| 0 <= i < es.len() implies {
            let n = (#[trigger] es[i]).name;
            n.len() > 0 && n[0] != '$' && n != seq!['.'] && n != seq!['.', '.']
        } by {
            if i < prev.len() {
                assert(es[i] == prev[i]);
            }
        }
    }
}

/// Enumerating a volume keeps every record whose name is not empty, does not start with
/// `$` and is not `.` or `..`: when such a record is the last one for its reference and its
/// parent's path resolves, the volume's entries hold one with the record's name, at the
/// parent's path joined with the name.
pub proof fn lemma_enumeration_keeps(rs: Seq<UsnRecordView>, vl: char, k: int, pp: Seq<char>)
    requires
        0 <= k < rs.len(),
        rs[k].file_name.len() > 0,
        rs[k].file_name[0] != '$',
        rs[k].file_name != seq!['.'],
        rs[k].file_name != seq!['.', '.'],
        rs[k].file_reference_number != 5,
        forall|j: int|
            k < j < rs.len() ==> #[trigger] rs[j].file_reference_number
                != rs[k].file_reference_number,
        resolve(parent_map(rs, vl), vl, rs[k].parent_file_reference_number, rs.len() as nat)
            == Some(pp),
    ensures
        exists|i: int|
            0 <= i < volume_entries(rs, rs, vl).len() && (#[trigger] volume_entries(rs, rs, vl)[i]).name
                == rs[k].file_name && volume_entries(rs, rs, vl)[i].path == join_path(
                pp,
                rs[k].file_name,
            ) && volume_entries(rs, rs, vl)[i].is_dir == attr_dir(rs[k].file_attributes),
{
    let pm = parent_map(rs, vl);
    lemma_parent_map_last(rs, vl, k);
    let fuel = (rs.len() + 1) as nat;
    assert(resolve(pm, vl, rs[k].file_reference_number, fuel) == Some(join_path(pp, rs[k].file_name)));
    let e = volume_entry(rs[k], pm, vl, fuel)->0;
    lemma_volume_entries_hold(rs, rs, vl, k, e);
    let es = volume_entries(rs, rs, vl);
    let i = choose|i: int| 0 <= i < es.len() && es[i] == e;
    assert(es[i].name == rs[k].file_name);
}

pub open spec fn entry_views(s: Seq<FileEntry>) -> Seq<FileEntryView> {
    s.map_values(|e: FileEntry| e@)
}

pub open spec fn pm_view(m: Map<u64, (Vec<char>, u64)>) -> Map<u64, (Seq<char>, u64)> {
    m.map_values(|v: (Vec<char>, u64)| (v.0@, v.1))
}

fn copy_change(c: &FileChange) -> (r: FileChange)
    ensures
        r@ == c@,
{
    match c {
        FileChange::Added(e) => FileChange::Added(e.clone()),
        FileChange::Deleted(s) => FileChange::Deleted(s.clone()),
        FileChange::Modified(e) => FileChange::Modified(e.clone()),
        FileChange::Renamed(a, b) => FileChange::Renamed(a.clone(), b.clone()),
    }
}

fn keeps(name: &Vec<char>) -> (r: bool)
    ensures
        r == keeps_name(name@),
{
    if name.len() == 0 || name[0] == '$' {
        return false;
    }
    if name.len() == 1 && name[0] == '.' {
        assert(name@ =~= seq!['.']);
        return false;
    }
    if name.len() == 2 && name[0] == '.' && name[1] == '.' {
        assert(name@ =~= seq!['.', '.']);
        return false;
    }
    proof {
        if name@ == seq!['.'] {
            assert(name@.len() == 1);
        }
        if name@ == seq!['.', '.'] {
            assert(name@.len() == 2 && name@[1] == '.');
        }
    }
    true
}

fn join(parent: &Vec<char>, name: &Vec<char>) -> (r: Vec<char>)
    ensures
        r@ == join_path(parent@, name@),
{
    let mut r = parent.clone();
    let ends = parent.len() > 0 && parent[parent.len() - 1] == '\\';
    proof {
        if ends {
            assert(parent@.skip(parent@.len() - 1) =~= seq!['\\']);
        }
        if ends_with(parent@, seq!['\\']) {
            assert(parent@.skip(parent@.len() - 1)[0] == '\\');
        }
    }
    if !ends {
        r.push('\\');
    }
    push_all(&mut r, name);
    r
}

fn root_chars(vl: char) -> (r: Vec<char>)
    ensures
        r@ == root_of(vl),
{
    let mut r: Vec<char> = Vec::new();
    r.push(vl);
    r.push(':');
    r.push('\\');
    assert(r@ =~= root_of(vl));
    r
}

fn resolve_path(
    ref_num: u64,
    path_map: &HashMap<u64, (Vec<char>, u64)>,
    volume_letter: char,
    fuel: usize,
) -> (r: Option<Vec<char>>)
    ensures
        match r {
            Some(p) => resolve(pm_view(path_map@), volume_letter, ref_num, fuel as nat) == Some(p@),
            None => resolve(pm_view(path_map@), volume_letter, ref_num, fuel as nat) is None,
        },
    decreases fuel,
{
    if ref_num == 5 {
        return Some(root_chars(volume_letter));
    }
    match path_map.get(&ref_num) {
        None => {
            assert(!pm_view(path_map@).contains_key(ref_num));
            None
        },
        Some(node) => {
            assert(pm_view(path_map@).contains_key(ref_num));
            assert(pm_view(path_map@)[ref_num] == (node.0@, node.1));
            if fuel == 0 {
                return None;
            }
            match resolve_path(node.1, path_map, volume_letter, fuel - 1) {
                Some(pp) => Some(join(&pp, &node.0)),
                None => None,
            }
        },
    }
}

fn entry_for_change(
    record: &UsnRecord,
    path_map: &HashMap<u64, (Vec<char>, u64)>,
    volume_letter: char,
    fuel: usize,
) -> (e: FileEntry)
    ensures
        e@ == change_entry(record@, pm_view(path_map@), volume_letter, fuel as nat),
{
    let is_dir = (record.file_attributes & FILE_ATTRIBUTE_DIRECTORY) != 0;
    let is_hidden = (record.file_attributes & FILE_ATTRIBUTE_HIDDEN) != 0;
    let is_readonly = (record.file_attributes & FILE_ATTRIBUTE_READONLY) != 0;
    let name = chars_of(record.file_name.as_str());
    let extension = extension_field_of(&name, is_dir);
    let modified = filetime_to_unix_epoch(record.timestamp);
    let (path, parent_path) = match resolve_path(
        record.parent_file_reference_number,
        path_map,
        volume_letter,
        fuel,
    ) {
        Some(pp) => {
            let full = join(&pp, &name);
            (full, pp)
        },
        None => {
            let mut full = root_chars(volume_letter);
            push_all(&mut full, &name);
            (full, Vec::new())
        },
    };
    let mut vol: Vec<char> = Vec::new();
    vol.push(volume_letter);
    assert(vol@ =~= seq![volume_letter]);
    FileEntry {
        id: 0,
        name: record.file_name.clone(),
        path: string_of(&path),
        parent_path: string_of(&parent_path),
        size: 0,
        created: 0,
        modified,
        accessed: 0,
        is_dir,
        is_hidden,
        is_readonly,
        extension: string_of(&extension),
        volume: string_of(&vol),
    }
}

/// Notes a record's name and parent in the folder map when the enumeration keeps it.
fn note_record(path_map: &mut HashMap<u64, (Vec<char>, u64)>, record: &UsnRecord)
    ensures
        pm_view(final(path_map)@) == (if keeps_name(record@.file_name) {
            pm_view(old(path_map)@).insert(
                record@.file_reference_number,
                (record@.file_name, record@.parent_file_reference_number),
            )
        } else {
            pm_view(old(path_map)@)
        }),
{
    let name = chars_of(record.file_name.as_str());
    if keeps(&name) {
        path_map.insert(record.file_reference_number, (name, record.parent_file_reference_number));
        assert(pm_view(path_map@) =~= pm_view(old(path_map)@).insert(
            record@.file_reference_number,
            (record@.file_name, record@.parent_file_reference_number),
        ));
    }
}

/// The folder map of a run of records: see `parent_map`.
fn folder_map(volume_letter: char, records: &Vec<UsnRecord>) -> (m: HashMap<u64, (Vec<char>, u64)>)
    ensures
        pm_view(m@) == parent_map(record_views(records@), volume_letter),
{
    let ghost rs = record_views(records@);
    let mut path_map: HashMap<u64, (Vec<char>, u64)> = HashMap::new();
    path_map.insert(5, (root_chars(volume_letter), 0));
    let mut i: usize = 0;
    assert(rs.take(0) =~= Seq::<UsnRecordView>::empty());
    assert(pm_view(path_map@) =~= parent_map(rs.take(0), volume_letter));
    while i < records.len()
        invariant
            i <= records.len(),
            rs == record_views(records@),
            pm_view(path_map@) == parent_map(rs.take(i as int), volume_letter),
        decreases records.len() - i,
    {
        assert(rs.take(i + 1).drop_last() =~= rs.take(i as int));
        assert(rs.take(i + 1).last() == records@[i as int]@);
        note_record(&mut path_map, &records[i]);
        i = i + 1;
    }
    assert(rs.take(records.len() as int) =~= rs);
    path_map
}

/// The changes that one record gives: see `record_changes`.
fn changes_for(
    record: &UsnRecord,
    path_map: &HashMap<u64, (Vec<char>, u64)>,
    volume_letter: char,
    fuel: usize,
) -> (r: Vec<FileChange>)
    ensures
        change_views(r@) == record_changes(record@, pm_view(path_map@), volume_letter, fuel as nat),
{
    let mut changes: Vec<FileChange> = Vec::new();
    let reason = record.reason;
    if reason == USN_REASON_CLOSE {
        assert(change_views(changes@) =~= Seq::<FileChangeView>::empty());
        return changes;
    }
    let is_create = (reason & USN_REASON_FILE_CREATE) != 0;
    let is_delete = (reason & USN_REASON_FILE_DELETE) != 0;
    let is_rename_new = (reason & USN_REASON_RENAME_NEW_NAME) != 0;
    let is_rename_old = (reason & USN_REASON_RENAME_OLD_NAME) != 0;
    let is_modified = (reason & (USN_REASON_DATA_EXTEND | USN_REASON_DATA_OVERWRITE
        | USN_REASON_DATA_TRUNCATION)) != 0;
    let ghost e = change_entry(record@, pm_view(path_map@), volume_letter, fuel as nat);
    let ghost first: Seq<FileChangeView> = if is_create || is_rename_new {
        seq![FileChangeView::Added(e)]
    } else if is_modified {
        seq![FileChangeView::Modified(e)]
    } else {
        Seq::empty()
    };
    let entry = entry_for_change(record, path_map, volume_letter, fuel);
    let path = entry.path.clone();
    if is_create || is_rename_new || is_modified {
        if is_create || is_rename_new {
            changes.push(FileChange::Added(entry));
        } else {
            changes.push(FileChange::Modified(entry));
        }
    }
    assert(change_views(changes@) =~= first);
    let ghost second = change_views(changes@);
    if is_delete {
        changes.push(FileChange::Deleted(path.clone()));
    }
    assert(change_views(changes@) =~= second + (if is_delete {
        seq![FileChangeView::Deleted(e.path)]
    } else {
        Seq::empty()
    }));
    let ghost third = change_views(changes@);
    if is_rename_old {
        changes.push(FileChange::Deleted(path));
    }
    assert(change_views(changes@) =~= third + (if is_rename_old {
        seq![FileChangeView::Deleted(e.path)]
    } else {
        Seq::empty()
    }));
    changes
}

impl UsnReader {
    /// The changes of a run of records, in record order: see `changes_of`. `known` holds
    /// the volume's enumerated records, through which the changed records' folders
    /// resolve to full paths, the same paths that `enumerate_volume` gives their entries.
    pub fn changes_from_records(known: &Vec<UsnRecord>, records: &Vec<UsnRecord>, volume_letter: char) -> (r: Vec<FileChange>)
        requires
            known.len() + records.len() < usize::MAX,
        ensures
            change_views(r@) == changes_of(
                record_views(records@),
                record_views(known@),
                volume_letter,
                (known.len() + records.len() + 1) as nat,
            ),
    {
        let ghost rs = record_views(records@);
        let ghost kn = record_views(known@);
        let fuel = known.len() + records.len() + 1;
        let mut path_map = folder_map(volume_letter, known);
        let mut out: Vec<FileChange> = Vec::new();
        let mut i: usize = 0;
        assert(rs.take(0) =~= Seq::<UsnRecordView>::empty());
        assert(kn + rs.take(0) =~= kn);
        assert(change_views(out@) =~= Seq::<FileChangeView>::empty());
        while i < records.len()
            invariant
                i <= records.len(),
                fuel == known.len() + records.len() + 1,
                rs == record_views(records@),
                kn == record_views(known@),
                pm_view(path_map@) == parent_map(kn + rs.take(i as int), volume_letter),
                change_views(out@) == changes_of(rs.take(i as int), kn, volume_letter, fuel as nat),
            decreases records.len() - i,
        {
            assert(rs.take(i + 1).drop_last() =~= rs.take(i as int));
            assert(rs.take(i + 1).last() == records@[i as int]@);
            let more = changes_for(&records[i], &path_map, volume_letter, fuel);
            let ghost before = change_views(out@);
            let mut j: usize = 0;
            while j < more.len()
                invariant
                    j <= more.len(),
                    change_views(out@) == before + change_views(more@).take(j as int),
                decreases more.len() - j,
            {
                let c = copy_change(&more[j]);
                let ghost prev = out@;
                out.push(c);
                assert(change_views(out@) =~= change_views(prev).push(more@[j as int]@));
                assert(change_views(more@).take(j + 1) =~= change_views(more@).take(j as int).push(
                    more@[j as int]@,
                ));
                assert(change_views(out@) =~= before + change_views(more@).take(j + 1));
                j = j + 1;
            }
            assert(change_views(more@).take(more.len() as int) =~= change_views(more@));
            note_record(&mut path_map, &records[i]);
            assert((kn + rs.take(i + 1)).drop_last() =~= kn + rs.take(i as int));
            assert((kn + rs.take(i + 1)).last() == records@[i as int]@);
            i = i + 1;
        }
        assert(rs.take(records.len() as int) =~= rs);
        out
    }

    /// One read of the journal: the changes of the records decoded from
    /// `buffer[4..bytes_returned]`, their paths resolved through the volume's enumerated
    /// records `known`, and the position to read from next, one past the last record's (or
    /// past `start_usn` when the buffer holds none).
    pub fn read_changes(
        volume_letter: char,
        start_usn: i64,
        known: &Vec<UsnRecord>,
        buffer: &[u8],
        bytes_returned: usize,
    ) -> (r: (Vec<FileChange>, i64))
        requires
            bytes_returned <= buffer@.len(),
            last_usn_or(records_from(buffer@, 4, bytes_returned as int), start_usn) < i64::MAX,
            known.len() + records_from(buffer@, 4, bytes_returned as int).len() < usize::MAX,
        ensures
            change_views(r.0@) == changes_of(
                records_from(buffer@, 4, bytes_returned as int),
                record_views(known@),
                volume_letter,
                (known.len() + records_from(buffer@, 4, bytes_returned as int).len() + 1) as nat,
            ),
            r.1 == last_usn_or(records_from(buffer@, 4, bytes_returned as int), start_usn) + 1,
    {
        let records = parse_records(buffer, bytes_returned);
        assert(record_views(records@) =~= records@.map_values(|x: UsnRecord| x@));
        let changes = Self::changes_from_records(known, &records, volume_letter);
        let next = Self::next_start_usn(&records, start_usn);
        (changes, next)
    }

    /// The journal position to read from next: one past the last record's, or one past
    /// `start_usn` when there is no record.
    pub fn next_start_usn(records: &Vec<UsnRecord>, start_usn: i64) -> (r: i64)
        requires
            last_usn_or(record_views(records@), start_usn) < i64::MAX,
        ensures
            r == last_usn_or(record_views(records@), start_usn) + 1,
    {
        if records.len() == 0 {
            start_usn + 1
        } else {
            assert(record_views(records@).last() == records@.last()@);
            records[records.len() - 1].usn + 1
        }
    }

    /// The file reference number to enumerate from next: one past the last record's, or
    /// `start` when there is no record.
    pub fn next_start_reference(records: &Vec<UsnRecord>, start: u64) -> (r: u64)
        requires
            next_reference_or(record_views(records@), start) <= u64::MAX,
        ensures
            r == next_reference_or(record_views(records@), start),
    {
        if records.len() == 0 {
            start
        } else {
            assert(record_views(records@).last() == records@.last()@);
            records[records.len() - 1].file_reference_number + 1
        }
    }

    /// The index entries of a whole volume from its enumerated records: every kept record
    /// whose path resolves through the parent references gives an entry, in record order.
    /// Resolution follows at most one link more than there are records, which every chain
    /// without a cycle meets.
    pub fn enumerate_volume(volume_letter: char, records: &Vec<UsnRecord>) -> (r: Vec<FileEntry>)
        requires
            records.len() < usize::MAX,
        ensures
            entry_views(r@) == volume_entries(record_views(records@), record_views(records@), volume_letter),
    {
        let ghost rs = record_views(records@);
        if records.len() == 0 {
            let empty: Vec<FileEntry> = Vec::new();
            assert(entry_views(empty@) =~= Seq::<FileEntryView>::empty());
            return empty;
        }
        let mut path_map: HashMap<u64, (Vec<char>, u64)> = HashMap::new();
        path_map.insert(5, (root_chars(volume_letter), 0));
        let mut i: usize = 0;
        assert(rs.take(0) =~= Seq::<UsnRecordView>::empty());
        assert(pm_view(path_map@) =~= parent_map(rs.take(0), volume_letter));
        while i < records.len()
            invariant
                i <= records.len(),
                rs == record_views(records@),
                pm_view(path_map@) == parent_map(rs.take(i as int), volume_letter),
            decreases records.len() - i,
        {
            let record = &records[i];
            assert(rs.take(i + 1).drop_last() =~= rs.take(i as int));
            assert(rs.take(i + 1).last() == record@);
            let name = chars_of(record.file_name.as_str());
            if keeps(&name) {
                path_map.insert(
                    record.file_reference_number,
                    (name, record.parent_file_reference_number),
                );
            }
            i = i + 1;
            assert(pm_view(path_map@) =~= parent_map(rs.take(i as int), volume_letter));
        }
        assert(rs.take(records.len() as int) =~= rs);
        let fuel = records.len() + 1;
        let mut entries: Vec<FileEntry> = Vec::new();
        let mut k: usize = 0;
        assert(entry_views(entries@) =~= volume_entries(rs.take(0), rs, volume_letter));
        while k < records.len()
            invariant
                k <= records.len(),
                fuel == records.len() + 1,
                rs == record_views(records@),
                pm_view(path_map@) == parent_map(rs, volume_letter),
                entry_views(entries@) == volume_entries(rs.take(k as int), rs, volume_letter),
            decreases records.len() - k,
        {
            let record = &records[k];
            assert(rs.take(k + 1).drop_last() =~= rs.take(k as int));
            assert(rs.take(k + 1).last() == record@);
            let name = chars_of(record.file_name.as_str());
            if keeps(&name) {
                match resolve_path(record.file_reference_number, &path_map, volume_letter, fuel) {
                    Some(full_path) => {
                        let is_dir = (record.file_attributes & FILE_ATTRIBUTE_DIRECTORY) != 0;
                        let is_hidden = (record.file_attributes & FILE_ATTRIBUTE_HIDDEN) != 0;
                        let is_readonly = (record.file_attributes & FILE_ATTRIBUTE_READONLY) != 0;
                        let parent_path = match resolve_path(
                            record.parent_file_reference_number,
                            &path_map,
                            volume_letter,
                            fuel,
                        ) {
                            Some(pp) => pp,
                            None => root_chars(volume_letter),
                        };
                        let extension = extension_field_of(&name, is_dir);
                        let modified = filetime_to_unix_epoch(record.timestamp);
                        let mut vol: Vec<char> = Vec::new();
                        vol.push(volume_letter);
                        assert(vol@ =~= seq![volume_letter]);
                        let entry = FileEntry {
                            id: 0,
                            name: record.file_name.clone(),
                            path: string_of(&full_path),
                            parent_path: string_of(&parent_path),
                            size: 0,
                            created: 0,
                            modified,
                            accessed: 0,
                            is_dir,
                            is_hidden,
                            is_readonly,
                            extension: string_of(&extension),
                            volume: string_of(&vol),
                        };
                        let ghost before = entry_views(entries@);
                        entries.push(entry);
                        assert(entry_views(entries@) =~= before.push(entry@));
                    },
                    None => {},
                }
            }
            k = k + 1;
        }
        assert(rs.take(records.len() as int) =~= rs);
        entries
    }

    /// Next journal position, journal id and largest position of a journal query.
    pub fn query_journal_id(journal: &USN_JOURNAL_DATA_V0) -> (r: (i64, u64, u64))
        ensures
            r.0 == journal.next_usn,
            r.1 == journal.usn_journal_id,
            r.2 == journal.max_usn as u64,
    {
        (journal.next_usn, journal.usn_journal_id, journal.max_usn as u64)
    }

    /// The journal can be used when the volume opens and the journal query succeeds.
    pub fn is_usn_available(volume_opened: bool, journal_queried: bool) -> (r: bool)
        ensures
            r == (volume_opened && journal_queried),
    {
        volume_opened && journal_queried
    }
}

} // verus!
