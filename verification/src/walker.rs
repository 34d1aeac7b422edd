//! The rules of the directory walk that indexes a folder tree without the
//! journal: which folders are entered, which listed items are kept, what entry
//! an item gives, and how the entries are numbered. Listing the folders is the
//! caller's part.
use vstd::prelude::*;
use crate::text::{
    chars_of, contains, contains_chars, find_char, index_of_char, lemma_index_of_char, lower,
    lower_chars, lower_vec, slice_chars, split_char, string_of,
};
use crate::types::{FileEntry, FileEntryView};
use crate::usn_reader::{extension_field, extension_field_of};

verus! {

/// The walker of folder trees.
pub struct FsWalker;

/// The drive part of a root path: the text before its first colon, or all of it.
pub open spec fn volume_part(root: Seq<char>) -> Seq<char> {
    match index_of_char(root, ':') {
        Some(k) => root.take(k),
        None => root,
    }
}

/// Folders of the system that the walk never enters, by their lower-cased path.
pub open spec fn system_dir(l: Seq<char>) -> bool {
    contains(l, "\\windows\\system32"@) || contains(l, "\\windows\\system"@) || contains(
        l,
        "\\windows\\winsxs"@,
    ) || contains(l, "\\.bin"@) || contains(l, "\\system volume information"@)
}

/// Whether some non-empty pattern, lower-cased, occurs in the lower-cased text `l`.
pub open spec fn excluded_by(l: Seq<char>, pats: Seq<Seq<char>>) -> bool {
    exists|k: int| 0 <= k < pats.len() && pats[k].len() > 0 && #[trigger] contains(l, lower(pats[k]))
}

pub open spec fn strs(v: Seq<String>) -> Seq<Seq<char>> {
    v.map_values(|s: String| s@)
}

/// Whether the walk enters a folder: within the depth limit (0 is none), not a system
/// folder, and not matched by an exclude pattern.
pub open spec fn walks(dir: Seq<char>, max_depth: usize, depth: usize, pats: Seq<Seq<char>>) -> bool {
    !(max_depth > 0 && depth > max_depth) && !system_dir(lower(dir)) && !excluded_by(lower(dir), pats)
}

/// Whether a listed item is kept: not a reparse point, not hidden by a leading dot, and
/// its lower-cased name not matched by an exclude pattern.
pub open spec fn keeps_item(name: Seq<char>, attributes: u32, pats: Seq<Seq<char>>) -> bool {
    attributes & 0x400 == 0 && !(name.len() > 0 && name[0] == '.') && !excluded_by(lower(name), pats)
}

/// The entry a kept item gives, with id 0.
pub open spec fn walked_entry(
    name: Seq<char>,
    path: Seq<char>,
    parent: Seq<char>,
    is_dir: bool,
    attributes: u32,
    size: u64,
    times: (i64, i64, i64),
    volume: Seq<char>,
) -> FileEntryView {
    FileEntryView {
        id: 0,
        name,
        path,
        parent_path: parent,
        size,
        created: times.0,
        modified: times.1,
        accessed: times.2,
        is_dir,
        is_hidden: attributes & 2 != 0,
        is_readonly: attributes & 1 != 0,
        extension: extension_field(name, is_dir),
        volume,
    }
}

fn excluded(l: &Vec<char>, pats: &Vec<String>) -> (r: bool)
    ensures
        r == excluded_by(l@, strs(pats@)),
{
    let mut k: usize = 0;
    while k < pats.len()
        invariant
            k <= pats.len(),
            forall|j: int| 0 <= j < k ==> !(strs(pats@)[j].len() > 0 && #[trigger] contains(l@, lower(strs(pats@)[j]))),
        decreases pats.len() - k,
    {
        let p = chars_of(pats[k].as_str());
        if p.len() > 0 {
            let lp = lower_vec(&p);
            if contains_chars(l, &lp) {
                assert(strs(pats@)[k as int] == p@);
                return true;
            }
        }
        k = k + 1;
    }
    proof {
        if excluded_by(l@, strs(pats@)) {
            let j = choose|j: int| 0 <= j < strs(pats@).len() && strs(pats@)[j].len() > 0 && #[trigger] contains(l@, lower(strs(pats@)[j]));
            assert(false);
        }
    }
    false
}

impl FsWalker {
    /// The volume name of a root path: see `volume_part`.
    pub fn volume_of(root: &str) -> (r: String)
        ensures
            r@ == volume_part(root@),
    {
        let cs = chars_of(root);
        match find_char(&cs, ':') {
            Some(k) => {
                proof {
                    lemma_index_of_char(cs@, ':');
                }
                let v = slice_chars(&cs, 0, k);
                string_of(&v)
            },
            None => string_of(&cs),
        }
    }

    /// Whether the walk enters a folder: see `walks`.
    pub fn walks_dir(dir: &str, max_depth: usize, current_depth: usize, exclude_patterns: &Vec<String>) -> (r: bool)
        ensures
            r == walks(dir@, max_depth, current_depth, strs(exclude_patterns@)),
    {
        if max_depth > 0 && current_depth > max_depth {
            return false;
        }
        let l = lower_chars(dir);
        if contains_chars(&l, &chars_of("\\windows\\system32")) || contains_chars(
            &l,
            &chars_of("\\windows\\system"),
        ) || contains_chars(&l, &chars_of("\\windows\\winsxs")) || contains_chars(
            &l,
            &chars_of("\\.bin"),
        ) || contains_chars(&l, &chars_of("\\system volume information")) {
            return false;
        }
        !excluded(&l, exclude_patterns)
    }

    /// The entry of a listed item, or nothing when the item is skipped: see `keeps_item`
    /// and `walked_entry`.
    pub fn entry_for(
        name: &str,
        path: &str,
        parent: &str,
        is_dir: bool,
        attributes: u32,
        size: u64,
        times: (i64, i64, i64),
        volume: &str,
        exclude_patterns: &Vec<String>,
    ) -> (r: Option<FileEntry>)
        ensures
            match r {
                Some(e) => keeps_item(name@, attributes, strs(exclude_patterns@)) && e@ == walked_entry(
                    name@,
                    path@,
                    parent@,
                    is_dir,
                    attributes,
                    size,
                    times,
                    volume@,
                ),
                None => !keeps_item(name@, attributes, strs(exclude_patterns@)),
            },
    {
        if attributes & 0x400 != 0 {
            return None;
        }
        let n = chars_of(name);
        if n.len() > 0 && n[0] == '.' {
            return None;
        }
        let l = lower_vec(&n);
        if excluded(&l, exclude_patterns) {
            return None;
        }
        let ext = extension_field_of(&n, is_dir);
        Some(
            FileEntry {
                id: 0,
                name: name.to_owned(),
                path: path.to_owned(),
                parent_path: parent.to_owned(),
                size,
                created: times.0,
                modified: times.1,
                accessed: times.2,
                is_dir,
                is_hidden: attributes & 2 != 0,
                is_readonly: attributes & 1 != 0,
                extension: string_of(&ext),
                volume: volume.to_owned(),
            },
        )
    }

    /// Numbers the entries 1, 2, ... in order, and changes nothing else.
    pub fn number_entries(entries: &mut Vec<FileEntry>)
        requires
            old(entries).len() < i64::MAX,
        ensures
            final(entries).len() == old(entries).len(),
            forall|i: int| 0 <= i < final(entries).len() ==> #[trigger] final(entries)@[i]@ == crate::index_engine::with_id(
                old(entries)@[i]@,
                (i + 1) as i64,
            ),
    {
        let mut i: usize = 0;
        while i < entries.len()
            invariant
                i <= entries.len(),
                entries.len() == old(entries).len(),
                old(entries).len() < i64::MAX,
                forall|k: int| 0 <= k < i ==> #[trigger] entries@[k]@ == crate::index_engine::with_id(
                    old(entries)@[k]@,
                    (k + 1) as i64,
                ),
                forall|k: int| i <= k < entries.len() ==> #[trigger] entries@[k] == old(entries)@[k],
            decreases entries.len() - i,
        {
            let mut e = entries[i].clone();
            e.id = (i + 1) as i64;
            entries.set(i, e);
            i = i + 1;
        }
    }
}

} // verus!
