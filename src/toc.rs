use crate::bytes::{copy_range, le32, le_u32_at};
use crate::error::Error;
use vstd::prelude::*;

verus! {

/// The number of group-descriptor slots at the table-of-contents root.
pub const GROUP_SLOTS: u64 = 7;

/// A group descriptor: the group's kind and where its sub-table starts.
#[derive(Debug, Clone, Copy, PartialEq, Eq, Structural)]
pub struct TableEntry {
    pub kind: u32,
    pub table_offset: u32,
}

/// A file of the archive region: the kind of its group, where it starts,
/// and how many bytes it spans.
#[derive(Debug, Clone, Copy, PartialEq, Eq, Structural)]
pub struct FileEntry {
    pub kind: u32,
    pub offset: u32,
    pub size: u32,
}

/// Reading the group descriptor at `at`.
pub open spec fn descriptor_at(data: Seq<u8>, at: int) -> Result<TableEntry, Error> {
    if at > data.len() {
        Err(Error::OutOfBounds)
    } else if at + 8 > data.len() {
        Err(Error::MalformedTableEntry)
    } else {
        Ok(TableEntry { kind: le32(data, at) as u32, table_offset: le32(data, at + 4) as u32 })
    }
}

/// Reading slot `j` of the sub-table at `table`.
pub open spec fn slot_at(data: Seq<u8>, table: int, j: int) -> Result<u32, Error> {
    if table > data.len() {
        Err(Error::OutOfBounds)
    } else if table + 4 * j + 4 > data.len() {
        Err(Error::TruncatedStream)
    } else {
        Ok(le32(data, table + 4 * j) as u32)
    }
}

/// Scanning slots `j` up to `count` of the sub-table at `table`, appending
/// a file of kind `kind` to `acc` for each nonzero slot up to the first zero.
pub open spec fn scan_slots(
    data: Seq<u8>,
    kind: u32,
    table: int,
    count: int,
    j: int,
    acc: Seq<FileEntry>,
) -> Result<Seq<FileEntry>, Error>
    decreases count - j,
{
    if j >= count {
        Ok(acc)
    } else {
        match slot_at(data, table, j) {
            Err(e) => Err(e),
            Ok(offset) => if offset == 0 {
                Ok(acc)
            } else {
                scan_slots(
                    data,
                    kind,
                    table,
                    count,
                    j + 1,
                    acc.push(FileEntry { kind, offset, size: 0 }),
                )
            },
        }
    }
}

/// Where the sub-table of a group ends, given the descriptor after it.
pub open spec fn table_end(root: int, next: TableEntry) -> int {
    if next.table_offset == 0 {
        root
    } else {
        next.table_offset as int
    }
}

/// Walking the groups from slot `i` on, with the files `acc` found so far;
/// every file still has size zero.
pub open spec fn walk_groups(data: Seq<u8>, root: int, i: int, acc: Seq<FileEntry>) -> Result<
    Seq<FileEntry>,
    Error,
>
    decreases GROUP_SLOTS - i,
{
    if i >= GROUP_SLOTS {
        Ok(acc)
    } else {
        match descriptor_at(data, root + 8 * i) {
            Err(e) => Err(e),
            Ok(group) => if group.kind == 0 {
                Ok(acc)
            } else {
                match descriptor_at(data, root + 8 * i + 8) {
                    Err(e) => Err(e),
                    Ok(next) => {
                        let end = table_end(root, next);
                        if end < group.table_offset {
                            Err(Error::OutOfBounds)
                        } else {
                            match scan_slots(
                                data,
                                group.kind,
                                group.table_offset as int,
                                (end - group.table_offset) / 4,
                                0,
                                acc,
                            ) {
                                Err(e) => Err(e),
                                Ok(a) => walk_groups(data, root, i + 1, a),
                            }
                        }
                    },
                }
            },
        }
    }
}

/// Where file `i` of `files` ends: where the next one starts, or at `root`
/// for the last one.
pub open spec fn file_end(files: Seq<FileEntry>, root: int, i: int) -> int {
    if i + 1 < files.len() {
        files[i + 1].offset as int
    } else {
        root
    }
}

/// `files` with each size set to the distance to the file's end; an error
/// if some file would end before it starts.
pub open spec fn with_sizes(files: Seq<FileEntry>, root: int) -> Result<Seq<FileEntry>, Error> {
    if forall|i: int| 0 <= i < files.len() ==> files[i].offset <= #[trigger] file_end(files, root, i) {
        Ok(
            Seq::new(
                files.len(),
                |i: int|
                    FileEntry {
                        kind: files[i].kind,
                        offset: files[i].offset,
                        size: (file_end(files, root, i) - files[i].offset) as u32,
                    },
            ),
        )
    } else {
        Err(Error::OutOfBounds)
    }
}

/// The files that the table of contents of the archive region `data`
/// lists, in order.
pub open spec fn listed_files(data: Seq<u8>) -> Result<Seq<FileEntry>, Error> {
    if data.len() < 4 {
        Err(Error::MalformedTableEntry)
    } else {
        let root = le32(data, 0);
        match walk_groups(data, root, 0, Seq::empty()) {
            Err(e) => Err(e),
            Ok(files) => with_sizes(files, root),
        }
    }
}

/// Reads the group descriptor at `at`.
pub fn parse_table_of_contents_entry(data: &[u8], at: u64) -> (r: Result<TableEntry, Error>)
    ensures
        r == descriptor_at(data@, at as int),
{
    if at > data.len() as u64 {
        return Err(Error::OutOfBounds);
    }
    let at = at as usize;
    if data.len() - at < 8 {
        return Err(Error::MalformedTableEntry);
    }
    Ok(TableEntry { kind: le_u32_at(data, at), table_offset: le_u32_at(data, at + 4) })
}

/// Reads slot `entry` of the sub-table at `table`.
pub fn get_file_offset(data: &[u8], table: u64, entry: u64) -> (r: Result<u32, Error>)
    ensures
        r == slot_at(data@, table as int, entry as int),
{
    if table > data.len() as u64 {
        return Err(Error::OutOfBounds);
    }
    let rest = data.len() as u64 - table;
    if rest < 4 || entry > (rest - 4) / 4 {
        return Err(Error::TruncatedStream);
    }
    Ok(le_u32_at(data, (table + 4 * entry) as usize))
}

/// Lists the files of the archive region `archive_data`, in the order in
/// which its table of contents holds them, each with its size.
pub fn unpack(archive_data: &Vec<u8>) -> (r: Result<Vec<FileEntry>, Error>)
    ensures
        match r {
            Ok(v) => listed_files(archive_data@) == Ok::<Seq<FileEntry>, Error>(v@),
            Err(e) => listed_files(archive_data@) == Err::<Seq<FileEntry>, Error>(e),
        },
{
    let data = archive_data.as_slice();
    if data.len() < 4 {
        return Err(Error::MalformedTableEntry);
    }
    let root = le_u32_at(data, 0);
    let ghost full = walk_groups(data@, root as int, 0, Seq::empty());
    let mut files: Vec<FileEntry> = Vec::new();
    let mut i: u64 = 0;
    while i < GROUP_SLOTS
        invariant
            data@ == archive_data@,
            data@.len() >= 4,
            root as int == le32(data@, 0),
            full == walk_groups(data@, root as int, 0, Seq::empty()),
            full == walk_groups(data@, root as int, i as int, files@),
        ensures
            full == Ok::<Seq<FileEntry>, Error>(files@),
        decreases GROUP_SLOTS - i,
    {
        let entry_offset = root as u64 + 8 * i;
        let entry = match parse_table_of_contents_entry(data, entry_offset) {
            Ok(e) => e,
            Err(e) => {
                return Err(e);
            },
        };
        if entry.kind == 0 {
            break;
        }
        let next_entry = match parse_table_of_contents_entry(data, entry_offset + 8) {
            Ok(e) => e,
            Err(e) => {
                return Err(e);
            },
        };
        let entry_end_offset = if next_entry.table_offset == 0 {
            root
        } else {
            next_entry.table_offset
        };
        if entry_end_offset < entry.table_offset {
            return Err(Error::OutOfBounds);
        }
        let count = ((entry_end_offset - entry.table_offset) / 4) as u64;
        let ghost group_full = scan_slots(
            data@,
            entry.kind,
            entry.table_offset as int,
            count as int,
            0,
            files@,
        );
        assert(full == match group_full {
            Err(e) => Err(e),
            Ok(a) => walk_groups(data@, root as int, i + 1, a),
        });
        let mut j: u64 = 0;
        while j < count
            invariant
                i < GROUP_SLOTS,
                data@ == archive_data@,
                data@.len() >= 4,
                root as int == le32(data@, 0),
                full == walk_groups(data@, root as int, 0, Seq::empty()),
                full == match group_full {
                    Err(e) => Err(e),
                    Ok(a) => walk_groups(data@, root as int, i + 1, a),
                },
                group_full == scan_slots(
                    data@,
                    entry.kind,
                    entry.table_offset as int,
                    count as int,
                    j as int,
                    files@,
                ),
            ensures
                group_full == Ok::<Seq<FileEntry>, Error>(files@),
            decreases count - j,
        {
            let offset = match get_file_offset(data, entry.table_offset as u64, j) {
                Ok(o) => o,
                Err(e) => {
                    return Err(e);
                },
            };
            if offset == 0 {
                break;
            }
            files.push(FileEntry { kind: entry.kind, offset, size: 0 });
            j = j + 1;
        }
        i = i + 1;
    }
    let ghost pending = files@;
    let mut sized: Vec<FileEntry> = Vec::with_capacity(files.len());
    let mut k: usize = 0;
    while k < files.len()
        invariant
            files@ == pending,
            data@ == archive_data@,
            data@.len() >= 4,
            root as int == le32(data@, 0),
            full == walk_groups(data@, root as int, 0, Seq::empty()),
            full == Ok::<Seq<FileEntry>, Error>(pending),
            sized@.len() == k,
            k <= files@.len(),
            forall|m: int|
                0 <= m < k ==> pending[m].offset <= #[trigger] file_end(pending, root as int, m),
            forall|m: int|
                0 <= m < k ==> #[trigger] sized@[m] == (FileEntry {
                    kind: pending[m].kind,
                    offset: pending[m].offset,
                    size: (file_end(pending, root as int, m) - pending[m].offset) as u32,
                }),
        decreases files@.len() - k,
    {
        let end = if k + 1 < files.len() {
            files[k + 1].offset
        } else {
            root
        };
        let here = files[k];
        if end < here.offset {
            assert(!(pending[k as int].offset <= file_end(pending, root as int, k as int)));
            return Err(Error::OutOfBounds);
        }
        sized.push(FileEntry { kind: here.kind, offset: here.offset, size: end - here.offset });
        k = k + 1;
    }
    assert(sized@ =~= with_sizes(pending, root as int)->Ok_0);
    Ok(sized)
}

/// The bytes of the file `entry` in the archive region `archive_data`.
pub fn extract_file(archive_data: &Vec<u8>, entry: &FileEntry) -> (r: Result<Vec<u8>, Error>)
    ensures
        entry.offset + entry.size <= archive_data@.len() <==> r is Ok,
        r is Ok ==> r->Ok_0@ == archive_data@.subrange(
            entry.offset as int,
            entry.offset + entry.size,
        ),
        r is Err ==> r->Err_0 == Error::OutOfBounds,
{
    let start = entry.offset as u64;
    let end = start + entry.size as u64;
    if end > archive_data.len() as u64 {
        return Err(Error::OutOfBounds);
    }
    Ok(copy_range(archive_data.as_slice(), start as usize, end as usize))
}

} // verus!
