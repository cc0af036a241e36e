use crate::bytes::{be32, be_u32_at, copy_range, le32, le_u32_at};
use crate::error::Error;
use crate::lz::{decoded_block, decompress_block, lemma_decoded_len};
use vstd::prelude::*;

verus! {

/// The total size declared in the header of the region at `pos`.
pub open spec fn region_total(data: Seq<u8>, pos: int, big_endian: bool) -> int {
    if big_endian {
        be32(data, pos)
    } else {
        le32(data, pos)
    }
}

/// Reading chunks from `pos` on, with `acc` decoded so far, until at least
/// `total` bytes are decoded. Yields the decoded bytes and the position
/// after the last chunk read.
pub open spec fn read_chunks(data: Seq<u8>, pos: int, total: nat, acc: Seq<u8>) -> Result<
    (Seq<u8>, int),
    Error,
>
    decreases data.len() - pos,
{
    if acc.len() >= total {
        Ok((acc, pos))
    } else if pos < 0 || pos + 8 > data.len() {
        Err(Error::TruncatedStream)
    } else {
        let size = le32(data, pos) as nat;
        let stored = le32(data, pos + 4);
        if pos + 8 + stored > data.len() {
            Err(Error::TruncatedStream)
        } else {
            match decoded_block(data.subrange(pos + 8, pos + 8 + stored), size) {
                Ok(b) => read_chunks(data, pos + 8 + stored, total, acc + b),
                Err(e) => Err(e),
            }
        }
    }
}

/// Reading the region whose header starts at `pos`.
pub open spec fn read_region(data: Seq<u8>, pos: int, big_endian: bool) -> Result<
    (Seq<u8>, int),
    Error,
> {
    if pos < 0 || pos + 8 > data.len() {
        Err(Error::TruncatedStream)
    } else {
        read_chunks(data, pos + 8, region_total(data, pos, big_endian) as nat, Seq::empty())
    }
}

/// Decoding a whole archive file: an eight-byte file header, then the
/// archive region, whose total size is big-endian, then the metadata
/// region, whose total size is little-endian.
pub open spec fn read_archive(data: Seq<u8>) -> Result<(Seq<u8>, Seq<u8>), Error> {
    if data.len() < 8 {
        Err(Error::TruncatedStream)
    } else {
        match read_region(data, 8, true) {
            Err(e) => Err(e),
            Ok((archive, next)) => match read_region(data, next, false) {
                Err(e) => Err(e),
                Ok((metadata, _)) => Ok((archive, metadata)),
            },
        }
    }
}

/// The sum of the declared decoded sizes of the chunks whose headers lie
/// from `pos` on, each followed by its stored bytes, for the chunks that
/// end by `end`.
pub open spec fn chunk_sizes(data: Seq<u8>, pos: int, end: int) -> int
    decreases end - pos,
{
    if pos < 0 || pos + 8 > data.len() || pos + 8 + le32(data, pos + 4) > end {
        0
    } else {
        le32(data, pos) + chunk_sizes(data, pos + 8 + le32(data, pos + 4), end)
    }
}

proof fn lemma_read_chunks_len(data: Seq<u8>, pos: int, total: nat, acc: Seq<u8>)
    ensures
        read_chunks(data, pos, total, acc) is Ok ==> {
            let (r, end) = read_chunks(data, pos, total, acc)->Ok_0;
            &&& end >= pos
            &&& r.len() == acc.len() + chunk_sizes(data, pos, end)
            &&& r.len() >= total
        },
    decreases data.len() - pos,
{
    if acc.len() < total && 0 <= pos && pos + 8 <= data.len() {
        let size = le32(data, pos) as nat;
        let stored = le32(data, pos + 4);
        if pos + 8 + stored <= data.len() {
            let chunk = data.subrange(pos + 8, pos + 8 + stored);
            if chunk.len() != size {
                lemma_decoded_len(chunk, size, 0, 0, 0, Seq::empty());
            }
            match decoded_block(chunk, size) {
                Ok(b) => {
                    lemma_read_chunks_len(data, pos + 8 + stored, total, acc + b);
                },
                Err(_) => {},
            }
        }
    }
}

/// A decoded region is exactly as long as the declared sizes of the chunks
/// it was read from add up to, and that is at least its declared total.
pub proof fn lemma_region_size(data: Seq<u8>, pos: int, big_endian: bool)
    ensures
        read_region(data, pos, big_endian) is Ok ==> {
            let (r, end) = read_region(data, pos, big_endian)->Ok_0;
            &&& r.len() == chunk_sizes(data, pos + 8, end)
            &&& r.len() >= region_total(data, pos, big_endian)
        },
{
    if 0 <= pos && pos + 8 <= data.len() {
        lemma_read_chunks_len(
            data,
            pos + 8,
            region_total(data, pos, big_endian) as nat,
            Seq::empty(),
        );
    }
}

/// Reads the region whose header starts at `pos`: its total size, in the
/// byte order that `big_endian` selects, four reserved bytes, then chunks
/// until the decoded length reaches the total. Returns the decoded region
/// and the position after it.
pub fn decompress_part(data: &[u8], pos: usize, big_endian: bool) -> (r: Result<
    (Vec<u8>, usize),
    Error,
>)
    ensures
        match r {
            Ok((v, end)) => read_region(data@, pos as int, big_endian) == Ok::<(Seq<u8>, int), Error>(
                (v@, end as int),
            ),
            Err(e) => read_region(data@, pos as int, big_endian) == Err::<(Seq<u8>, int), Error>(
                e,
            ),
        },
{
    if pos > data.len() || data.len() - pos < 8 {
        return Err(Error::TruncatedStream);
    }
    let total: u32 = if big_endian {
        be_u32_at(data, pos)
    } else {
        le_u32_at(data, pos)
    };
    let ghost full = read_region(data@, pos as int, big_endian);
    let mut cursor: usize = pos + 8;
    let mut output: Vec<u8> = Vec::new();
    while output.len() < total as usize
        invariant
            cursor <= data@.len(),
            total as int == region_total(data@, pos as int, big_endian),
            full == read_region(data@, pos as int, big_endian),
            full == read_chunks(data@, cursor as int, total as nat, output@),
        decreases data@.len() - cursor,
    {
        if data.len() - cursor < 8 {
            return Err(Error::TruncatedStream);
        }
        let chunk_uncompressed_size = le_u32_at(data, cursor);
        let chunk_compressed_size = le_u32_at(data, cursor + 4);
        if chunk_compressed_size as usize > data.len() - cursor - 8 {
            return Err(Error::TruncatedStream);
        }
        let start = cursor + 8;
        let end = start + chunk_compressed_size as usize;
        let chunk = copy_range(data, start, end);
        let mut decoded_chunk = match decompress_block(chunk_uncompressed_size as usize, &chunk) {
            Ok(b) => b,
            Err(e) => {
                return Err(e);
            },
        };
        output.append(&mut decoded_chunk);
        cursor = end;
    }
    Ok((output, cursor))
}

/// The two decoded regions of an archive file.
pub struct DecompressedFile {
    pub archive: Vec<u8>,
    pub metadata: Vec<u8>,
}

/// Decodes the archive file held in `data` into its archive region and its
/// metadata region.
pub fn decompress(data: &[u8]) -> (r: Result<DecompressedFile, Error>)
    ensures
        match r {
            Ok(f) => read_archive(data@) == Ok::<(Seq<u8>, Seq<u8>), Error>(
                (f.archive@, f.metadata@),
            ),
            Err(e) => read_archive(data@) == Err::<(Seq<u8>, Seq<u8>), Error>(e),
        },
{
    if data.len() < 8 {
        return Err(Error::TruncatedStream);
    }
    let (archive, next) = match decompress_part(data, 8, true) {
        Ok(p) => p,
        Err(e) => {
            return Err(e);
        },
    };
    let (metadata, _) = match decompress_part(data, next, false) {
        Ok(p) => p,
        Err(e) => {
            return Err(e);
        },
    };
    Ok(DecompressedFile { archive, metadata })
}

} // verus!
