use crate::bytes::{le16, le_u16_at};
use crate::error::Error;
use vstd::prelude::*;

verus! {

/// `out` extended by a back-reference run of `len` bytes at distance
/// `dist`, copied one byte at a time so that a run longer than its distance
/// repeats itself. A distance of zero names the byte not yet written, which
/// reads as zero.
pub open spec fn copy_run(out: Seq<u8>, dist: nat, len: nat) -> Seq<u8>
    decreases len,
{
    if len == 0 {
        out
    } else {
        let o = copy_run(out, dist, (len - 1) as nat);
        o.push(if dist == 0 { 0u8 } else { o[o.len() - dist] })
    }
}

/// The distance of the back-reference whose two bytes are `b0` and `b1`:
/// the high nibble of `b0` above the eight bits of `b1`.
pub open spec fn ref_distance(b0: u8, b1: u8) -> nat {
    ((b0 as nat) / 16) * 256 + b1 as nat
}

/// The run length of the back-reference whose first byte is `b0`: its low
/// nibble plus one.
pub open spec fn ref_length(b0: u8) -> nat {
    (b0 as nat) % 16 + 1
}

/// Decoding of `input` from position `pos` on, into an output of `cap`
/// bytes that holds `out` so far, with `ctr` control bits left in `bits`.
pub open spec fn decode_from(
    input: Seq<u8>,
    cap: nat,
    pos: int,
    ctr: nat,
    bits: nat,
    out: Seq<u8>,
) -> Result<Seq<u8>, Error>
    decreases input.len() - pos,
{
    if pos < 0 || pos >= input.len() {
        if out.len() == cap {
            Ok(out)
        } else {
            Err(Error::SizeMismatch)
        }
    } else if ctr == 0 && pos + 2 > input.len() {
        Err(Error::TruncatedInput)
    } else {
        let p = if ctr == 0 { pos + 2 } else { pos };
        let c: nat = if ctr == 0 { 16 } else { ctr };
        let w: nat = if ctr == 0 { le16(input, pos) as nat } else { bits };
        if w % 2 == 1 {
            if p + 2 > input.len() {
                Err(Error::TruncatedInput)
            } else {
                let dist = ref_distance(input[p], input[p + 1]);
                let len = ref_length(input[p]);
                if dist > out.len() {
                    Err(Error::InvalidBackReference)
                } else if out.len() + len > cap {
                    Err(Error::OutOfBounds)
                } else {
                    decode_from(input, cap, p + 2, (c - 1) as nat, w / 2, copy_run(out, dist, len))
                }
            }
        } else {
            if p >= input.len() || out.len() >= cap {
                Err(Error::TruncatedInput)
            } else {
                decode_from(input, cap, p + 1, (c - 1) as nat, w / 2, out.push(input[p]))
            }
        }
    }
}

/// What decoding the control-coded stream `input` into `cap` bytes yields.
pub open spec fn decoded(input: Seq<u8>, cap: nat) -> Result<Seq<u8>, Error> {
    decode_from(input, cap, 0, 0, 0, Seq::empty())
}

/// What decoding one chunk yields: a chunk as long as its output is stored
/// as it is; any other is control-coded.
pub open spec fn decoded_block(input: Seq<u8>, cap: nat) -> Result<Seq<u8>, Error> {
    if input.len() == cap {
        Ok(input)
    } else {
        decoded(input, cap)
    }
}

/// The view of a byte-vector result.
pub open spec fn bytes_result(r: Result<Vec<u8>, Error>) -> Result<Seq<u8>, Error> {
    match r {
        Ok(v) => Ok(v@),
        Err(e) => Err(e),
    }
}

pub proof fn lemma_copy_run_len(out: Seq<u8>, dist: nat, len: nat)
    ensures
        copy_run(out, dist, len).len() == out.len() + len,
    decreases len,
{
    if len > 0 {
        lemma_copy_run_len(out, dist, (len - 1) as nat);
    }
}

/// Decoding into `cap` bytes succeeds only with exactly `cap` bytes.
pub proof fn lemma_decoded_len(
    input: Seq<u8>,
    cap: nat,
    pos: int,
    ctr: nat,
    bits: nat,
    out: Seq<u8>,
)
    ensures
        decode_from(input, cap, pos, ctr, bits, out) is Ok ==> decode_from(
            input,
            cap,
            pos,
            ctr,
            bits,
            out,
        )->Ok_0.len() == cap,
    decreases input.len() - pos,
{
    if 0 <= pos < input.len() && !(ctr == 0 && pos + 2 > input.len()) {
        let p = if ctr == 0 { pos + 2 } else { pos };
        let c: nat = if ctr == 0 { 16 } else { ctr };
        let w: nat = if ctr == 0 { le16(input, pos) as nat } else { bits };
        if w % 2 == 1 {
            if p + 2 <= input.len() {
                let dist = ref_distance(input[p], input[p + 1]);
                let len = ref_length(input[p]);
                lemma_decoded_len(input, cap, p + 2, (c - 1) as nat, w / 2, copy_run(out, dist, len));
            }
        } else if p < input.len() {
            lemma_decoded_len(input, cap, p + 1, (c - 1) as nat, w / 2, out.push(input[p]));
        }
    }
}

/// A back-reference that reaches before the start of the output fails the
/// decoding with `InvalidBackReference`, wherever it stands in the stream:
/// for any decoder state whose next unit is such a reference, after a
/// control word is fetched if none is left.
pub proof fn lemma_reference_before_start(
    input: Seq<u8>,
    cap: nat,
    pos: int,
    ctr: nat,
    bits: nat,
    out: Seq<u8>,
)
    requires
        0 <= pos,
        ctr == 0 ==> pos + 4 <= input.len() && le16(input, pos) % 2 == 1 && ref_distance(
            input[pos + 2],
            input[pos + 3],
        ) > out.len(),
        ctr > 0 ==> pos + 2 <= input.len() && bits % 2 == 1 && ref_distance(
            input[pos],
            input[pos + 1],
        ) > out.len(),
    ensures
        decode_from(input, cap, pos, ctr, bits, out) == Err::<Seq<u8>, Error>(
            Error::InvalidBackReference,
        ),
{
}

/// Reads the little-endian 16-bit word at `offset`.
pub fn read_u16(buffer: &[u8], offset: usize) -> (r: u16)
    requires
        offset + 2 <= buffer@.len(),
    ensures
        r as int == le16(buffer@, offset as int),
{
    le_u16_at(buffer, offset)
}

/// Decodes the control-coded stream `input` into exactly `output_size` bytes.
pub fn decompress_data(input: &[u8], output_size: usize) -> (r: Result<Vec<u8>, Error>)
    ensures
        bytes_result(r) == decoded(input@, output_size as nat),
        r is Ok ==> r->Ok_0@.len() == output_size,
{
    let ghost cap = output_size as nat;
    let mut pos: usize = 0;
    let mut counter: u32 = 0;
    let mut code_bits: u32 = 0;
    let mut output: Vec<u8> = Vec::new();
    while pos < input.len()
        invariant
            cap == output_size as nat,
            pos <= input@.len(),
            counter <= 16,
            code_bits < 65536,
            output@.len() <= output_size,
            decoded(input@, cap) == decode_from(
                input@,
                cap,
                pos as int,
                counter as nat,
                code_bits as nat,
                output@,
            ),
        decreases input@.len() - pos,
    {
        if counter == 0 {
            if input.len() - pos < 2 {
                return Err(Error::TruncatedInput);
            }
            code_bits = read_u16(input, pos) as u32;
            pos = pos + 2;
            counter = 16;
        }
        if code_bits % 2 == 1 {
            if input.len() - pos < 2 {
                return Err(Error::TruncatedInput);
            }
            let b0 = input[pos];
            let b1 = input[pos + 1];
            let distance: usize = (b0 / 16) as usize * 256 + b1 as usize;
            let pattern_size: usize = (b0 % 16) as usize + 1;
            if distance > output.len() {
                return Err(Error::InvalidBackReference);
            }
            if pattern_size > output_size - output.len() {
                return Err(Error::OutOfBounds);
            }
            let ghost before = output@;
            let mut k: usize = 0;
            while k < pattern_size
                invariant
                    k <= pattern_size,
                    distance <= before.len(),
                    before.len() + pattern_size <= output_size,
                    output@ == copy_run(before, distance as nat, k as nat),
                    output@.len() == before.len() + k,
                decreases pattern_size - k,
            {
                let b: u8 = if distance == 0 {
                    0
                } else {
                    output[output.len() - distance]
                };
                output.push(b);
                k = k + 1;
            }
            pos = pos + 2;
        } else {
            if pos >= input.len() || output.len() >= output_size {
                return Err(Error::TruncatedInput);
            }
            output.push(input[pos]);
            pos = pos + 1;
        }
        code_bits = code_bits / 2;
        counter = counter - 1;
    }
    if output.len() != output_size {
        return Err(Error::SizeMismatch);
    }
    Ok(output)
}

/// Decodes one chunk into `output_size` bytes. A chunk whose length equals
/// `output_size` is stored as it is and comes back unchanged.
pub fn decompress_block(output_size: usize, input: &Vec<u8>) -> (r: Result<Vec<u8>, Error>)
    ensures
        bytes_result(r) == decoded_block(input@, output_size as nat),
        input@.len() == output_size ==> r is Ok && r->Ok_0@ == input@,
        r is Ok ==> r->Ok_0@.len() == output_size,
{
    if output_size == input.len() {
        let copy = input.clone();
        assert(copy@ =~= input@);
        return Ok(copy);
    }
    decompress_data(input.as_slice(), output_size)
}

} // verus!
