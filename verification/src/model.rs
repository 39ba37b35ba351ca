//! The mathematical model of the two decoders.
//!
//! `spec_decompress` gives the exact meaning of a compressed stream:
//! the executable functions in `decoder` promise to return precisely
//! what this model says, error cases included.

use vstd::prelude::*;

verus! {

/// Why a decode attempt failed.
#[derive(Clone, Copy, Debug, PartialEq, Eq, Structural)]
pub enum LzssError {
    /// The stream ended before the four header bytes were available.
    MalformedHeader,
    /// The format tag was neither `0x10` nor `0x11`.
    UnsupportedFormat,
    /// The stream ended while more token bytes were required.
    TruncatedStream,
    /// A back-reference pointed before the start of the output.
    InvalidBackReference,
    /// The decoder stopped without producing exactly the promised size.
    SizeMismatch,
}

/// Which of the two token encodings the stream uses.
#[derive(Clone, Copy, Debug, PartialEq, Eq, Structural)]
pub enum Format {
    /// Tag `0x10`: every back-reference is one big-endian 16-bit word.
    Lzss10,
    /// Tag `0x11`: back-references use a three-tier variable-width encoding.
    Lzss11,
}

/// Bit `i` of a control byte, counting the most significant bit as bit 0.
pub open spec fn ctrl_bit(b: u8, i: int) -> bool {
    (b >> ((7 - i) as u8)) & 1 == 1
}

/// The output after a back-reference copies `n` bytes, one at a time,
/// each taken `disp` positions behind the current end of the output.
/// Because the source position is recomputed after every single byte,
/// a copy may overlap the bytes it is itself appending.
pub open spec fn back_copy(out: Seq<u8>, disp: int, n: nat) -> Seq<u8>
    decreases n,
{
    if n == 0 {
        out
    } else {
        back_copy(out.push(out[out.len() - disp]), disp, (n - 1) as nat)
    }
}

/// A back-reference copy appends exactly `n` bytes.
pub proof fn lemma_back_copy_len(out: Seq<u8>, disp: int, n: nat)
    ensures
        back_copy(out, disp, n).len() == out.len() + n,
    decreases n,
{
    if n != 0 {
        lemma_back_copy_len(out.push(out[out.len() - disp]), disp, (n - 1) as nat);
    }
}

/// Peeling one byte off the end of a back-reference copy: the last byte
/// appended is the one `disp` positions behind it at the time it was written.
pub proof fn lemma_back_copy_step(out: Seq<u8>, disp: int, n: nat)
    requires
        1 <= disp <= out.len(),
    ensures
        back_copy(out, disp, (n + 1) as nat) == back_copy(out, disp, n).push(
            back_copy(out, disp, n)[out.len() + n - disp],
        ),
    decreases n,
{
    let out1 = out.push(out[out.len() - disp]);
    if n == 0 {
        assert(back_copy(out1, disp, 0) == out1);
    } else {
        lemma_back_copy_step(out1, disp, (n - 1) as nat);
    }
}

/// One back-reference token read at `pos` of the token stream:
/// `None` when the stream is too short, otherwise the position after
/// the token, the raw copy length and the displacement.
pub open spec fn spec_token(fmt: Format, data: Seq<u8>, pos: int) -> Option<(int, int, int)> {
    match fmt {
        Format::Lzss10 => {
            if pos + 2 > data.len() {
                None
            } else {
                // One big-endian 16-bit word: 4 bits of length, 12 of displacement.
                let val = (data[pos] as int) * 0x100 + (data[pos + 1] as int);
                Some((pos + 2, val / 0x1000 + 3, val % 0x1000 + 1))
            }
        },
        Format::Lzss11 => {
            if pos + 1 > data.len() {
                None
            } else {
                let b0 = data[pos] as int;
                let ind = b0 / 16;
                if ind == 0 {
                    // Extended length: 8 bits split over two bytes, bias 0x11.
                    if pos + 3 > data.len() {
                        None
                    } else {
                        let b1 = data[pos + 1] as int;
                        let b2 = data[pos + 2] as int;
                        Some((pos + 3, b0 * 16 + b1 / 16 + 0x11, (b1 % 16) * 0x100 + b2 + 1))
                    }
                } else if ind == 1 {
                    // Longest length: 16 bits split over three bytes, bias 0x111.
                    if pos + 4 > data.len() {
                        None
                    } else {
                        let b1 = data[pos + 1] as int;
                        let b2 = data[pos + 2] as int;
                        let b3 = data[pos + 3] as int;
                        Some(
                            (
                                pos + 4,
                                (b0 % 16) * 0x1000 + b1 * 16 + b2 / 16 + 0x111,
                                (b2 % 16) * 0x100 + b3 + 1,
                            ),
                        )
                    }
                } else {
                    // Short form: the indicator nibble itself is the length.
                    if pos + 2 > data.len() {
                        None
                    } else {
                        let b1 = data[pos + 1] as int;
                        Some((pos + 2, ind + 1, (b0 % 16) * 0x100 + b1 + 1))
                    }
                }
            }
        },
    }
}

/// The decoder's state machine, one control-byte bit at a time.
///
/// `pos` is the cursor into the token stream, `ctrl` the current control
/// byte of which bits `i..8` are still unused, `out` the output so far.
/// The run stops the moment `out` reaches `size`, even in the middle of
/// a control byte; a back-reference stops copying at `size` as well.
pub open spec fn lz_bits(
    fmt: Format,
    data: Seq<u8>,
    pos: int,
    ctrl: u8,
    i: int,
    out: Seq<u8>,
    size: nat,
) -> Result<(int, Seq<u8>), LzssError>
    decreases data.len() - pos,
{
    if out.len() >= size {
        Ok((pos, out))
    } else if pos >= data.len() {
        Err(LzssError::TruncatedStream)
    } else if i >= 8 {
        lz_bits(fmt, data, pos + 1, data[pos], 0, out, size)
    } else if !ctrl_bit(ctrl, i) {
        lz_bits(fmt, data, pos + 1, ctrl, i + 1, out.push(data[pos]), size)
    } else {
        match spec_token(fmt, data, pos) {
            None => Err(LzssError::TruncatedStream),
            Some((pos2, count, disp)) => {
                if disp > out.len() {
                    Err(LzssError::InvalidBackReference)
                } else {
                    let n = if count <= size - out.len() {
                        count
                    } else {
                        size - out.len()
                    };
                    lz_bits(fmt, data, pos2, ctrl, i + 1, back_copy(out, disp, n as nat), size)
                }
            },
        }
    }
}

/// A whole token stream decoded to exactly `size` bytes.
pub open spec fn lz_run(fmt: Format, data: Seq<u8>, size: nat) -> Result<Seq<u8>, LzssError> {
    match lz_bits(fmt, data, 0, 0, 8, Seq::empty(), size) {
        Ok(r) => Ok(r.1),
        Err(e) => Err(e),
    }
}

/// The 24-bit little-endian size field of the header.
pub open spec fn spec_target_size(data: Seq<u8>) -> int
    recommends
        data.len() >= 4,
{
    data[1] + data[2] * 0x100 + data[3] * 0x10000
}

/// The meaning of a whole compressed stream, header included.
pub open spec fn spec_decompress(data: Seq<u8>) -> Result<Seq<u8>, LzssError> {
    if data.len() < 4 {
        Err(LzssError::MalformedHeader)
    } else if data[0] == 0x10 {
        lz_run(Format::Lzss10, data.skip(4), spec_target_size(data) as nat)
    } else if data[0] == 0x11 {
        lz_run(Format::Lzss11, data.skip(4), spec_target_size(data) as nat)
    } else {
        Err(LzssError::UnsupportedFormat)
    }
}

} // verus!
