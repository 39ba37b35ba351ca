//! The executable decoders, proved to return exactly what the model in
//! `model` says for every input.

use vstd::prelude::*;
use crate::bytes::{control_bits, read_u16_be, read_u24_le};
use crate::laws::{lemma_decompress_size, lemma_run_size};
use crate::model::{
    back_copy, ctrl_bit, lemma_back_copy_len, lemma_back_copy_step, lz_bits, lz_run,
    spec_decompress, spec_target_size, spec_token, Format, LzssError,
};

verus! {

/// One back-reference token read at `pos`: the position after the token,
/// the raw copy length and the displacement, or `None` on a short stream.
fn read_token(fmt: Format, data: &[u8], pos: usize) -> (r: Option<(usize, u32, u32)>)
    requires
        pos <= data@.len(),
    ensures
        match r {
            Some(t) => {
                &&& spec_token(fmt, data@, pos as int) == Some((t.0 as int, t.1 as int, t.2 as int))
                &&& pos < t.0 <= data@.len()
                &&& 1 <= t.2
            },
            None => spec_token(fmt, data@, pos as int) is None,
        },
{
    match fmt {
        Format::Lzss10 => {
            if data.len() - pos < 2 {
                None
            } else {
                let val = read_u16_be(data[pos], data[pos + 1]);
                let count = val / 0x1000 + 3;
                let disp = val % 0x1000 + 1;
                Some((pos + 2, count as u32, disp as u32))
            }
        },
        Format::Lzss11 => {
            if data.len() - pos < 1 {
                return None;
            }
            let b0 = data[pos];
            let ind = b0 / 16;
            if ind == 0 {
                if data.len() - pos < 3 {
                    return None;
                }
                let b1 = data[pos + 1];
                let b2 = data[pos + 2];
                let count: u32 = (b0 as u32) * 16 + (b1 as u32) / 16 + 0x11;
                let disp: u32 = ((b1 % 16) as u32) * 0x100 + (b2 as u32) + 1;
                Some((pos + 3, count, disp))
            } else if ind == 1 {
                if data.len() - pos < 4 {
                    return None;
                }
                let b1 = data[pos + 1];
                let b2 = data[pos + 2];
                let b3 = data[pos + 3];
                let count: u32 = ((b0 % 16) as u32) * 0x1000 + (b1 as u32) * 16 + (b2 as u32) / 16
                    + 0x111;
                let disp: u32 = ((b2 % 16) as u32) * 0x100 + (b3 as u32) + 1;
                Some((pos + 4, count, disp))
            } else {
                if data.len() - pos < 2 {
                    return None;
                }
                let b1 = data[pos + 1];
                let count: u32 = (ind as u32) + 1;
                let disp: u32 = ((b0 % 16) as u32) * 0x100 + (b1 as u32) + 1;
                Some((pos + 2, count, disp))
            }
        },
    }
}

/// Runs one whole token stream, the loop of both decoders.
fn decode_stream(fmt: Format, data: &[u8], size: usize) -> (r: Result<Vec<u8>, LzssError>)
    ensures
        (r is Ok) == (lz_run(fmt, data@, size as nat) is Ok),
        r is Ok ==> r->Ok_0@ == lz_run(fmt, data@, size as nat)->Ok_0,
        r is Err ==> r->Err_0 == lz_run(fmt, data@, size as nat)->Err_0,
{
    let ghost gspec = lz_bits(fmt, data@, 0, 0u8, 8, Seq::<u8>::empty(), size as nat);
    let mut out: Vec<u8> = Vec::new();
    let mut pos: usize = 0;
    let mut ctrl: u8 = 0;
    let mut i: usize = 8;
    let mut bits: Vec<bool> = Vec::new();
    loop
        invariant
            pos <= data@.len(),
            out@.len() <= size,
            i <= 8,
            i < 8 ==> bits@.len() == 8,
            i < 8 ==> forall|k: int| 0 <= k < 8 ==> bits@[k] == ctrl_bit(ctrl, k),
            lz_bits(fmt, data@, pos as int, ctrl, i as int, out@, size as nat) == gspec,
            gspec == lz_bits(fmt, data@, 0, 0u8, 8, Seq::<u8>::empty(), size as nat),
        decreases data@.len() - pos,
    {
        if out.len() >= size {
            // The defensive final check of the driver: the loop above can
            // only stop exactly at `size`, so the mismatch arm is dead.
            if out.len() == size {
                return Ok(out);
            } else {
                return Err(LzssError::SizeMismatch);
            }
        }
        if pos >= data.len() {
            return Err(LzssError::TruncatedStream);
        }
        let ghost pos0 = pos as int;
        let ghost i0 = i as int;
        let ghost ctrl0 = ctrl;
        let ghost out0 = out@;
        if i >= 8 {
            ctrl = data[pos];
            bits = control_bits(ctrl);
            pos = pos + 1;
            i = 0;
            proof {
                assert(lz_bits(fmt, data@, pos as int, ctrl, i as int, out@, size as nat)
                    == lz_bits(fmt, data@, pos0, ctrl0, i0, out0, size as nat));
            }
        } else if !bits[i] {
            let lit = data[pos];
            out.push(lit);
            pos = pos + 1;
            i = i + 1;
            proof {
                assert(lz_bits(fmt, data@, pos as int, ctrl, i as int, out@, size as nat)
                    == lz_bits(fmt, data@, pos0, ctrl0, i0, out0, size as nat));
            }
        } else {
            match read_token(fmt, data, pos) {
                None => {
                    return Err(LzssError::TruncatedStream);
                },
                Some((pos2, count, disp)) => {
                    let disp_us = disp as usize;
                    if disp_us > out.len() {
                        return Err(LzssError::InvalidBackReference);
                    }
                    let remaining = size - out.len();
                    let count_us = count as usize;
                    let n: usize = if count_us <= remaining {
                        count_us
                    } else {
                        remaining
                    };
                    let ghost snap = out@;
                    let mut k: usize = 0;
                    while k < n
                        invariant
                            k <= n,
                            1 <= disp_us <= snap.len(),
                            snap.len() + n <= size,
                            out@ == back_copy(snap, disp_us as int, k as nat),
                            out@.len() == snap.len() + k,
                        decreases n - k,
                    {
                        proof {
                            lemma_back_copy_step(snap, disp_us as int, k as nat);
                        }
                        let src = out.len() - disp_us;
                        let b = out[src];
                        out.push(b);
                        k = k + 1;
                        proof {
                            lemma_back_copy_len(snap, disp_us as int, k as nat);
                        }
                    }
                    pos = pos2;
                    i = i + 1;
                    proof {
                        lemma_back_copy_len(snap, disp_us as int, n as nat);
                        assert(lz_bits(fmt, data@, pos as int, ctrl, i as int, out@, size as nat)
                            == lz_bits(fmt, data@, pos0, ctrl0, i0, out0, size as nat));
                    }
                },
            }
        }
    }
}

/// Decodes one LZSS10 token stream to exactly `size` bytes.
pub fn decompress_lzss10(data: &[u8], size: usize) -> (r: Result<Vec<u8>, LzssError>)
    ensures
        (r is Ok) == (lz_run(Format::Lzss10, data@, size as nat) is Ok),
        r is Ok ==> r->Ok_0@ == lz_run(Format::Lzss10, data@, size as nat)->Ok_0,
        r is Err ==> r->Err_0 == lz_run(Format::Lzss10, data@, size as nat)->Err_0,
        r is Ok ==> r->Ok_0@.len() == size,
{
    proof {
        if lz_run(Format::Lzss10, data@, size as nat) is Ok {
            lemma_run_size(Format::Lzss10, data@, size as nat);
        }
    }
    decode_stream(Format::Lzss10, data, size)
}

/// Decodes one LZSS11 token stream to exactly `size` bytes.
pub fn decompress_lzss11(data: &[u8], size: usize) -> (r: Result<Vec<u8>, LzssError>)
    ensures
        (r is Ok) == (lz_run(Format::Lzss11, data@, size as nat) is Ok),
        r is Ok ==> r->Ok_0@ == lz_run(Format::Lzss11, data@, size as nat)->Ok_0,
        r is Err ==> r->Err_0 == lz_run(Format::Lzss11, data@, size as nat)->Err_0,
        r is Ok ==> r->Ok_0@.len() == size,
{
    proof {
        if lz_run(Format::Lzss11, data@, size as nat) is Ok {
            lemma_run_size(Format::Lzss11, data@, size as nat);
        }
    }
    decode_stream(Format::Lzss11, data, size)
}

/// Parses the header of a compressed stream and decodes its token stream,
/// returning the uncompressed bytes.
pub fn decompress(data: &[u8]) -> (r: Result<Vec<u8>, LzssError>)
    ensures
        (r is Ok) == (spec_decompress(data@) is Ok),
        r is Ok ==> r->Ok_0@ == spec_decompress(data@)->Ok_0,
        r is Err ==> r->Err_0 == spec_decompress(data@)->Err_0,
        r is Ok ==> r->Ok_0@.len() == spec_target_size(data@),
{
    proof {
        if spec_decompress(data@) is Ok {
            lemma_decompress_size(data@);
        }
    }
    if data.len() < 4 {
        return Err(LzssError::MalformedHeader);
    }
    let tag = data[0];
    let size32 = read_u24_le(data[1], data[2], data[3]);
    let size = size32 as usize;
    let rest = vstd::slice::slice_subrange(data, 4, data.len());
    proof {
        assert(size as int == spec_target_size(data@));
        assert(rest@ == data@.skip(4));
    }
    match tag {
        0x10 => decompress_lzss10(rest, size),
        0x11 => decompress_lzss11(rest, size),
        _ => Err(LzssError::UnsupportedFormat),
    }
}

} // verus!
