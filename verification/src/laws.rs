//! Properties of the model that hold for every input, each proved once
//! and for all: the size guarantee, purity of decoding, the behaviour
//! of overlapping back-references, the zero-size boundary and the
//! all-literal boundary.

use vstd::prelude::*;
use crate::model::{
    back_copy, ctrl_bit, lemma_back_copy_len, lemma_back_copy_step, lz_bits, lz_run,
    spec_decompress, spec_target_size, spec_token, Format, LzssError,
};

verus! {

/// A successful run from any intermediate state still ends at `size` bytes.
proof fn lemma_lz_bits_size(
    fmt: Format,
    data: Seq<u8>,
    pos: int,
    ctrl: u8,
    i: int,
    out: Seq<u8>,
    size: nat,
)
    requires
        out.len() <= size,
        lz_bits(fmt, data, pos, ctrl, i, out, size) is Ok,
    ensures
        lz_bits(fmt, data, pos, ctrl, i, out, size)->Ok_0.1.len() == size,
    decreases data.len() - pos,
{
    if out.len() >= size {
    } else if pos >= data.len() {
    } else if i >= 8 {
        lemma_lz_bits_size(fmt, data, pos + 1, data[pos], 0, out, size);
    } else if !ctrl_bit(ctrl, i) {
        lemma_lz_bits_size(fmt, data, pos + 1, ctrl, i + 1, out.push(data[pos]), size);
    } else {
        match spec_token(fmt, data, pos) {
            None => {},
            Some((pos2, count, disp)) => {
                if disp <= out.len() {
                    let n = if count <= size - out.len() {
                        count
                    } else {
                        size - out.len()
                    };
                    lemma_back_copy_len(out, disp, n as nat);
                    lemma_lz_bits_size(
                        fmt,
                        data,
                        pos2,
                        ctrl,
                        i + 1,
                        back_copy(out, disp, n as nat),
                        size,
                    );
                }
            },
        }
    }
}

/// Whenever a token stream decodes successfully, the output holds
/// exactly `size` bytes, never fewer and never more.
pub proof fn lemma_run_size(fmt: Format, data: Seq<u8>, size: nat)
    requires
        lz_run(fmt, data, size) is Ok,
    ensures
        lz_run(fmt, data, size)->Ok_0.len() == size,
{
    lemma_lz_bits_size(fmt, data, 0, 0, 8, Seq::empty(), size);
}

/// Whenever decompression succeeds, the output holds exactly the
/// number of bytes the header's size field declared.
pub proof fn lemma_decompress_size(data: Seq<u8>)
    requires
        spec_decompress(data) is Ok,
    ensures
        data.len() >= 4,
        spec_decompress(data)->Ok_0.len() == spec_target_size(data),
{
    if data.len() >= 4 {
        if data[0] == 0x10 {
            lemma_run_size(Format::Lzss10, data.skip(4), spec_target_size(data) as nat);
        } else if data[0] == 0x11 {
            lemma_run_size(Format::Lzss11, data.skip(4), spec_target_size(data) as nat);
        }
    }
}

/// Decoding is a pure function of the input bytes alone: two
/// streams that hold the same bytes decode to the same result.
pub proof fn lemma_decompress_deterministic(a: Seq<u8>, b: Seq<u8>)
    requires
        a == b,
    ensures
        spec_decompress(a) == spec_decompress(b),
{
}

/// A back-reference leaves the existing output untouched, and every
/// byte it appends equals the byte `disp` positions before it in the
/// finished buffer.  With `disp` smaller than the copy length this is an
/// overlapping self-copy, and the equation forces the repeating pattern,
/// byte by byte.
pub proof fn lemma_back_copy_pattern(out: Seq<u8>, disp: int, n: nat)
    requires
        1 <= disp <= out.len(),
    ensures
        back_copy(out, disp, n).len() == out.len() + n,
        forall|j: int| 0 <= j < out.len() ==> back_copy(out, disp, n)[j] == out[j],
        forall|j: int|
            out.len() <= j < out.len() + n ==> #[trigger] back_copy(out, disp, n)[j] == back_copy(
                out,
                disp,
                n,
            )[j - disp],
    decreases n,
{
    lemma_back_copy_len(out, disp, n);
    if n != 0 {
        lemma_back_copy_pattern(out, disp, (n - 1) as nat);
        lemma_back_copy_step(out, disp, (n - 1) as nat);
    }
}

/// An overlapping back-reference cycles through the last `disp`
/// bytes of the existing output: byte `t` of the copy equals byte
/// `t % disp` of that tail, however long the copy is.
pub proof fn lemma_back_copy_cycle(out: Seq<u8>, disp: int, n: nat)
    requires
        1 <= disp <= out.len(),
    ensures
        forall|t: int|
            0 <= t < n ==> #[trigger] back_copy(out, disp, n)[out.len() + t] == out[out.len()
                - disp + t % disp],
    decreases n,
{
    if n != 0 {
        let prev = back_copy(out, disp, (n - 1) as nat);
        lemma_back_copy_cycle(out, disp, (n - 1) as nat);
        lemma_back_copy_pattern(out, disp, (n - 1) as nat);
        lemma_back_copy_pattern(out, disp, n);
        lemma_back_copy_step(out, disp, (n - 1) as nat);
        let t = n - 1;
        if t < disp {
            vstd::arithmetic::div_mod::lemma_small_mod(t as nat, disp as nat);
        } else {
            vstd::arithmetic::div_mod::lemma_mod_multiples_vanish(1, t - disp, disp);
            assert(prev[out.len() + (t - disp)] == out[out.len() - disp + (t - disp) % disp]);
        }
        assert forall|t2: int|
            0 <= t2 < n implies #[trigger] back_copy(out, disp, n)[out.len() + t2] == out[out.len()
            - disp + t2 % disp] by {
            if t2 < n - 1 {
                assert(back_copy(out, disp, n)[out.len() + t2] == prev[out.len() + t2]);
            }
        }
    }
}

/// With `target_size` zero the decoder returns the empty buffer at
/// once, whatever bytes follow the header: no token byte is consumed.
pub proof fn lemma_zero_size(data: Seq<u8>)
    requires
        data.len() >= 4,
        data[0] == 0x10 || data[0] == 0x11,
        data[1] == 0,
        data[2] == 0,
        data[3] == 0,
    ensures
        spec_decompress(data) == Ok::<Seq<u8>, LzssError>(Seq::<u8>::empty()),
{
    assert(spec_target_size(data) == 0);
}

/// The stream that encodes `lits` with literal tokens alone: one all-zero
/// control byte before each group of up to eight literal bytes.
pub open spec fn literal_groups(lits: Seq<u8>) -> Seq<u8>
    decreases lits.len(),
{
    if lits.len() == 0 {
        Seq::empty()
    } else if lits.len() <= 8 {
        seq![0u8] + lits
    } else {
        seq![0u8] + lits.take(8) + literal_groups(lits.skip(8))
    }
}

/// In a control byte of zero every flag bit is false.
proof fn lemma_zero_ctrl_bit(i: int)
    requires
        0 <= i < 8,
    ensures
        !ctrl_bit(0, i),
{
    let s = (7 - i) as u8;
    assert((0u8 >> s) & 1 == 0u8) by (bit_vector);
}

/// A control byte of zero makes the decoder copy the next
/// `min(8 - i, size - out.len())` stream bytes to the output unchanged.
proof fn lemma_literal_group_bits(
    fmt: Format,
    data: Seq<u8>,
    pos: int,
    i: int,
    out: Seq<u8>,
    size: nat,
)
    requires
        0 <= i <= 8,
        0 <= pos <= data.len(),
        out.len() <= size,
        pos + (if 8 - i <= size - out.len() {
            8 - i
        } else {
            size - out.len()
        }) <= data.len(),
    ensures
        ({
            let m = if 8 - i <= size - out.len() {
                8 - i
            } else {
                size - out.len()
            };
            lz_bits(fmt, data, pos, 0, i, out, size) == lz_bits(
                fmt,
                data,
                pos + m,
                0,
                i + m,
                out + data.subrange(pos, pos + m),
                size,
            )
        }),
    decreases 8 - i,
{
    let m = if 8 - i <= size - out.len() {
        8 - i
    } else {
        size - out.len()
    };
    if m == 0 {
        assert(out + data.subrange(pos, pos) =~= out);
    } else {
        lemma_zero_ctrl_bit(i);
        let out1 = out.push(data[pos]);
        lemma_literal_group_bits(fmt, data, pos + 1, i + 1, out1, size);
        let m1 = if 8 - (i + 1) <= size - out1.len() {
            8 - (i + 1)
        } else {
            size - out1.len()
        };
        assert(m1 == m - 1);
        assert(out1 + data.subrange(pos + 1, pos + m) =~= out + data.subrange(pos, pos + m));
    }
}

/// A stream that is nothing but literal groups decodes to the literals.
proof fn lemma_literal_groups_run(
    fmt: Format,
    data: Seq<u8>,
    pos: int,
    ctrl: u8,
    out: Seq<u8>,
    size: nat,
    lits: Seq<u8>,
)
    requires
        0 <= pos <= data.len(),
        data.skip(pos) == literal_groups(lits),
        out.len() + lits.len() == size,
    ensures
        lz_bits(fmt, data, pos, ctrl, 8, out, size) == Ok::<(int, Seq<u8>), LzssError>(
            (data.len() as int, out + lits),
        ),
    decreases lits.len(),
{
    if lits.len() == 0 {
        assert(data.skip(pos).len() == 0);
        assert(out + lits =~= out);
    } else {
        let k: int = if lits.len() <= 8 {
            lits.len() as int
        } else {
            8
        };
        assert(data.skip(pos).len() == data.len() - pos);
        assert(data[pos] == data.skip(pos)[0]);
        assert(data[pos] == 0);
        assert(forall|j: int|
            0 <= j < k ==> data[pos + 1 + j] == data.skip(pos)[1 + j] && data.skip(pos)[1 + j]
                == lits[j]);
        lemma_literal_group_bits(fmt, data, pos + 1, 0, out, size);
        let m = if 8 - 0 <= size - out.len() {
            8 - 0
        } else {
            size - out.len()
        };
        assert(m == k);
        assert(out + data.subrange(pos + 1, pos + 1 + k) =~= out + lits.take(k));
        if lits.len() <= 8 {
            assert((out + lits.take(k)).len() == size);
            assert(pos + 1 + k == data.len());
            assert(lits.take(k) =~= lits);
        } else {
            assert(data.skip(pos + 1 + 8) =~= data.skip(pos).skip(9));
            assert(data.skip(pos).skip(9) =~= literal_groups(lits.skip(8)));
            lemma_literal_groups_run(
                fmt,
                data,
                pos + 9,
                0,
                out + lits.take(8),
                size,
                lits.skip(8),
            );
            assert((out + lits.take(8)) + lits.skip(8) =~= out + lits);
        }
    }
}

/// A run of all-literal control bytes, with no back-reference
/// anywhere, reproduces the literal bytes unchanged, in either format.
pub proof fn lemma_all_literals(fmt: Format, lits: Seq<u8>)
    ensures
        lz_run(fmt, literal_groups(lits), lits.len()) == Ok::<Seq<u8>, LzssError>(lits),
{
    let data = literal_groups(lits);
    assert(data.skip(0) =~= data);
    lemma_literal_groups_run(fmt, data, 0, 0, Seq::empty(), lits.len(), lits);
    assert(Seq::<u8>::empty() + lits =~= lits);
}

} // verus!
