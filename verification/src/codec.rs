//! Run-length codec over bytes.
//!
//! An encoded stream is a sequence of blocks, each a one-byte header
//! followed by a payload. The header packs `count - 1` into bits 7..2 and
//! the unit size into bits 1..0. Unit size 0 marks a literal run whose
//! payload is `count` raw bytes; unit sizes 1..3 mark a repeat run whose
//! `unit`-byte payload is emitted `count` times.

use vstd::prelude::*;
use vstd::arithmetic::mul::lemma_mul_inequality;
use vstd::slice::slice_subrange;

verus! {

/// Header byte for a block: `count` in 1..=64 packed into the upper six
/// bits, the unit size (0 for a literal run) into the lower two.
pub open spec fn spec_header(count: int, unit: int) -> u8 {
    (((count - 1) * 4) + unit) as u8
}

/// The block count carried by a header byte: its upper six bits, plus one.
pub open spec fn spec_header_len(header: u8) -> int {
    header / 4 + 1
}

/// The unit size carried by a header byte: its lower two bits.
pub open spec fn spec_header_block_size(header: u8) -> int {
    header as int % 4
}

/// Packs a block header byte from a count and a unit size.
pub fn cring_rle_calc_header(len: u8, block_size: u8) -> (r: u8)
    requires
        1 <= len <= 64,
        block_size < 4,
    ensures
        r == spec_header(len as int, block_size as int),
        spec_header_len(r) == len,
        spec_header_block_size(r) == block_size,
{
    proof {
        assert(((((len - 1) as u8) << 2) | block_size) == ((len - 1) * 4 + block_size) as u8
            && ((((len - 1) * 4 + block_size) as u8) / 4 + 1) == len
            && (((len - 1) * 4 + block_size) as u8) as int % 4 == block_size) by (bit_vector)
            requires
                1 <= len <= 64 && block_size < 4,
        ;
    }
    ((len - 1) << 2) | block_size
}

/// Reads the block count out of a header byte.
pub fn cring_rle_get_header_len(header: u8) -> (r: u8)
    ensures
        r == spec_header_len(header),
        1 <= r <= 64,
{
    proof {
        assert(((header & 0xFC) >> 2) + 1 == header / 4 + 1 && header / 4 + 1 <= 64)
            by (bit_vector);
    }
    ((header & 0xFC) >> 2) + 1
}

/// Reads the unit size out of a header byte.
pub fn cring_rle_get_header_block_size(header: u8) -> (r: u8)
    ensures
        r == spec_header_block_size(header),
        r < 4,
{
    proof {
        assert(header & 0x03 == header as int % 4 && header & 0x03 < 4) by (bit_vector);
    }
    header & 0x03
}

/// Appends one byte to the output being built.
pub fn cring_rle_push_on_vec(vec: &mut Vec<u8>, val: u8)
    ensures
        final(vec)@ == old(vec)@.push(val),
{
    vec.push(val);
}

/// How many times `pat` repeats back to back at the front of `s`, counting
/// only whole copies.
pub open spec fn spec_reps(s: Seq<u8>, pat: Seq<u8>) -> nat
    decreases s.len(),
{
    if pat.len() == 0 || s.len() < pat.len() || s.take(pat.len() as int) != pat {
        0
    } else {
        1 + spec_reps(s.skip(pat.len() as int), pat)
    }
}

/// `pat` repeated `n` times.
pub open spec fn spec_repeat(pat: Seq<u8>, n: int) -> Seq<u8>
    decreases n,
{
    if n <= 0 {
        Seq::empty()
    } else {
        pat + spec_repeat(pat, n - 1)
    }
}

/// Whole copies of the pattern at the front never reach past the end.
pub proof fn lemma_reps_le(s: Seq<u8>, pat: Seq<u8>)
    requires
        pat.len() >= 1,
    ensures
        spec_reps(s, pat) * pat.len() <= s.len(),
    decreases s.len(),
{
    let pl = pat.len() as int;
    if s.len() >= pl && s.take(pl) == pat {
        lemma_reps_le(s.skip(pl), pat);
        let r: int = spec_reps(s.skip(pl), pat) as int;
        assert((1 + r) * pl == pl + r * pl) by (nonlinear_arith);
    } else {
        assert(spec_reps(s, pat) == 0);
        assert(0 * pl == 0) by (nonlinear_arith);
    }
}

/// The first `r` whole copies at the front of `s` spell out `pat` repeated
/// `r` times.
pub proof fn lemma_reps_prefix(s: Seq<u8>, pat: Seq<u8>, r: int)
    requires
        pat.len() >= 1,
        0 <= r <= spec_reps(s, pat),
    ensures
        s.take(r * pat.len()) == spec_repeat(pat, r),
    decreases r,
{
    let pl = pat.len() as int;
    if r <= 0 {
        assert(r * pl == 0) by (nonlinear_arith)
            requires
                r == 0,
        ;
        assert(s.take(0) =~= spec_repeat(pat, 0));
    } else {
        lemma_reps_le(s, pat);
        assert(r * pl <= spec_reps(s, pat) * pl) by (nonlinear_arith)
            requires
                r <= spec_reps(s, pat) && pl >= 0,
        ;
        lemma_reps_prefix(s.skip(pl), pat, r - 1);
        assert((r - 1) * pl == r * pl - pl) by (nonlinear_arith);
        assert(s.take(r * pl) =~= pat + s.skip(pl).take((r - 1) * pl)) by {
            assert forall|i: int| 0 <= i < r * pl implies #[trigger] s.take(r * pl)[i] == (pat
                + s.skip(pl).take((r - 1) * pl))[i] by {
                if i < pl {
                    assert(pat[i] == s.take(pl)[i]);
                }
            }
        }
    }
}

/// Count of whole repeats of the leading `block_size` bytes, or `None`
/// when fewer than `block_size` bytes remain.
pub fn cring_rle_calc_max_block_repeats(input: &[u8], block_size: usize) -> (r: Option<usize>)
    requires
        1 <= block_size,
    ensures
        input@.len() < block_size ==> r is None,
        input@.len() >= block_size ==> r == Some(
            (spec_reps(input@, input@.take(block_size as int)) as usize),
        ),
{
    let n: usize = input.len();
    if block_size > n {
        return None;
    }
    let ghost pat = input@.take(block_size as int);
    proof {
        lemma_reps_le(input@, pat);
    }
    let mut count: usize = 1;
    let mut pos: usize = block_size;
    proof {
        assert(input@.take(block_size as int) == pat);
        assert(spec_reps(input@, pat) == 1 + spec_reps(input@.skip(block_size as int), pat));
    }
    while block_size <= n - pos && chunk_matches(input, pos, block_size)
        invariant
            1 <= block_size <= pos <= n == input@.len(),
            pat == input@.take(block_size as int),
            pos == count * block_size,
            count >= 1,
            spec_reps(input@, pat) == count + spec_reps(input@.skip(pos as int), pat),
        decreases n - pos,
    {
        proof {
            let rem = input@.skip(pos as int);
            assert(rem.take(block_size as int) =~= input@.subrange(pos as int, pos + block_size));
            assert(rem.skip(block_size as int) =~= input@.skip(pos + block_size));
            assert(spec_reps(rem, pat) == 1 + spec_reps(input@.skip(pos + block_size), pat));
            assert((count + 1) * block_size == count * block_size + block_size) by (
            nonlinear_arith);
            assert(count <= count * block_size) by (nonlinear_arith)
                requires
                    count >= 0 && block_size >= 1,
            ;
        }
        pos = pos + block_size;
        count = count + 1;
    }
    proof {
        let rem = input@.skip(pos as int);
        if block_size <= n - pos {
            // the next chunk is present but differs from the pattern
            assert(rem.take(block_size as int) =~= input@.subrange(pos as int, pos + block_size));
            assert(spec_reps(rem, pat) == 0);
        } else {
            assert(rem.len() < block_size);
            assert(spec_reps(rem, pat) == 0);
        }
    }
    Some(count)
}

/// Whether the `block_size` bytes at `pos` equal the leading `block_size`
/// bytes.
fn chunk_matches(input: &[u8], pos: usize, block_size: usize) -> (r: bool)
    requires
        pos + block_size <= input@.len(),
        block_size <= input@.len(),
    ensures
        r <==> input@.subrange(pos as int, pos + block_size) == input@.take(block_size as int),
{
    let n: usize = input.len();
    let mut j: usize = 0;
    while j < block_size
        invariant
            0 <= j <= block_size,
            pos + block_size <= n == input@.len(),
            block_size <= n,
            forall|i: int| 0 <= i < j ==> #[trigger] input@[pos + i] == input@[i],
        decreases block_size - j,
    {
        if input[pos + j] != input[j] {
            proof {
                assert(input@.subrange(pos as int, pos + block_size)[j as int] != input@.take(
                    block_size as int,
                )[j as int]);
            }
            return false;
        }
        j = j + 1;
    }
    proof {
        assert forall|i: int|
            0 <= i < block_size implies #[trigger] input@.subrange(
            pos as int,
            pos + block_size,
        )[i] == input@.take(block_size as int)[i] by {
            assert(input@[pos + i] == input@[i]);
        }
        assert(input@.subrange(pos as int, pos + block_size) =~= input@.take(block_size as int));
    }
    true
}

/// Decoding error: a block header claimed more payload bytes than remain
/// in the stream.
#[derive(Clone, Copy, Debug, PartialEq, Eq)]
pub enum RleDecodeError {
    TruncatedStream,
}

/// The byte sequence an encoded stream stands for, or `None` when some
/// block header reaches past the end of the stream.
pub open spec fn spec_rle_decode(s: Seq<u8>) -> Option<Seq<u8>>
    decreases s.len(),
{
    if s.len() == 0 {
        Some(Seq::empty())
    } else {
        let h = s[0];
        let bs = spec_header_block_size(h);
        let cnt = spec_header_len(h);
        if bs == 0 {
            if s.len() >= 1 + cnt {
                match spec_rle_decode(s.skip(1 + cnt)) {
                    Some(rest) => Some(s.subrange(1, 1 + cnt) + rest),
                    None => None,
                }
            } else {
                None
            }
        } else {
            if s.len() >= 1 + bs {
                match spec_rle_decode(s.skip(1 + bs)) {
                    Some(rest) => Some(spec_repeat(s.subrange(1, 1 + bs), cnt) + rest),
                    None => None,
                }
            } else {
                None
            }
        }
    }
}

/// Expands an encoded stream back into the bytes it stands for. Fails with
/// a framing error when a block header references payload past the end of
/// the input.
pub fn cring_rle_decode(input: &[u8]) -> (r: Result<Vec<u8>, RleDecodeError>)
    ensures
        match r {
            Ok(v) => spec_rle_decode(input@) == Some(v@),
            Err(e) => spec_rle_decode(input@) is None && e == RleDecodeError::TruncatedStream,
        },
{
    let n: usize = input.len();
    let mut output: Vec<u8> = Vec::new();
    let mut pos: usize = 0;
    proof {
        assert(input@.skip(0) =~= input@);
        match spec_rle_decode(input@) {
            Some(rest) => {
                assert(output@ + rest =~= rest);
            },
            None => {},
        }
    }
    while pos < n
        invariant
            0 <= pos <= n == input@.len(),
            spec_rle_decode(input@) == match spec_rle_decode(input@.skip(pos as int)) {
                Some(rest) => Some(output@ + rest),
                None => None::<Seq<u8>>,
            },
        decreases n - pos,
    {
        let ghost rem = input@.skip(pos as int);
        let header: u8 = input[pos];
        let block_size: u8 = cring_rle_get_header_block_size(header);
        let repeats: u8 = cring_rle_get_header_len(header);
        proof {
            assert(rem[0] == header);
        }
        if block_size == 0 {
            if (repeats as usize) > n - pos - 1 {
                proof {
                    assert(spec_rle_decode(rem) is None);
                }
                return Err(RleDecodeError::TruncatedStream);
            }
            let ghost out_before = output@;
            let mut j: usize = 0;
            while j < repeats as usize
                invariant
                    0 <= j <= repeats,
                    pos + 1 + repeats <= n == input@.len(),
                    output@ == out_before + input@.subrange(pos + 1, pos + 1 + j),
                decreases repeats - j,
            {
                proof {
                    assert(input@.subrange(pos + 1, pos + 1 + j + 1) =~= input@.subrange(
                        pos + 1,
                        pos + 1 + j,
                    ).push(input@[pos + 1 + j]));
                }
                let b: u8 = input[pos + 1 + j];
                cring_rle_push_on_vec(&mut output, b);
                j = j + 1;
            }
            proof {
                assert(rem.subrange(1, 1 + repeats) =~= input@.subrange(pos + 1, pos + 1 + repeats));
                assert(rem.skip(1 + repeats) =~= input@.skip(pos + 1 + repeats));
                assert(output@ == out_before + rem.subrange(1, 1 + repeats));
                lemma_decode_bind(input@, pos as int, out_before, 1 + repeats, rem.subrange(1, 1 + repeats));
            }
            pos = pos + 1 + repeats as usize;
        } else {
            if (block_size as usize) > n - pos - 1 {
                proof {
                    assert(spec_rle_decode(rem) is None);
                }
                return Err(RleDecodeError::TruncatedStream);
            }
            let ghost pat = rem.subrange(1, 1 + block_size);
            let ghost out_before = output@;
            proof {
                assert(pat =~= input@.subrange(pos + 1, pos + 1 + block_size));
            }
            let mut i: usize = 0;
            while i < repeats as usize
                invariant
                    0 <= i <= repeats,
                    pos + 1 + block_size <= n == input@.len(),
                    1 <= block_size,
                    pat == input@.subrange(pos + 1, pos + 1 + block_size),
                    output@ == out_before + spec_repeat(pat, i as int),
                decreases repeats - i,
            {
                let ghost out_round = output@;
                let mut j: usize = 0;
                while j < block_size as usize
                    invariant
                        0 <= j <= block_size,
                        pos + 1 + block_size <= n == input@.len(),
                        pat == input@.subrange(pos + 1, pos + 1 + block_size),
                        output@ == out_round + pat.take(j as int),
                    decreases block_size - j,
                {
                    proof {
                        assert(pat.take(j + 1) =~= pat.take(j as int).push(pat[j as int]));
                        assert(pat[j as int] == input@[pos + 1 + j]);
                    }
                    let b: u8 = input[pos + 1 + j];
                    cring_rle_push_on_vec(&mut output, b);
                    j = j + 1;
                }
                proof {
                    assert(pat.take(block_size as int) =~= pat);
                    lemma_repeat_snoc(pat, i as int);
                    assert(output@ == out_before + spec_repeat(pat, i + 1));
                }
                i = i + 1;
            }
            proof {
                assert(rem.skip(1 + block_size) =~= input@.skip(pos + 1 + block_size));
                assert(output@ == out_before + spec_repeat(pat, repeats as int));
                lemma_decode_bind(
                    input@,
                    pos as int,
                    out_before,
                    1 + block_size,
                    spec_repeat(pat, repeats as int),
                );
            }
            pos = pos + 1 + block_size as usize;
        }
    }
    proof {
        assert(input@.skip(n as int) =~= Seq::<u8>::empty());
        assert(output@ + Seq::<u8>::empty() =~= output@);
    }
    Ok(output)
}

/// Unrolling one block of the decoder: when the block at `pos` expands to
/// `piece` and occupies `used` bytes, the whole stream's meaning steps from
/// `acc` to `acc + piece` while the cursor moves past the block.
proof fn lemma_decode_bind(s: Seq<u8>, pos: int, acc: Seq<u8>, used: int, piece: Seq<u8>)
    requires
        0 <= pos,
        pos + used <= s.len(),
        1 <= used,
        spec_rle_decode(s) == match spec_rle_decode(s.skip(pos)) {
            Some(rest) => Some(acc + rest),
            None => None::<Seq<u8>>,
        },
        spec_rle_decode(s.skip(pos)) == match spec_rle_decode(s.skip(pos + used)) {
            Some(rest) => Some(piece + rest),
            None => None::<Seq<u8>>,
        },
    ensures
        spec_rle_decode(s) == match spec_rle_decode(s.skip(pos + used)) {
            Some(rest) => Some((acc + piece) + rest),
            None => None::<Seq<u8>>,
        },
{
    match spec_rle_decode(s.skip(pos + used)) {
        Some(rest) => {
            assert(acc + (piece + rest) =~= (acc + piece) + rest);
        },
        None => {},
    }
}

/// Appending one more copy at the back of a repetition.
proof fn lemma_repeat_snoc(pat: Seq<u8>, n: int)
    requires
        n >= 0,
    ensures
        spec_repeat(pat, n) + pat == spec_repeat(pat, n + 1),
    decreases n,
{
    if n == 0 {
        assert(spec_repeat(pat, 0) + pat =~= pat + spec_repeat(pat, 0));
    } else {
        lemma_repeat_snoc(pat, n - 1);
        assert((pat + spec_repeat(pat, n - 1)) + pat =~= pat + (spec_repeat(pat, n - 1) + pat));
    }
}

/// Scoring metric for a candidate block: roughly the output bytes it would
/// emit per thousand input bytes it would consume (lower is better).
pub open spec fn spec_savings(output_size: int, input_size: int) -> int {
    1000 * output_size / input_size
}

/// Computes the savings fraction of a candidate block.
pub fn cring_rle_calc_block_savings_frac(output_size: u8, input_size: u8) -> (r: u16)
    requires
        1 <= input_size,
        output_size <= 65,
    ensures
        r == spec_savings(output_size as int, input_size as int),
{
    1000u16 * output_size as u16 / input_size as u16
}

/// Length of the literal-run candidate at the front: all that remains, at
/// most 32 bytes.
pub open spec fn spec_lit_len(s: Seq<u8>) -> int {
    if s.len() < 32 {
        s.len() as int
    } else {
        32
    }
}

/// Repeat count used for a repeat candidate of unit size `bs`: the whole
/// repeats at the front, capped at the 64 a header can carry.
pub open spec fn spec_run(s: Seq<u8>, bs: int) -> int {
    let m = spec_reps(s, s.take(bs));
    if m < 64 {
        m as int
    } else {
        64
    }
}

/// The sentinel score of a candidate that is not available.
pub open spec fn spec_no_candidate() -> int {
    65535
}

/// Savings fraction of candidate `i` at the front of the input: 0 is the
/// literal run, 1 to 3 a repeat run of that unit size. A repeat candidate
/// needs at least one whole unit; otherwise it scores the sentinel.
pub open spec fn spec_cand_score(s: Seq<u8>, i: int) -> int {
    if i == 0 {
        spec_savings(spec_lit_len(s) + 1, spec_lit_len(s))
    } else if s.len() >= i {
        spec_savings(i + 1, i * spec_run(s, i))
    } else {
        spec_no_candidate()
    }
}

/// The unit size chosen at the front of a nonempty input: the candidate
/// with the lowest savings fraction, ties broken toward the literal run
/// and then the smaller unit.
pub open spec fn spec_best_bs(s: Seq<u8>) -> int {
    let c0 = spec_cand_score(s, 0);
    let c1 = spec_cand_score(s, 1);
    let c2 = spec_cand_score(s, 2);
    let c3 = spec_cand_score(s, 3);
    if c0 <= c1 && c0 <= c2 && c0 <= c3 {
        0
    } else if c1 <= c2 && c1 <= c3 {
        1
    } else if c2 <= c3 {
        2
    } else {
        3
    }
}

/// Bytes of input the chosen block consumes.
pub open spec fn spec_consumed(s: Seq<u8>) -> int {
    let bs = spec_best_bs(s);
    if bs == 0 {
        spec_lit_len(s)
    } else {
        bs * spec_run(s, bs)
    }
}

/// The encoded block emitted for the front of a nonempty input: one header
/// byte, then the literal bytes or the repeated unit.
pub open spec fn spec_block(s: Seq<u8>) -> Seq<u8> {
    let bs = spec_best_bs(s);
    if bs == 0 {
        seq![spec_header(spec_lit_len(s), 0)] + s.take(spec_lit_len(s))
    } else {
        seq![spec_header(spec_run(s, bs), bs)] + s.take(bs)
    }
}

/// Greedy run-length encoding of a byte sequence: blocks chosen left to
/// right by lowest savings fraction, until the input is exhausted.
pub open spec fn spec_rle_encode(s: Seq<u8>) -> Seq<u8>
    decreases s.len(),
    via spec_rle_encode_decreases
{
    if s.len() == 0 {
        Seq::empty()
    } else {
        spec_block(s) + spec_rle_encode(s.skip(spec_consumed(s)))
    }
}

#[via_fn]
proof fn spec_rle_encode_decreases(s: Seq<u8>) {
    if s.len() > 0 {
        lemma_consumed_bounds(s);
    }
}

/// A repeat candidate the choice can fall on always has at least one whole
/// unit in the input.
proof fn lemma_best_available(s: Seq<u8>)
    requires
        s.len() > 0,
    ensures
        spec_best_bs(s) != 0 ==> s.len() >= spec_best_bs(s),
        spec_best_bs(s) != 0 ==> spec_run(s, spec_best_bs(s)) >= 1,
        0 <= spec_best_bs(s) <= 3,
{
    let c0 = spec_cand_score(s, 0);
    let c1 = spec_cand_score(s, 1);
    let c2 = spec_cand_score(s, 2);
    let c3 = spec_cand_score(s, 3);
    lemma_scores_bounded(s);
    let bs = spec_best_bs(s);
    if bs != 0 {
        assert(s.len() >= bs);
        assert(s.take(bs).len() == bs);
        assert(spec_reps(s, s.take(bs)) >= 1);
    }
}

/// Every candidate score fits the sentinel's range: an available candidate
/// scores below it.
proof fn lemma_scores_bounded(s: Seq<u8>)
    requires
        s.len() > 0,
    ensures
        forall|i: int|
            0 <= i <= 3 ==> #[trigger] spec_cand_score(s, i) <= spec_no_candidate(),
        forall|i: int|
            0 <= i <= 3 && (i == 0 || s.len() >= i) ==> #[trigger] spec_cand_score(s, i)
                < spec_no_candidate(),
{
    assert forall|i: int| 0 <= i <= 3 implies #[trigger] spec_cand_score(s, i)
        <= spec_no_candidate() && ((i == 0 || s.len() >= i) ==> spec_cand_score(s, i)
        < spec_no_candidate()) by {
        if i == 0 {
            let l = spec_lit_len(s);
            assert(1 <= l <= 32);
            assert(1000 * (l + 1) / l <= 33000int / l) by (nonlinear_arith)
                requires
                    1 <= l <= 32,
            ;
            vstd::arithmetic::div_mod::lemma_div_nonincreasing(33000int, l);
        } else if s.len() >= i {
            assert(s.take(i).len() == i);
            assert(spec_reps(s, s.take(i)) >= 1);
            let r = spec_run(s, i);
            assert(1 <= r <= 64);
            let d = i * r;
            assert(1 <= d) by (nonlinear_arith)
                requires
                    1 <= i && 1 <= r && d == i * r,
            ;
            assert(1000 * (i + 1) / d <= 4000int / d) by (nonlinear_arith)
                requires
                    1 <= i <= 3 && 1 <= d,
            ;
            vstd::arithmetic::div_mod::lemma_div_nonincreasing(4000int, d);
        }
    }
}

/// The chosen block always consumes at least one byte and never more than
/// remain.
pub proof fn lemma_consumed_bounds(s: Seq<u8>)
    requires
        s.len() > 0,
    ensures
        1 <= spec_consumed(s) <= s.len(),
{
    let bs = spec_best_bs(s);
    lemma_best_available(s);
    if bs != 0 {
        let pat = s.take(bs);
        let r = spec_run(s, bs);
        lemma_reps_le(s, pat);
        assert(r <= spec_reps(s, pat));
        lemma_mul_inequality(r, spec_reps(s, pat) as int, bs);
        assert(r * bs == bs * r) by (nonlinear_arith);
        assert(spec_reps(s, pat) * bs == spec_reps(s, pat) * pat.len());
        assert(bs * r >= 1) by (nonlinear_arith)
            requires
                bs >= 1 && r >= 1,
        ;
    }
}

/// Scores one repeat candidate at `pos`: its savings fraction, and the
/// capped repeat count where the candidate is available.
fn cand_score(input: &[u8], pos: usize, bs: usize) -> (r: (u16, u8))
    requires
        pos < input@.len(),
        1 <= bs <= 3,
    ensures
        ({
            let rem = input@.skip(pos as int);
            r.0 == spec_cand_score(rem, bs as int) && (rem.len() >= bs ==> r.1 == spec_run(
                rem,
                bs as int,
            ))
        }),
{
    let n: usize = input.len();
    let tail: &[u8] = slice_subrange(input, pos, n);
    proof {
        assert(tail@ =~= input@.skip(pos as int));
    }
    let ghost rem = input@.skip(pos as int);
    match cring_rle_calc_max_block_repeats(tail, bs) {
        None => (65535u16, 0u8),
        Some(reps) => {
            let run: usize = if reps < 64 {
                reps
            } else {
                64
            };
            proof {
                assert(rem.take(bs as int).len() == bs);
                let m = spec_reps(rem, rem.take(bs as int));
                assert(m >= 1);
                lemma_reps_le(rem, rem.take(bs as int));
                assert(m <= m * bs) by (nonlinear_arith)
                    requires
                        m >= 0 && bs >= 1,
                ;
                assert(m <= rem.len());
                assert(reps == m);
                assert(run == spec_run(rem, bs as int));
                assert(1 <= run <= 64);
                assert(1 <= bs * run <= 192) by (nonlinear_arith)
                    requires
                        1 <= bs <= 3 && 1 <= run <= 64,
                ;
            }
            let score: u16 = cring_rle_calc_block_savings_frac((bs + 1) as u8, (bs * run) as u8);
            (score, run as u8)
        },
    }
}

/// Chooses the block to emit at `pos`: the unit size (0 for a literal run)
/// and its count, by lowest savings fraction with ties toward the literal
/// run and then the smaller unit.
fn pick_block(input: &[u8], pos: usize) -> (r: (u8, u8))
    requires
        pos < input@.len(),
    ensures
        ({
            let rem = input@.skip(pos as int);
            let bs = spec_best_bs(rem);
            r.0 == bs && (bs == 0 ==> r.1 == spec_lit_len(rem)) && (bs != 0 ==> r.1 == spec_run(
                rem,
                bs as int,
            )) && (bs == 0 ==> 1 <= r.1 <= 32) && (bs != 0 ==> 1 <= r.1 <= 64)
        }),
{
    let n: usize = input.len();
    let rem_len: usize = n - pos;
    let max_len: usize = if rem_len < 32 {
        rem_len
    } else {
        32
    };
    let ghost rem = input@.skip(pos as int);
    proof {
        assert(rem.len() == rem_len);
        assert(max_len == spec_lit_len(rem));
    }
    let s0: u16 = cring_rle_calc_block_savings_frac((max_len + 1) as u8, max_len as u8);
    let (s1, r1) = cand_score(input, pos, 1);
    let (s2, r2) = cand_score(input, pos, 2);
    let (s3, r3) = cand_score(input, pos, 3);
    proof {
        lemma_best_available(rem);
        lemma_scores_bounded(rem);
    }
    if s0 <= s1 && s0 <= s2 && s0 <= s3 {
        (0u8, max_len as u8)
    } else if s1 <= s2 && s1 <= s3 {
        (1u8, r1)
    } else if s2 <= s3 {
        (2u8, r2)
    } else {
        (3u8, r3)
    }
}

/// Greedily run-length encodes a byte sequence. Total over every input;
/// the empty input encodes to the empty stream.
pub fn cring_rle_encode(input: &[u8]) -> (r: Vec<u8>)
    ensures
        r@ == spec_rle_encode(input@),
{
    let n: usize = input.len();
    let mut output: Vec<u8> = Vec::new();
    let mut pos: usize = 0;
    proof {
        assert(input@.skip(0) =~= input@);
        assert(output@ + spec_rle_encode(input@) =~= spec_rle_encode(input@));
    }
    while pos < n
        invariant
            0 <= pos <= n == input@.len(),
            spec_rle_encode(input@) == output@ + spec_rle_encode(input@.skip(pos as int)),
        decreases n - pos,
    {
        let ghost rem = input@.skip(pos as int);
        let ghost out_before = output@;
        let (best_bs, count) = pick_block(input, pos);
        proof {
            lemma_consumed_bounds(rem);
        }
        let consumed: usize;
        if best_bs == 0 {
            let header: u8 = cring_rle_calc_header(count, 0);
            cring_rle_push_on_vec(&mut output, header);
            let ghost emitted = seq![header];
            let mut j: usize = 0;
            while j < count as usize
                invariant
                    0 <= j <= count,
                    pos + count <= n == input@.len(),
                    emitted == seq![header],
                    output@ == out_before + emitted + input@.subrange(pos as int, pos + j),
                decreases count - j,
            {
                proof {
                    assert(input@.subrange(pos as int, pos + j + 1) =~= input@.subrange(
                        pos as int,
                        pos + j,
                    ).push(input@[pos + j]));
                }
                let b: u8 = input[pos + j];
                cring_rle_push_on_vec(&mut output, b);
                j = j + 1;
            }
            proof {
                assert(rem.take(count as int) =~= input@.subrange(pos as int, pos + count));
                assert(spec_block(rem) =~= emitted + rem.take(count as int));
                assert(output@ =~= out_before + spec_block(rem));
            }
            consumed = count as usize;
        } else {
            let header: u8 = cring_rle_calc_header(count, best_bs);
            cring_rle_push_on_vec(&mut output, header);
            let ghost emitted = seq![header];
            let bs_u: usize = best_bs as usize;
            let mut j: usize = 0;
            while j < bs_u
                invariant
                    0 <= j <= bs_u <= 3,
                    pos + bs_u <= n == input@.len(),
                    emitted == seq![header],
                    output@ == out_before + emitted + input@.subrange(pos as int, pos + j),
                decreases bs_u - j,
            {
                proof {
                    assert(input@.subrange(pos as int, pos + j + 1) =~= input@.subrange(
                        pos as int,
                        pos + j,
                    ).push(input@[pos + j]));
                }
                let b: u8 = input[pos + j];
                cring_rle_push_on_vec(&mut output, b);
                j = j + 1;
            }
            proof {
                assert(rem.take(bs_u as int) =~= input@.subrange(pos as int, pos + bs_u));
                assert(spec_block(rem) =~= emitted + rem.take(bs_u as int));
                assert(output@ =~= out_before + spec_block(rem));
            }
            consumed = bs_u * (count as usize);
            proof {
                assert(consumed == spec_consumed(rem));
            }
        }
        proof {
            assert(rem.skip(spec_consumed(rem)) =~= input@.skip(pos + spec_consumed(rem)));
            assert(spec_rle_encode(rem) == spec_block(rem) + spec_rle_encode(
                input@.skip(pos + consumed),
            ));
            assert(out_before + spec_rle_encode(rem) =~= (out_before + spec_block(rem))
                + spec_rle_encode(input@.skip(pos + consumed)));
        }
        pos = pos + consumed;
    }
    proof {
        assert(input@.skip(n as int) =~= Seq::<u8>::empty());
        assert(output@ + Seq::<u8>::empty() =~= output@);
    }
    output
}



/// Packing a count and unit size into a header and reading them back is
/// the identity on the valid ranges.
pub proof fn lemma_header_fields(count: int, unit: int)
    requires
        1 <= count <= 64,
        0 <= unit < 4,
    ensures
        spec_header(count, unit) == (count - 1) * 4 + unit,
        spec_header_len(spec_header(count, unit)) == count,
        spec_header_block_size(spec_header(count, unit)) == unit,
{
    assert((count - 1) * 4 + unit <= 255) by (nonlinear_arith)
        requires
            1 <= count <= 64 && 0 <= unit < 4,
    ;
    assert(((count - 1) * 4 + unit) / 4 == count - 1 && ((count - 1) * 4 + unit) % 4 == unit)
        by (nonlinear_arith)
        requires
            1 <= count <= 64 && 0 <= unit < 4,
    ;
}

/// Round trip: decoding an encoded stream gives back exactly the bytes
/// that were encoded, for every byte sequence.
pub proof fn lemma_rle_round_trip(s: Seq<u8>)
    ensures
        spec_rle_decode(spec_rle_encode(s)) == Some(s),
    decreases s.len(),
{
    if s.len() == 0 {
        assert(spec_rle_encode(s) == Seq::<u8>::empty());
        assert(s =~= Seq::<u8>::empty());
    } else {
        lemma_consumed_bounds(s);
        lemma_best_available(s);
        let k = spec_consumed(s);
        let rest = s.skip(k);
        lemma_rle_round_trip(rest);
        let enc_rest = spec_rle_encode(rest);
        let blk = spec_block(s);
        let enc = spec_rle_encode(s);
        assert(enc == blk + enc_rest);
        let bs = spec_best_bs(s);
        if bs == 0 {
            let l = spec_lit_len(s);
            let h = spec_header(l, 0);
            lemma_header_fields(l, 0);
            assert(enc[0] == h);
            assert(enc.len() == 1 + l + enc_rest.len());
            assert(enc.subrange(1, 1 + l) =~= s.take(l));
            assert(enc.skip(1 + l) =~= enc_rest);
            assert(spec_rle_decode(enc) == Some(s.take(l) + rest));
            assert(s.take(l) + rest =~= s);
        } else {
            let r = spec_run(s, bs);
            let h = spec_header(r, bs);
            lemma_header_fields(r, bs);
            assert(enc[0] == h);
            assert(enc.len() == 1 + bs + enc_rest.len());
            assert(enc.subrange(1, 1 + bs) =~= s.take(bs));
            assert(enc.skip(1 + bs) =~= enc_rest);
            lemma_reps_prefix(s, s.take(bs), r);
            assert(r * bs == bs * r) by (nonlinear_arith);
            assert(spec_repeat(s.take(bs), r) == s.take(k));
            assert(spec_rle_decode(enc) == Some(s.take(k) + rest));
            assert(s.take(k) + rest =~= s);
        }
    }
}

/// No literal block in the stream spans more than 32 bytes. The walk
/// steps block by block; a block that would reach past the end of the
/// stream ends it there.
pub open spec fn spec_literal_capped(s: Seq<u8>) -> bool
    decreases s.len(),
{
    if s.len() == 0 {
        true
    } else {
        let h = s[0];
        let bs = spec_header_block_size(h);
        let cnt = spec_header_len(h);
        let k: int = if bs == 0 {
            1 + cnt
        } else {
            1 + bs
        };
        let kk: int = if k <= s.len() {
            k
        } else {
            s.len() as int
        };
        (bs == 0 ==> cnt <= 32) && spec_literal_capped(s.skip(kk))
    }
}

/// Literal cap: the encoder never emits a literal block of more than 32
/// source bytes, even when more literal bytes are available.
pub proof fn lemma_rle_literal_cap(s: Seq<u8>)
    ensures
        spec_literal_capped(spec_rle_encode(s)),
    decreases s.len(),
{
    if s.len() == 0 {
    } else {
        lemma_consumed_bounds(s);
        lemma_best_available(s);
        let k = spec_consumed(s);
        let rest = s.skip(k);
        lemma_rle_literal_cap(rest);
        let enc_rest = spec_rle_encode(rest);
        let enc = spec_rle_encode(s);
        let bs = spec_best_bs(s);
        if bs == 0 {
            let l = spec_lit_len(s);
            lemma_header_fields(l, 0);
            assert(enc[0] == spec_header(l, 0));
            assert(enc.len() == 1 + l + enc_rest.len());
            assert(enc.skip(1 + l) =~= enc_rest);
        } else {
            let r = spec_run(s, bs);
            lemma_header_fields(r, bs);
            assert(enc[0] == spec_header(r, bs));
            assert(enc.len() == 1 + bs + enc_rest.len());
            assert(enc.skip(1 + bs) =~= enc_rest);
        }
    }
}

/// Greedy local optimality: the block chosen at the front of a nonempty
/// input never scores a strictly worse savings fraction than any of the
/// four candidates evaluated there.
pub proof fn lemma_rle_greedy_locally_optimal(s: Seq<u8>)
    requires
        s.len() > 0,
    ensures
        forall|i: int|
            0 <= i <= 3 ==> spec_cand_score(s, spec_best_bs(s)) <= #[trigger] spec_cand_score(
                s,
                i,
            ),
{
    let c0 = spec_cand_score(s, 0);
    let c1 = spec_cand_score(s, 1);
    let c2 = spec_cand_score(s, 2);
    let c3 = spec_cand_score(s, 3);
    assert(spec_best_bs(s) == 0 ==> c0 <= c1 && c0 <= c2 && c0 <= c3);
    assert(spec_best_bs(s) == 1 ==> c1 <= c0 && c1 <= c2 && c1 <= c3);
    assert(spec_best_bs(s) == 2 ==> c2 <= c0 && c2 <= c1 && c2 <= c3);
    assert(spec_best_bs(s) == 3 ==> c3 <= c0 && c3 <= c1 && c3 <= c2);
}

} // verus!
