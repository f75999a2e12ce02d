//! Byte strings: integer encodings, comparison and concatenation.
use vstd::bytes::*;
use vstd::prelude::*;
use vstd::slice::slice_subrange;

verus! {

/// The bytes are not the encoding of a value.
#[derive(Clone, Copy, Debug, PartialEq, Eq, Structural)]
pub struct DecodeError;

/// The big-endian encoding of a `u64`: its little-endian bytes in reverse.
pub open spec fn spec_u64_to_be_bytes(x: u64) -> Seq<u8> {
    spec_u64_to_le_bytes(x).reverse()
}

/// The big-endian encoding of a `u128`: its little-endian bytes in reverse.
pub open spec fn spec_u128_to_be_bytes(x: u128) -> Seq<u8> {
    spec_u128_to_le_bytes(x).reverse()
}

/// A string of `n` zero bytes.
pub open spec fn zeros(n: nat) -> Seq<u8> {
    Seq::new(n, |i: int| 0u8)
}

/// The array of `N` zero bytes.
pub open spec fn zero_array<const N: usize>() -> [u8; N] {
    vstd::array::spec_array_fill_for_copy_type::<u8, N>(0u8)
}

/// The array of zero bytes is the string of as many zero bytes.
pub proof fn lemma_zero_array<const N: usize>()
    ensures
        zero_array::<N>()@ == zeros(N as nat),
{
    assert(zero_array::<N>()@ =~= zeros(N as nat));
}

/// The strings one after the other.
pub open spec fn spec_concat(parts: Seq<Seq<u8>>) -> Seq<u8>
    decreases parts.len(),
{
    if parts.len() == 0 {
        Seq::empty()
    } else {
        spec_concat(parts.drop_last()) + parts.last()
    }
}

/// `encoding` stands in `bytes` from `at` to `end`.
pub open spec fn spec_is_at(bytes: Seq<u8>, at: int, end: int, encoding: Seq<u8>) -> bool {
    0 <= at <= end <= bytes.len() && bytes.subrange(at, end) == encoding
}

/// No string of `parts` is the beginning of a string of `others`, unless
/// the two are the same.
pub open spec fn spec_prefix_free(parts: Seq<Seq<u8>>, others: Seq<Seq<u8>>) -> bool {
    forall|i: int, j: int|
        0 <= i < parts.len() && 0 <= j < others.len() && (#[trigger] parts[i]).is_prefix_of(
            #[trigger] others[j],
        ) ==> parts[i] == others[j]
}

/// What stands in a part of a string stands in every string that holds the
/// part, moved by where the part starts.
pub proof fn lemma_is_at_within(
    bytes: Seq<u8>,
    at: int,
    end: int,
    whole: Seq<u8>,
    from: int,
    to: int,
    encoding: Seq<u8>,
)
    requires
        spec_is_at(bytes, at, end, whole),
        spec_is_at(whole, from, to, encoding),
    ensures
        spec_is_at(bytes, at + from, at + to, encoding),
{
    assert(bytes.subrange(at + from, at + to) =~= bytes.subrange(at, end).subrange(from, to));
}

/// Concatenating one more string appends it.
pub proof fn lemma_concat_push(parts: Seq<Seq<u8>>, part: Seq<u8>)
    ensures
        spec_concat(parts.push(part)) == spec_concat(parts) + part,
{
    assert(parts.push(part).drop_last() =~= parts);
}

/// The first `k` strings stand at the beginning of the concatenation, and
/// the next one directly after them.
pub proof fn lemma_concat_take(parts: Seq<Seq<u8>>, k: int)
    requires
        0 <= k <= parts.len(),
    ensures
        spec_concat(parts.take(k)).is_prefix_of(spec_concat(parts)),
        k < parts.len() ==> spec_concat(parts.take(k + 1)) == spec_concat(parts.take(k))
            + parts[k],
    decreases parts.len() - k,
{
    if k < parts.len() {
        assert(parts.take(k + 1).drop_last() =~= parts.take(k));
        lemma_concat_take(parts, k + 1);
        let shorter = spec_concat(parts.take(k));
        let longer = spec_concat(parts.take(k + 1));
        let all = spec_concat(parts);
        assert(all.subrange(0, shorter.len() as int) =~= longer.subrange(
            0,
            shorter.len() as int,
        ));
        assert(longer.subrange(0, shorter.len() as int) =~= shorter);
    } else {
        assert(parts.take(k) =~= parts);
    }
}

/// Two concatenations that stand at the beginning of the same string, of
/// strings none of which is the beginning of another, agree string by
/// string as far as both go.
pub proof fn lemma_concat_agree(a: Seq<Seq<u8>>, b: Seq<Seq<u8>>, s: Seq<u8>, k: int)
    requires
        0 <= k <= a.len(),
        k <= b.len(),
        spec_concat(a).is_prefix_of(s),
        spec_concat(b).is_prefix_of(s),
        spec_prefix_free(a, b),
        spec_prefix_free(b, a),
    ensures
        a.take(k) == b.take(k),
    decreases k,
{
    if k == 0 {
        assert(a.take(0) =~= b.take(0));
    } else {
        lemma_concat_agree(a, b, s, k - 1);
        lemma_concat_take(a, k - 1);
        lemma_concat_take(a, k);
        lemma_concat_take(b, k - 1);
        lemma_concat_take(b, k);
        let before = spec_concat(a.take(k - 1));
        let start = before.len() as int;
        let x = a[k - 1];
        let y = b[k - 1];
        let ax = spec_concat(a.take(k));
        let by = spec_concat(b.take(k));
        assert(ax == before + x);
        assert(by == before + y);
        assert(s.subrange(0, ax.len() as int) =~= ax) by {
            assert(spec_concat(a).subrange(0, ax.len() as int) == ax);
        }
        assert(s.subrange(0, by.len() as int) =~= by) by {
            assert(spec_concat(b).subrange(0, by.len() as int) == by);
        }
        assert(ax.len() == start + x.len());
        assert(by.len() == start + y.len());
        assert forall|j: int| 0 <= j < x.len() implies s[start + j] == x[j] by {
            assert(s.subrange(0, ax.len() as int)[start + j] == ax[start + j]);
        }
        assert forall|j: int| 0 <= j < y.len() implies s[start + j] == y[j] by {
            assert(s.subrange(0, by.len() as int)[start + j] == by[start + j]);
        }
        if x.len() <= y.len() {
            assert(y.subrange(0, x.len() as int) =~= x);
            assert(x.is_prefix_of(y));
        } else {
            assert(x.subrange(0, y.len() as int) =~= y);
            assert(y.is_prefix_of(x));
        }
        assert(x == y);
        assert(a.take(k) =~= a.take(k - 1).push(x));
        assert(b.take(k) =~= b.take(k - 1).push(y));
    }
}

/// Every string of `parts` has `width` bytes.
pub open spec fn spec_uniform(parts: Seq<Seq<u8>>, width: nat) -> bool {
    forall|i: int| 0 <= i < parts.len() ==> (#[trigger] parts[i]).len() == width
}

/// Strings of one width, concatenated, take the width times their number.
pub proof fn lemma_concat_uniform_len(parts: Seq<Seq<u8>>, width: nat)
    requires
        spec_uniform(parts, width),
    ensures
        spec_concat(parts).len() == width * parts.len(),
    decreases parts.len(),
{
    if parts.len() > 0 {
        let before = parts.drop_last();
        assert(spec_uniform(before, width)) by {
            assert forall|i: int| 0 <= i < before.len() implies (#[trigger] before[i]).len()
                == width by {
                assert(before[i] == parts[i]);
            }
        }
        lemma_concat_uniform_len(before, width);
        assert(width * parts.len() == width * (parts.len() - 1) + width) by (nonlinear_arith);
    } else {
        assert(width * 0 == 0);
    }
}

/// In a concatenation of strings of one width, the string with index `i`
/// stands at `i` times the width.
pub proof fn lemma_concat_window(parts: Seq<Seq<u8>>, width: nat, i: int)
    requires
        spec_uniform(parts, width),
        0 <= i < parts.len(),
    ensures
        spec_concat(parts).len() == width * parts.len(),
        width * i + width <= spec_concat(parts).len(),
        spec_concat(parts).subrange(width * i, width * i + width) == parts[i],
{
    lemma_concat_uniform_len(parts, width);
    lemma_concat_take(parts, i);
    lemma_concat_take(parts, i + 1);
    let before = parts.take(i);
    assert(spec_uniform(before, width)) by {
        assert forall|j: int| 0 <= j < before.len() implies (#[trigger] before[j]).len()
            == width by {
            assert(before[j] == parts[j]);
        }
    }
    lemma_concat_uniform_len(before, width);
    let upto = spec_concat(parts.take(i + 1));
    let all = spec_concat(parts);
    assert(upto == spec_concat(before) + parts[i]);
    assert(upto.len() == width * i + width);
    assert(all.subrange(0, upto.len() as int) == upto);
    assert(all.subrange(width * i, width * i + width) =~= parts[i]) by {
        assert forall|j: int| 0 <= j < width implies all[width * i + j] == parts[i][j] by {
            assert(all.subrange(0, upto.len() as int)[width * i + j] == upto[width * i + j]);
        }
    }
}

/// A string that holds, at each multiple of the width, the string of that
/// index, and nothing after the last, is the concatenation.
pub proof fn lemma_concat_of_windows(parts: Seq<Seq<u8>>, width: nat, whole: Seq<u8>)
    requires
        spec_uniform(parts, width),
        whole.len() == width * parts.len(),
        forall|i: int|
            0 <= i < parts.len() ==> whole.subrange(width * i, width * i + width)
                == #[trigger] parts[i],
    ensures
        spec_concat(parts) == whole,
    decreases parts.len(),
{
    if parts.len() == 0 {
        assert(width * 0 == 0);
        assert(whole =~= spec_concat(parts));
    } else {
        let n = parts.len() as int;
        let before = parts.drop_last();
        assert(width * n == width * (n - 1) + width) by (nonlinear_arith);
        let head = whole.subrange(0, width * (n - 1));
        assert(0 <= width * (n - 1)) by (nonlinear_arith)
            requires
                n >= 1,
                width >= 0,
        ;
        assert(spec_uniform(before, width)) by {
            assert forall|i: int| 0 <= i < before.len() implies (#[trigger] before[i]).len()
                == width by {
                assert(before[i] == parts[i]);
            }
        }
        assert forall|i: int| 0 <= i < before.len() implies head.subrange(
            width * i,
            width * i + width,
        ) == #[trigger] before[i] by {
            assert(before[i] == parts[i]);
            assert(width * i + width <= width * (n - 1)) by (nonlinear_arith)
                requires
                    0 <= i < n - 1,
                    width >= 0,
            ;
            assert(0 <= width * i) by (nonlinear_arith)
                requires
                    0 <= i,
                    width >= 0,
            ;
            assert(head.subrange(width * i, width * i + width) =~= whole.subrange(
                width * i,
                width * i + width,
            ));
        }
        lemma_concat_of_windows(before, width, head);
        assert(whole.subrange(width * (n - 1), width * (n - 1) + width) == parts[n - 1]);
        assert(whole =~= head + parts.last());
    }
}

/// Appends `src` to `dst`.
pub fn append_bytes(dst: &mut Vec<u8>, src: &[u8])
    ensures
        final(dst)@ == old(dst)@ + src@,
{
    let mut i: usize = 0;
    while i < src.len()
        invariant
            i <= src.len(),
            dst@ == old(dst)@ + src@.subrange(0, i as int),
        decreases src.len() - i,
    {
        dst.push(src[i]);
        i += 1;
    }
    assert(src@.subrange(0, src@.len() as int) == src@);
}

/// The bytes of `src` in reverse order.
pub fn reversed(src: &[u8]) -> (out: Vec<u8>)
    ensures
        out@ == src@.reverse(),
{
    let mut out: Vec<u8> = Vec::new();
    let mut i: usize = src.len();
    while i > 0
        invariant
            i <= src.len(),
            out@.len() == src.len() - i,
            forall|j: int| 0 <= j < out@.len() ==> out@[j] == src@[src.len() - 1 - j],
        decreases i,
    {
        i -= 1;
        out.push(src[i]);
    }
    assert(out@ =~= src@.reverse());
    out
}

/// Big-endian bytes of a `u64`.
pub fn u64_to_be_bytes(x: u64) -> (out: Vec<u8>)
    ensures
        out@ == spec_u64_to_be_bytes(x),
        out@.len() == 8,
{
    let le = u64_to_le_bytes(x);
    reversed(le.as_slice())
}

/// Big-endian bytes of a `u128`.
pub fn u128_to_be_bytes(x: u128) -> (out: Vec<u8>)
    ensures
        out@ == spec_u128_to_be_bytes(x),
        out@.len() == 16,
{
    let le = u128_to_le_bytes(x);
    reversed(le.as_slice())
}

/// The `N` bytes of `bytes` from `at` on, as an array.
pub fn array_at<const N: usize>(bytes: &[u8], at: usize) -> (array: [u8; N])
    requires
        at + N <= bytes@.len(),
    ensures
        array@ == bytes@.subrange(at as int, at + N),
{
    let len = bytes.len();
    let mut array = [0u8; N];
    let mut i: usize = 0;
    while i < N
        invariant
            i <= N,
            at + N <= bytes@.len() == len,
            forall|j: int| 0 <= j < i ==> array@[j] == bytes@[at + j],
        decreases N - i,
    {
        array[i] = bytes[at + i];
        i += 1;
    }
    assert(array@ =~= bytes@.subrange(at as int, at + N));
    array
}

/// The `u64` whose little-endian encoding are the 8 bytes from `at` on.
pub fn u64_le_at(bytes: &[u8], at: usize) -> (x: u64)
    requires
        at + 8 <= bytes@.len(),
    ensures
        spec_u64_to_le_bytes(x) == bytes@.subrange(at as int, at + 8),
{
    proof {
        lemma_auto_spec_u64_to_from_le_bytes();
    }
    let len = bytes.len();
    u64_from_le_bytes(slice_subrange(bytes, at, at + 8))
}

/// The `u128` whose little-endian encoding are the 16 bytes from `at` on.
pub fn u128_le_at(bytes: &[u8], at: usize) -> (x: u128)
    requires
        at + 16 <= bytes@.len(),
    ensures
        spec_u128_to_le_bytes(x) == bytes@.subrange(at as int, at + 16),
{
    proof {
        lemma_auto_spec_u128_to_from_le_bytes();
    }
    let len = bytes.len();
    u128_from_le_bytes(slice_subrange(bytes, at, at + 16))
}

/// Two `u64` with the same little-endian encoding are the same.
pub proof fn lemma_u64_le_injective(x: u64, y: u64)
    requires
        spec_u64_to_le_bytes(x) == spec_u64_to_le_bytes(y),
    ensures
        x == y,
{
    lemma_auto_spec_u64_to_from_le_bytes();
    assert(spec_u64_from_le_bytes(spec_u64_to_le_bytes(x)) == x);
    assert(spec_u64_from_le_bytes(spec_u64_to_le_bytes(y)) == y);
}

/// Two `u128` with the same little-endian encoding are the same.
pub proof fn lemma_u128_le_injective(x: u128, y: u128)
    requires
        spec_u128_to_le_bytes(x) == spec_u128_to_le_bytes(y),
    ensures
        x == y,
{
    lemma_auto_spec_u128_to_from_le_bytes();
    assert(spec_u128_to_le_bytes(x).len() == 16);
    assert(spec_u128_to_le_bytes(y).len() == 16);
    assert(spec_u128_from_le_bytes(spec_u128_to_le_bytes(x)) == x);
    assert(spec_u128_from_le_bytes(spec_u128_to_le_bytes(y)) == y);
}

/// Whether two byte strings are the same.
pub fn bytes_equal(a: &[u8], b: &[u8]) -> (r: bool)
    ensures
        r == (a@ == b@),
{
    if a.len() != b.len() {
        return false;
    }
    let mut i: usize = 0;
    while i < a.len()
        invariant
            i <= a.len(),
            a.len() == b.len(),
            forall|j: int| 0 <= j < i ==> a@[j] == b@[j],
        decreases a.len() - i,
    {
        if a[i] != b[i] {
            return false;
        }
        i += 1;
    }
    assert(a@ =~= b@);
    true
}

/// Whether all bytes are zero.
pub fn all_zero(bytes: &[u8]) -> (r: bool)
    ensures
        r == (bytes@ == zeros(bytes@.len())),
{
    let mut i: usize = 0;
    while i < bytes.len()
        invariant
            i <= bytes.len(),
            forall|j: int| 0 <= j < i ==> bytes@[j] == 0,
        decreases bytes.len() - i,
    {
        if bytes[i] != 0 {
            assert(zeros(bytes@.len())[i as int] == 0);
            return false;
        }
        i += 1;
    }
    assert(bytes@ =~= zeros(bytes@.len()));
    true
}

/// Two arrays with the same bytes are the same array.
pub proof fn lemma_array_eq<const N: usize>(a: [u8; N], b: [u8; N])
    requires
        a@ == b@,
    ensures
        a == b,
{
    assert(a =~= b);
}

} // verus!
