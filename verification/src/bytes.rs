//! Integers and fixed-width fields as bytes.
use vstd::prelude::*;
use vstd::slice::slice_subrange;

verus! {

/// The number that `bytes` spells, most significant byte first.
pub open spec fn be_value(bytes: Seq<u8>) -> nat
    decreases bytes.len(),
{
    if bytes.len() == 0 {
        0
    } else {
        be_value(bytes.drop_last()) * 256 + bytes.last() as nat
    }
}

/// The lowest `width` bytes of `value`, most significant byte first.
pub open spec fn be_bytes(value: nat, width: nat) -> Seq<u8>
    decreases width,
{
    if width == 0 {
        Seq::empty()
    } else {
        be_bytes(value / 256, (width - 1) as nat).push((value % 256) as u8)
    }
}

/// The number that `bytes` spells, least significant byte first.
pub open spec fn le_value(bytes: Seq<u8>) -> nat
    decreases bytes.len(),
{
    if bytes.len() == 0 {
        0
    } else {
        bytes[0] as nat + 256 * le_value(bytes.drop_first())
    }
}

/// The lowest `width` bytes of `value`, least significant byte first.
pub open spec fn le_bytes(value: nat, width: nat) -> Seq<u8>
    decreases width,
{
    if width == 0 {
        Seq::empty()
    } else {
        seq![(value % 256) as u8] + le_bytes(value / 256, (width - 1) as nat)
    }
}

/// Two to the power of `8 * width`: the first number that does not fit in `width` bytes.
pub open spec fn byte_limit(width: nat) -> nat
    decreases width,
{
    if width == 0 {
        1
    } else {
        256 * byte_limit((width - 1) as nat)
    }
}

/// A number of `width` bytes is read back from its big-endian bytes.
pub proof fn lemma_be_round_trip(value: nat, width: nat)
    requires
        value < byte_limit(width),
    ensures
        be_bytes(value, width).len() == width,
        be_value(be_bytes(value, width)) == value,
    decreases width,
{
    if width > 0 {
        lemma_be_round_trip(value / 256, (width - 1) as nat);
        let shorter = be_bytes(value / 256, (width - 1) as nat);
        assert(be_bytes(value, width).drop_last() =~= shorter);
    }
}

pub proof fn lemma_be_bytes_len(value: nat, width: nat)
    ensures
        be_bytes(value, width).len() == width,
    decreases width,
{
    if width > 0 {
        lemma_be_bytes_len(value / 256, (width - 1) as nat);
    }
}

/// Bytes are the big-endian bytes of the number they spell.
pub proof fn lemma_be_value_round_trip(bytes: Seq<u8>)
    ensures
        be_value(bytes) < byte_limit(bytes.len()),
        be_bytes(be_value(bytes), bytes.len()) == bytes,
    decreases bytes.len(),
{
    if bytes.len() > 0 {
        lemma_be_value_round_trip(bytes.drop_last());
        assert(bytes.drop_last().push(bytes.last()) =~= bytes);
    }
}

/// A number of `width` bytes is read back from its little-endian bytes.
pub proof fn lemma_le_round_trip(value: nat, width: nat)
    requires
        value < byte_limit(width),
    ensures
        le_bytes(value, width).len() == width,
        le_value(le_bytes(value, width)) == value,
    decreases width,
{
    if width > 0 {
        lemma_le_round_trip(value / 256, (width - 1) as nat);
        let shorter = le_bytes(value / 256, (width - 1) as nat);
        assert(le_bytes(value, width).drop_first() =~= shorter);
    }
}

/// Bytes are the little-endian bytes of the number they spell.
pub proof fn lemma_le_value_round_trip(bytes: Seq<u8>)
    ensures
        le_value(bytes) < byte_limit(bytes.len()),
        le_bytes(le_value(bytes), bytes.len()) == bytes,
    decreases bytes.len(),
{
    if bytes.len() > 0 {
        lemma_le_value_round_trip(bytes.drop_first());
        assert(seq![bytes[0]] + bytes.drop_first() =~= bytes);
    }
}

pub proof fn lemma_byte_limits()
    ensures
        byte_limit(1) == 0x100,
        byte_limit(2) == 0x1_0000,
        byte_limit(4) == 0x1_0000_0000,
        byte_limit(8) == 0x1_0000_0000_0000_0000,
{
    reveal_with_fuel(byte_limit, 9);
}

pub proof fn lemma_be_value_4(bytes: Seq<u8>)
    requires
        bytes.len() == 4,
    ensures
        be_value(bytes) == bytes[0] * 0x100_0000 + bytes[1] * 0x1_0000 + bytes[2] * 0x100
            + bytes[3],
{
    reveal_with_fuel(be_value, 5);
}

pub proof fn lemma_be_value_8(bytes: Seq<u8>)
    requires
        bytes.len() == 8,
    ensures
        be_value(bytes) == be_value(bytes.subrange(0, 4)) * 0x1_0000_0000 + be_value(
            bytes.subrange(4, 8),
        ),
{
    lemma_be_value_4(bytes.subrange(0, 4));
    lemma_be_value_4(bytes.subrange(4, 8));
    reveal_with_fuel(be_value, 9);
}

pub proof fn lemma_le_value_2(bytes: Seq<u8>)
    requires
        bytes.len() == 2,
    ensures
        le_value(bytes) == bytes[0] + bytes[1] * 0x100,
{
    reveal_with_fuel(le_value, 3);
}

pub proof fn lemma_le_value_4(bytes: Seq<u8>)
    requires
        bytes.len() == 4,
    ensures
        le_value(bytes) == bytes[0] + bytes[1] * 0x100 + bytes[2] * 0x1_0000 + bytes[3]
            * 0x100_0000,
{
    reveal_with_fuel(le_value, 5);
}

pub proof fn lemma_le_value_8(bytes: Seq<u8>)
    requires
        bytes.len() == 8,
    ensures
        le_value(bytes) == le_value(bytes.subrange(0, 4)) + le_value(bytes.subrange(4, 8))
            * 0x1_0000_0000,
{
    lemma_le_value_4(bytes.subrange(0, 4));
    lemma_le_value_4(bytes.subrange(4, 8));
    reveal_with_fuel(le_value, 9);
}

/// Items of one width take that width each.
pub proof fn lemma_flatten_fixed_len(items: Seq<Seq<u8>>, width: nat)
    requires
        forall|i: int| 0 <= i < items.len() ==> (#[trigger] items[i]).len() == width,
    ensures
        items.flatten().len() == items.len() * width,
    decreases items.len(),
{
    if items.len() == 0 {
        assert(items.len() * width == 0);
    } else {
        let rest = items.drop_first();
        lemma_flatten_fixed_len(rest, width);
        assert(items.len() * width == rest.len() * width + width) by (nonlinear_arith)
            requires
                items.len() == rest.len() + 1,
        ;
    }
}

/// Items of one width lie behind one another at multiples of that width.
pub proof fn lemma_flatten_fixed(items: Seq<Seq<u8>>, width: nat, i: int)
    requires
        forall|j: int| 0 <= j < items.len() ==> (#[trigger] items[j]).len() == width,
        0 <= i < items.len(),
    ensures
        0 <= i * width,
        i * width + width <= items.len() * width,
        items.flatten().len() == items.len() * width,
        items[i] == items.flatten().subrange(i * width, i * width + width),
    decreases items.len(),
{
    let rest = items.drop_first();
    lemma_flatten_fixed_len(items, width);
    lemma_flatten_fixed_len(rest, width);
    assert(0 <= i * width && i * width + width <= items.len() * width) by (nonlinear_arith)
        requires
            0 <= i < items.len(),
            width >= 0,
    ;
    if i == 0 {
        assert(i * width == 0) by (nonlinear_arith)
            requires
                i == 0,
        ;
        assert(items.flatten().subrange(0, width as int) =~= items[0]);
    } else {
        let j = i - 1;
        lemma_flatten_fixed(rest, width, j);
        assert(i * width == j * width + width) by (nonlinear_arith)
            requires
                i == j + 1,
        ;
        assert(rest[j] == items[i]);
        assert(items.flatten().subrange(i * width, i * width + width) =~= rest.flatten().subrange(
            j * width,
            j * width + width,
        ));
    }
}

/// Bytes cut into pieces of one width flatten to those bytes.
pub proof fn lemma_flatten_pieces(bytes: Seq<u8>, at: int, width: nat, count: nat)
    requires
        0 <= at,
        at + width * count <= bytes.len(),
    ensures
        Seq::new(
            count,
            |i: int| bytes.subrange(at + width * i, at + width * i + width),
        ).flatten() == bytes.subrange(at, at + width * count),
    decreases count,
{
    let pieces = Seq::new(count, |i: int| bytes.subrange(at + width * i, at + width * i + width));
    if count == 0 {
        assert(width * count == 0) by (nonlinear_arith)
            requires
                count == 0,
        ;
        assert(pieces.flatten() =~= bytes.subrange(at, at));
    } else {
        let fewer = (count - 1) as nat;
        assert(width * count == width * fewer + width && 0 <= width * fewer) by (nonlinear_arith)
            requires
                count == fewer + 1,
        ;
        lemma_flatten_pieces(bytes, at, width, fewer);
        let shorter = Seq::new(
            fewer,
            |i: int| bytes.subrange(at + width * i, at + width * i + width),
        );
        let last = bytes.subrange(at + width * fewer, at + width * fewer + width);
        assert(pieces =~= shorter.push(last));
        shorter.lemma_flatten_push(last);
        assert(bytes.subrange(at, at + width * fewer) + last =~= bytes.subrange(
            at,
            at + width * count,
        ));
    }
}

/// What `items` flattens to up to item `i` is a prefix of what it flattens to.
pub proof fn lemma_flatten_split(items: Seq<Seq<u8>>, i: int)
    requires
        0 <= i <= items.len(),
    ensures
        items.flatten() == items.take(i).flatten() + items.skip(i).flatten(),
    decreases i,
{
    if i == 0 {
        assert(items.take(0) =~= Seq::empty());
        assert(items.skip(0) =~= items);
        assert(items.take(0).flatten() + items.flatten() =~= items.flatten());
    } else {
        let rest = items.drop_first();
        lemma_flatten_split(rest, i - 1);
        assert(items.take(i).drop_first() =~= rest.take(i - 1));
        assert(items.take(i).first() == items.first());
        assert(items.skip(i) =~= rest.skip(i - 1));
        assert(items.first() + (rest.take(i - 1).flatten() + rest.skip(i - 1).flatten()) =~= (
        items.first() + rest.take(i - 1).flatten()) + rest.skip(i - 1).flatten());
    }
}

/// Appends `more` to `bytes`.
pub fn append(bytes: &mut Vec<u8>, more: &[u8])
    ensures
        final(bytes)@ == old(bytes)@ + more@,
{
    bytes.extend_from_slice(more);
    assert(bytes@ =~= old(bytes)@ + more@);
}

/// Appends the big-endian bytes of `value`.
pub fn put_u32(bytes: &mut Vec<u8>, value: u32)
    ensures
        final(bytes)@ == old(bytes)@ + be_bytes(value as nat, 4),
{
    let ghost before = bytes@;
    bytes.push((value / 0x100_0000) as u8);
    bytes.push((value / 0x1_0000 % 0x100) as u8);
    bytes.push((value / 0x100 % 0x100) as u8);
    bytes.push((value % 0x100) as u8);
    proof {
        let spelled = bytes@.skip(before.len() as int);
        lemma_be_value_4(spelled);
        assert(be_value(spelled) == value);
        lemma_be_value_round_trip(spelled);
        assert(bytes@ =~= before + spelled);
    }
}

/// Appends the big-endian bytes of `value`.
pub fn put_u64(bytes: &mut Vec<u8>, value: u64)
    ensures
        final(bytes)@ == old(bytes)@ + be_bytes(value as nat, 8),
{
    let ghost before = bytes@;
    put_u32(bytes, (value / 0x1_0000_0000) as u32);
    put_u32(bytes, (value % 0x1_0000_0000) as u32);
    proof {
        let high = be_bytes((value / 0x1_0000_0000) as nat, 4);
        let low = be_bytes((value % 0x1_0000_0000) as nat, 4);
        lemma_byte_limits();
        lemma_be_round_trip((value / 0x1_0000_0000) as nat, 4);
        lemma_be_round_trip((value % 0x1_0000_0000) as nat, 4);
        lemma_be_value_8(high + low);
        lemma_be_value_round_trip(high + low);
        assert((high + low).subrange(0, 4) =~= high);
        assert((high + low).subrange(4, 8) =~= low);
        assert(bytes@ =~= before + (high + low));
    }
}

/// The big-endian number in four bytes.
pub fn get_u32(bytes: &[u8], at: usize) -> (value: u32)
    requires
        at + 4 <= bytes.len(),
    ensures
        value == be_value(bytes@.subrange(at as int, at + 4)),
{
    proof {
        lemma_be_value_4(bytes@.subrange(at as int, at + 4));
    }
    bytes[at] as u32 * 0x100_0000 + bytes[at + 1] as u32 * 0x1_0000 + bytes[at + 2] as u32 * 0x100
        + bytes[at + 3] as u32
}

/// The big-endian number in eight bytes.
pub fn get_u64(bytes: &[u8], at: usize) -> (value: u64)
    requires
        at + 8 <= bytes.len(),
    ensures
        value == be_value(bytes@.subrange(at as int, at + 8)),
{
    let high: u32 = get_u32(bytes, at);
    let low: u32 = get_u32(bytes, at + 4);
    proof {
        let whole = bytes@.subrange(at as int, at + 8);
        lemma_be_value_8(whole);
        assert(whole.subrange(0, 4) =~= bytes@.subrange(at as int, at + 4));
        assert(whole.subrange(4, 8) =~= bytes@.subrange(at + 4, at + 8));
    }
    high as u64 * 0x1_0000_0000 + low as u64
}

/// The little-endian number in two bytes.
pub fn get_u16_le(bytes: &[u8], at: usize) -> (value: u16)
    requires
        at + 2 <= bytes.len(),
    ensures
        value == le_value(bytes@.subrange(at as int, at + 2)),
{
    proof {
        lemma_le_value_2(bytes@.subrange(at as int, at + 2));
    }
    bytes[at] as u16 + bytes[at + 1] as u16 * 0x100
}

/// The little-endian number in four bytes.
pub fn get_u32_le(bytes: &[u8], at: usize) -> (value: u32)
    requires
        at + 4 <= bytes.len(),
    ensures
        value == le_value(bytes@.subrange(at as int, at + 4)),
{
    proof {
        lemma_le_value_4(bytes@.subrange(at as int, at + 4));
    }
    bytes[at] as u32 + bytes[at + 1] as u32 * 0x100 + bytes[at + 2] as u32 * 0x1_0000 + bytes[at
        + 3] as u32 * 0x100_0000
}

/// The little-endian number in eight bytes.
pub fn get_u64_le(bytes: &[u8], at: usize) -> (value: u64)
    requires
        at + 8 <= bytes.len(),
    ensures
        value == le_value(bytes@.subrange(at as int, at + 8)),
{
    let low: u32 = get_u32_le(bytes, at);
    let high: u32 = get_u32_le(bytes, at + 4);
    proof {
        let whole = bytes@.subrange(at as int, at + 8);
        lemma_le_value_8(whole);
        assert(whole.subrange(0, 4) =~= bytes@.subrange(at as int, at + 4));
        assert(whole.subrange(4, 8) =~= bytes@.subrange(at + 4, at + 8));
    }
    high as u64 * 0x1_0000_0000 + low as u64
}

/// The `N` bytes at `at`.
pub fn get_array<const N: usize>(bytes: &[u8], at: usize) -> (array: [u8; N])
    requires
        at + N <= bytes.len(),
    ensures
        array@ == bytes@.subrange(at as int, at + N),
{
    let mut array: [u8; N] = [0u8; N];
    let mut i: usize = 0;
    while i < N
        invariant
            i <= N,
            at + N <= bytes.len(),
            forall|j: int| 0 <= j < i ==> array@[j] == bytes@[at + j],
        decreases N - i,
    {
        array[i] = bytes[at + i];
        i = i + 1;
    }
    assert(array@ =~= bytes@.subrange(at as int, at + N));
    array
}

/// Whether two byte strings are the same.
pub fn same_bytes(left: &[u8], right: &[u8]) -> (same: bool)
    ensures
        same == (left@ == right@),
{
    if left.len() != right.len() {
        return false;
    }
    let mut i: usize = 0;
    while i < left.len()
        invariant
            i <= left@.len(),
            left@.len() == right@.len(),
            forall|j: int| 0 <= j < i ==> left@[j] == right@[j],
        decreases left@.len() - i,
    {
        if left[i] != right[i] {
            return false;
        }
        i = i + 1;
    }
    assert(left@ =~= right@);
    true
}

/// The bytes from `from` up to `to`, as a vector.
pub fn copy_range(bytes: &[u8], from: usize, to: usize) -> (out: Vec<u8>)
    requires
        from <= to <= bytes@.len(),
    ensures
        out@ == bytes@.subrange(from as int, to as int),
{
    let mut out: Vec<u8> = Vec::with_capacity(to - from);
    append(&mut out, slice_subrange(bytes, from, to));
    assert(out@ =~= bytes@.subrange(from as int, to as int));
    out
}

} // verus!
