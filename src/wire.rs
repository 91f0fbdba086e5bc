//! Big-endian integers and length-prefixed byte fields.
use vstd::prelude::*;

verus! {

/// Some element of `ids` is `id`.
pub open spec fn listed(ids: Seq<Vec<u8>>, id: Seq<u8>) -> bool {
    exists|k: int| 0 <= k < ids.len() && (#[trigger] ids[k])@ == id
}

/// The four big-endian bytes of `x`.
pub open spec fn u32_bytes(x: u32) -> Seq<u8> {
    seq![(x >> 24u32) as u8, (x >> 16u32) as u8, (x >> 8u32) as u8, x as u8]
}

/// The integer that four big-endian bytes spell.
pub open spec fn u32_of(b0: u8, b1: u8, b2: u8, b3: u8) -> u32 {
    ((b0 as u32) << 24u32) | ((b1 as u32) << 16u32) | ((b2 as u32) << 8u32) | (b3 as u32)
}

/// The eight big-endian bytes of `x`.
pub open spec fn u64_bytes(x: u64) -> Seq<u8> {
    seq![
        (x >> 56u64) as u8, (x >> 48u64) as u8, (x >> 40u64) as u8, (x >> 32u64) as u8,
        (x >> 24u64) as u8, (x >> 16u64) as u8, (x >> 8u64) as u8, x as u8,
    ]
}

/// The integer that eight big-endian bytes spell.
pub open spec fn u64_of(b: Seq<u8>) -> u64 {
    ((b[0] as u64) << 56u64) | ((b[1] as u64) << 48u64) | ((b[2] as u64) << 40u64) | ((b[3]
        as u64) << 32u64) | ((b[4] as u64) << 24u64) | ((b[5] as u64) << 16u64) | ((b[6] as u64)
        << 8u64) | (b[7] as u64)
}

/// A field: its length in four bytes, then its bytes.
pub open spec fn field(x: Seq<u8>) -> Seq<u8> {
    u32_bytes(x.len() as u32) + x
}

/// Reads one field from the front of `b`: the field and what follows it.
pub open spec fn read_field(b: Seq<u8>) -> Option<(Seq<u8>, Seq<u8>)> {
    if b.len() < 4 {
        None
    } else {
        let n = u32_of(b[0], b[1], b[2], b[3]) as int;
        if b.len() - 4 < n {
            None
        } else {
            Some((b.subrange(4, 4 + n), b.subrange(4 + n, b.len() as int)))
        }
    }
}

/// Reads a big-endian `u64` from the front of `b`: the integer and what follows it.
pub open spec fn read_u64(b: Seq<u8>) -> Option<(u64, Seq<u8>)> {
    if b.len() < 8 {
        None
    } else {
        Some((u64_of(b.subrange(0, 8)), b.subrange(8, b.len() as int)))
    }
}

proof fn lemma_u32_round(x: u32)
    ensures
        u32_of((x >> 24u32) as u8, (x >> 16u32) as u8, (x >> 8u32) as u8, x as u8) == x,
{
    assert(u32_of((x >> 24u32) as u8, (x >> 16u32) as u8, (x >> 8u32) as u8, x as u8) == x)
        by (bit_vector);
}

proof fn lemma_u32_back(b0: u8, b1: u8, b2: u8, b3: u8)
    ensures
        u32_bytes(u32_of(b0, b1, b2, b3)) == seq![b0, b1, b2, b3],
{
    let x = u32_of(b0, b1, b2, b3);
    assert(((((b0 as u32) << 24u32) | ((b1 as u32) << 16u32) | ((b2 as u32) << 8u32) | (b3 as u32)) >> 24u32) as u8 == b0) by (bit_vector);
    assert(((((b0 as u32) << 24u32) | ((b1 as u32) << 16u32) | ((b2 as u32) << 8u32) | (b3 as u32)) >> 16u32) as u8 == b1) by (bit_vector);
    assert(((((b0 as u32) << 24u32) | ((b1 as u32) << 16u32) | ((b2 as u32) << 8u32) | (b3 as u32)) >> 8u32) as u8 == b2) by (bit_vector);
    assert((((b0 as u32) << 24u32) | ((b1 as u32) << 16u32) | ((b2 as u32) << 8u32) | (b3 as u32)) as u8 == b3) by (bit_vector);
    assert(u32_bytes(x) =~= seq![b0, b1, b2, b3]);
}

proof fn lemma_u64_round(x: u64)
    ensures
        u64_of(u64_bytes(x)) == x,
{
    let b = u64_bytes(x);
    assert(b[0] == (x >> 56u64) as u8);
    assert(b[7] == x as u8);
    assert((((((x >> 56u64) as u8) as u64) << 56u64) | ((((x >> 48u64) as u8) as u64) << 48u64)
        | ((((x >> 40u64) as u8) as u64) << 40u64) | ((((x >> 32u64) as u8) as u64) << 32u64)
        | ((((x >> 24u64) as u8) as u64) << 24u64) | ((((x >> 16u64) as u8) as u64) << 16u64)
        | ((((x >> 8u64) as u8) as u64) << 8u64) | ((x as u8) as u64)) == x) by (bit_vector);
}

proof fn lemma_u64_back(b: Seq<u8>)
    requires
        b.len() == 8,
    ensures
        u64_bytes(u64_of(b)) == b,
{
    let (b0, b1, b2, b3, b4, b5, b6, b7) = (b[0], b[1], b[2], b[3], b[4], b[5], b[6], b[7]);
    let x = u64_of(b);
    assert(x == ((b0 as u64) << 56u64) | ((b1 as u64) << 48u64) | ((b2 as u64) << 40u64) | ((b3
        as u64) << 32u64) | ((b4 as u64) << 24u64) | ((b5 as u64) << 16u64) | ((b6 as u64)
        << 8u64) | (b7 as u64));
    assert((x >> 56u64) as u8 == b0 && (x >> 48u64) as u8 == b1 && (x >> 40u64) as u8 == b2
        && (x >> 32u64) as u8 == b3 && (x >> 24u64) as u8 == b4 && (x >> 16u64) as u8 == b5
        && (x >> 8u64) as u8 == b6 && x as u8 == b7) by (bit_vector)
        requires
            x == ((b0 as u64) << 56u64) | ((b1 as u64) << 48u64) | ((b2 as u64) << 40u64) | ((b3
                as u64) << 32u64) | ((b4 as u64) << 24u64) | ((b5 as u64) << 16u64) | ((b6
                as u64) << 8u64) | (b7 as u64),
    ;
    assert(u64_bytes(x) =~= b);
}

/// Reading a field back from its encoding gives the field and the rest.
pub proof fn lemma_read_field(x: Seq<u8>, rest: Seq<u8>)
    requires
        x.len() <= u32::MAX,
    ensures
        read_field(field(x) + rest) == Some((x, rest)),
{
    let b = field(x) + rest;
    let n = x.len() as u32;
    lemma_u32_round(n);
    assert(b[0] == (n >> 24u32) as u8);
    assert(b[1] == (n >> 16u32) as u8);
    assert(b[2] == (n >> 8u32) as u8);
    assert(b[3] == n as u8);
    assert(b.subrange(4, 4 + x.len() as int) =~= x);
    assert(b.subrange(4 + x.len() as int, b.len() as int) =~= rest);
}

/// What `read_field` takes apart, `field` puts back together.
pub proof fn lemma_read_field_back(b: Seq<u8>)
    requires
        read_field(b) is Some,
    ensures
        b == field(read_field(b).unwrap().0) + read_field(b).unwrap().1,
        read_field(b).unwrap().0.len() <= u32::MAX,
{
    let n = u32_of(b[0], b[1], b[2], b[3]);
    lemma_u32_back(b[0], b[1], b[2], b[3]);
    let (x, rest) = read_field(b).unwrap();
    assert(x.len() == n as int);
    assert(u32_bytes(x.len() as u32) == seq![b[0], b[1], b[2], b[3]]);
    assert(field(x) + rest =~= b);
}

/// Reading a `u64` back from its encoding gives it and the rest.
pub proof fn lemma_read_u64(x: u64, rest: Seq<u8>)
    ensures
        read_u64(u64_bytes(x) + rest) == Some((x, rest)),
{
    let b = u64_bytes(x) + rest;
    assert(b.subrange(0, 8) =~= u64_bytes(x));
    lemma_u64_round(x);
    assert(b.subrange(8, b.len() as int) =~= rest);
}

/// What `read_u64` takes apart, `u64_bytes` puts back together.
pub proof fn lemma_read_u64_back(b: Seq<u8>)
    requires
        read_u64(b) is Some,
    ensures
        b == u64_bytes(read_u64(b).unwrap().0) + read_u64(b).unwrap().1,
{
    lemma_u64_back(b.subrange(0, 8));
    assert(u64_bytes(read_u64(b).unwrap().0) + read_u64(b).unwrap().1 =~= b);
}

/// Appends the big-endian bytes of `x`.
pub fn push_u32(out: &mut Vec<u8>, x: u32)
    ensures
        final(out)@ == old(out)@ + u32_bytes(x),
{
    out.push((x >> 24u32) as u8);
    out.push((x >> 16u32) as u8);
    out.push((x >> 8u32) as u8);
    out.push(x as u8);
    assert(final(out)@ =~= old(out)@ + u32_bytes(x));
}

/// Appends the big-endian bytes of `x`.
pub fn push_u64(out: &mut Vec<u8>, x: u64)
    ensures
        final(out)@ == old(out)@ + u64_bytes(x),
{
    out.push((x >> 56u64) as u8);
    out.push((x >> 48u64) as u8);
    out.push((x >> 40u64) as u8);
    out.push((x >> 32u64) as u8);
    out.push((x >> 24u64) as u8);
    out.push((x >> 16u64) as u8);
    out.push((x >> 8u64) as u8);
    out.push(x as u8);
    assert(final(out)@ =~= old(out)@ + u64_bytes(x));
}

/// Appends the bytes of `x`.
pub fn push_bytes(out: &mut Vec<u8>, x: &Vec<u8>)
    ensures
        final(out)@ == old(out)@ + x@,
{
    let mut i: usize = 0;
    while i < x.len()
        invariant
            i <= x@.len(),
            out@ == old(out)@ + x@.subrange(0, i as int),
        decreases x@.len() - i,
    {
        out.push(x[i]);
        i = i + 1;
        assert(out@ =~= old(out)@ + x@.subrange(0, i as int));
    }
    assert(x@.subrange(0, i as int) =~= x@);
}

/// Appends `x` as a field.
pub fn push_field(out: &mut Vec<u8>, x: &Vec<u8>)
    requires
        x@.len() <= u32::MAX,
    ensures
        final(out)@ == old(out)@ + field(x@),
{
    push_u32(out, x.len() as u32);
    push_bytes(out, x);
    assert(final(out)@ =~= old(out)@ + field(x@));
}

/// Reads a field of `b` at `pos`: its bytes and the position after it.
pub fn take_field(b: &Vec<u8>, pos: usize) -> (r: Option<(Vec<u8>, usize)>)
    requires
        pos <= b@.len(),
    ensures
        match read_field(b@.subrange(pos as int, b@.len() as int)) {
            None => r is None,
            Some((x, rest)) => r is Some && r.unwrap().0@ == x && r.unwrap().1 <= b@.len()
                && rest == b@.subrange(r.unwrap().1 as int, b@.len() as int),
        },
{
    let ghost s = b@.subrange(pos as int, b@.len() as int);
    if b.len() - pos < 4 {
        return None;
    }
    let n = u32_of_exec(b[pos], b[pos + 1], b[pos + 2], b[pos + 3]);
    assert(s[0] == b@[pos as int] && s[1] == b@[pos + 1] && s[2] == b@[pos + 2] && s[3] == b@[pos + 3]);
    if b.len() - pos - 4 < n as usize {
        return None;
    }
    let start = pos + 4;
    let end = start + n as usize;
    let mut x: Vec<u8> = Vec::new();
    let mut i: usize = start;
    while i < end
        invariant
            start <= i <= end <= b@.len(),
            x@ == b@.subrange(start as int, i as int),
        decreases end - i,
    {
        x.push(b[i]);
        i = i + 1;
        assert(x@ =~= b@.subrange(start as int, i as int));
    }
    assert(x@ =~= s.subrange(4, 4 + n as int));
    assert(b@.subrange(end as int, b@.len() as int) =~= s.subrange(4 + n as int, s.len() as int));
    Some((x, end))
}

/// Reads a big-endian `u64` of `b` at `pos`: it and the position after it.
pub fn take_u64(b: &Vec<u8>, pos: usize) -> (r: Option<(u64, usize)>)
    requires
        pos <= b@.len(),
    ensures
        match read_u64(b@.subrange(pos as int, b@.len() as int)) {
            None => r is None,
            Some((x, rest)) => r is Some && r.unwrap().0 == x && r.unwrap().1 <= b@.len()
                && rest == b@.subrange(r.unwrap().1 as int, b@.len() as int),
        },
{
    let ghost s = b@.subrange(pos as int, b@.len() as int);
    if b.len() - pos < 8 {
        return None;
    }
    let x = ((b[pos] as u64) << 56u64) | ((b[pos + 1] as u64) << 48u64) | ((b[pos + 2] as u64)
        << 40u64) | ((b[pos + 3] as u64) << 32u64) | ((b[pos + 4] as u64) << 24u64) | ((b[pos
        + 5] as u64) << 16u64) | ((b[pos + 6] as u64) << 8u64) | (b[pos + 7] as u64);
    let ghost h = s.subrange(0, 8);
    assert(h[0] == b@[pos as int] && h[1] == b@[pos + 1] && h[2] == b@[pos + 2] && h[3] == b@[pos
        + 3] && h[4] == b@[pos + 4] && h[5] == b@[pos + 5] && h[6] == b@[pos + 6] && h[7]
        == b@[pos + 7]);
    assert(b@.subrange(pos + 8, b@.len() as int) =~= s.subrange(8, s.len() as int));
    Some((x, pos + 8))
}

fn u32_of_exec(b0: u8, b1: u8, b2: u8, b3: u8) -> (r: u32)
    ensures
        r == u32_of(b0, b1, b2, b3),
{
    ((b0 as u32) << 24u32) | ((b1 as u32) << 16u32) | ((b2 as u32) << 8u32) | (b3 as u32)
}

/// Whether two byte strings are equal.
pub fn bytes_eq(a: &Vec<u8>, b: &Vec<u8>) -> (r: bool)
    ensures
        r == (a@ == b@),
{
    if a.len() != b.len() {
        return false;
    }
    let mut i: usize = 0;
    while i < a.len()
        invariant
            a@.len() == b@.len(),
            i <= a@.len(),
            forall|j: int| 0 <= j < i ==> a@[j] == b@[j],
        decreases a@.len() - i,
    {
        if a[i] != b[i] {
            return false;
        }
        i = i + 1;
    }
    assert(a@ =~= b@);
    true
}

} // verus!
