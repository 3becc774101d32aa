//! Writes into user memory: a destination range, translated into physically
//! contiguous chunks, is filled from a source buffer at matching offsets, so a
//! structure may straddle a page boundary.
use vstd::prelude::*;

verus! {

/// The chunks laid end to end.
pub open spec fn flatten(chunks: Seq<Seq<u8>>) -> Seq<u8>
    decreases chunks.len(),
{
    if chunks.len() == 0 {
        Seq::empty()
    } else {
        flatten(chunks.drop_last()) + chunks.last()
    }
}

/// What each chunk holds.
pub open spec fn views(chunks: Seq<Vec<u8>>) -> Seq<Seq<u8>> {
    chunks.map_values(|c: Vec<u8>| c@)
}

/// The chunks' lengths, unchanged.
pub open spec fn same_shape(a: Seq<Seq<u8>>, b: Seq<Seq<u8>>) -> bool {
    a.len() == b.len() && forall|i: int| 0 <= i < a.len() ==> (#[trigger] a[i]).len() == b[i].len()
}

proof fn lemma_flatten_prefix(chunks: Seq<Seq<u8>>, i: int)
    requires
        0 <= i < chunks.len(),
    ensures
        flatten(chunks.subrange(0, i + 1)) == flatten(chunks.subrange(0, i)) + chunks[i],
{
    assert(chunks.subrange(0, i + 1).drop_last() =~= chunks.subrange(0, i));
}

/// Copies `data` into `chunks` in order. The copy takes place only where the
/// chunks together are exactly as long as `data`; otherwise the translation
/// was short or long, nothing is written and `false` comes back.
pub fn write_chunks(chunks: &mut Vec<Vec<u8>>, data: &Vec<u8>) -> (ok: bool)
    ensures
        ok == (flatten(views(old(chunks)@)).len() == data@.len()),
        ok ==> flatten(views(final(chunks)@)) == data@,
        ok ==> same_shape(views(final(chunks)@), views(old(chunks)@)),
        !ok ==> final(chunks)@ == old(chunks)@,
{
    let ghost old_v = chunks@.map_values(|c: Vec<u8>| c@);
    let n = chunks.len();
    let mut total: usize = 0;
    let mut i: usize = 0;
    while i < n
        invariant
            n == chunks.len(),
            old_v == chunks@.map_values(|c: Vec<u8>| c@),
            i <= n,
            total == flatten(old_v.subrange(0, i as int)).len(),
            total <= data.len(),
        decreases n - i,
    {
        proof { lemma_flatten_prefix(old_v, i as int); }
        if chunks[i].len() > data.len() - total {
            proof {
                lemma_flatten_grows(old_v, i as int + 1);
            }
            return false;
        }
        total += chunks[i].len();
        i += 1;
    }
    assert(old_v.subrange(0, n as int) =~= old_v);
    if total != data.len() {
        return false;
    }
    let mut offset: usize = 0;
    let mut i: usize = 0;
    while i < n
        invariant
            n == chunks.len(),
            i <= n,
            old_v.len() == n,
            flatten(old_v).len() == data.len(),
            forall|x: int| i <= x < n ==> #[trigger] chunks@[x]@ == old_v[x],
            forall|x: int| 0 <= x < i ==> (#[trigger] chunks@[x]@).len() == old_v[x].len(),
            offset == flatten(old_v.subrange(0, i as int)).len(),
            flatten(chunks@.map_values(|c: Vec<u8>| c@).subrange(0, i as int)) == data@.subrange(
                0,
                offset as int,
            ),
        decreases n - i,
    {
        let ghost cur = chunks@.map_values(|c: Vec<u8>| c@);
        proof {
            lemma_flatten_prefix(old_v, i as int);
            lemma_flatten_grows(old_v, i as int + 1);
            assert(old_v.subrange(0, n as int) =~= old_v);
        }
        let mut page: Vec<u8> = Vec::new();
        chunks.set_and_swap(i, &mut page);
        let len = page.len();
        let mut b: usize = 0;
        while b < len
            invariant
                b <= len,
                len == page.len(),
                offset + len <= data.len(),
                forall|y: int| 0 <= y < b ==> #[trigger] page@[y] == data@[offset + y],
            decreases len - b,
        {
            page.set(b, data[offset + b]);
            b += 1;
        }
        chunks.set_and_swap(i, &mut page);
        proof {
            let now = chunks@.map_values(|c: Vec<u8>| c@);
            assert(now.subrange(0, i as int) =~= cur.subrange(0, i as int));
            lemma_flatten_prefix(now, i as int);
            assert(now[i as int] =~= data@.subrange(offset as int, offset + len));
            assert(data@.subrange(0, offset + len) =~= data@.subrange(0, offset as int)
                + data@.subrange(offset as int, offset + len));
        }
        offset += len;
        i += 1;
    }
    proof {
        let now = chunks@.map_values(|c: Vec<u8>| c@);
        assert(now.subrange(0, n as int) =~= now);
        assert(data@.subrange(0, offset as int) =~= data@);
        assert(same_shape(now, old_v));
    }
    true
}

/// A longer prefix of the chunks flattens to no fewer bytes.
proof fn lemma_flatten_grows(chunks: Seq<Seq<u8>>, i: int)
    requires
        0 <= i <= chunks.len(),
    ensures
        flatten(chunks.subrange(0, i)).len() <= flatten(chunks).len(),
    decreases chunks.len() - i,
{
    if i < chunks.len() {
        lemma_flatten_prefix(chunks, i);
        lemma_flatten_grows(chunks, i + 1);
    } else {
        assert(chunks.subrange(0, i) =~= chunks);
    }
}

/// The eight bytes of `x`, least significant first.
pub open spec fn le_bytes(x: u64) -> Seq<u8> {
    seq![
        (x & 0xff) as u8,
        ((x >> 8u64) & 0xff) as u8,
        ((x >> 16u64) & 0xff) as u8,
        ((x >> 24u64) & 0xff) as u8,
        ((x >> 32u64) & 0xff) as u8,
        ((x >> 40u64) & 0xff) as u8,
        ((x >> 48u64) & 0xff) as u8,
        ((x >> 56u64) & 0xff) as u8,
    ]
}

/// The number whose eight bytes, least significant first, start `s` at `at`.
pub open spec fn from_le_bytes(s: Seq<u8>, at: int) -> u64 {
    (s[at] as u64) | ((s[at + 1] as u64) << 8u64) | ((s[at + 2] as u64) << 16u64) | ((s[at + 3] as u64)
        << 24u64) | ((s[at + 4] as u64) << 32u64) | ((s[at + 5] as u64) << 40u64) | ((s[at + 6] as u64)
        << 48u64) | ((s[at + 7] as u64) << 56u64)
}

/// Reading back eight written bytes gives the number.
pub proof fn lemma_le_bytes_round_trip(x: u64, s: Seq<u8>, at: int)
    requires
        0 <= at,
        at + 8 <= s.len(),
        s.subrange(at, at + 8) == le_bytes(x),
    ensures
        from_le_bytes(s, at) == x,
{
    assert(s[at] == s.subrange(at, at + 8)[0]);
    assert(s[at + 1] == s.subrange(at, at + 8)[1]);
    assert(s[at + 2] == s.subrange(at, at + 8)[2]);
    assert(s[at + 3] == s.subrange(at, at + 8)[3]);
    assert(s[at + 4] == s.subrange(at, at + 8)[4]);
    assert(s[at + 5] == s.subrange(at, at + 8)[5]);
    assert(s[at + 6] == s.subrange(at, at + 8)[6]);
    assert(s[at + 7] == s.subrange(at, at + 8)[7]);
    let (b0, b1, b2, b3) = (s[at], s[at + 1], s[at + 2], s[at + 3]);
    let (b4, b5, b6, b7) = (s[at + 4], s[at + 5], s[at + 6], s[at + 7]);
    assert(b0 == (x & 0xff) as u8 && b1 == ((x >> 8u64) & 0xff) as u8 && b2 == ((x >> 16u64) & 0xff) as u8
        && b3 == ((x >> 24u64) & 0xff) as u8 && b4 == ((x >> 32u64) & 0xff) as u8 && b5 == ((x >> 40u64)
        & 0xff) as u8 && b6 == ((x >> 48u64) & 0xff) as u8 && b7 == ((x >> 56u64) & 0xff) as u8 ==> (
    b0 as u64) | ((b1 as u64) << 8u64) | ((b2 as u64) << 16u64) | ((b3 as u64) << 24u64) | ((b4 as u64)
        << 32u64) | ((b5 as u64) << 40u64) | ((b6 as u64) << 48u64) | ((b7 as u64) << 56u64) == x)
        by (bit_vector);
}

/// The four bytes of `x`, least significant first.
pub open spec fn le_bytes32(x: u32) -> Seq<u8> {
    seq![
        (x & 0xff) as u8,
        ((x >> 8u32) & 0xff) as u8,
        ((x >> 16u32) & 0xff) as u8,
        ((x >> 24u32) & 0xff) as u8,
    ]
}

/// The four bytes of each number in turn.
pub open spec fn le_bytes32_all(s: Seq<u32>) -> Seq<u8>
    decreases s.len(),
{
    if s.len() == 0 {
        Seq::empty()
    } else {
        le_bytes32_all(s.drop_last()) + le_bytes32(s.last())
    }
}

pub proof fn lemma_le_bytes32_all_len(s: Seq<u32>)
    ensures
        le_bytes32_all(s).len() == 4 * s.len(),
    decreases s.len(),
{
    if s.len() > 0 {
        lemma_le_bytes32_all_len(s.drop_last());
    }
}

/// Appends the four bytes of `x`, least significant first.
pub fn push_le_bytes32(out: &mut Vec<u8>, x: u32)
    ensures
        final(out)@ == old(out)@ + le_bytes32(x),
{
    out.push((x & 0xff) as u8);
    out.push(((x >> 8u32) & 0xff) as u8);
    out.push(((x >> 16u32) & 0xff) as u8);
    out.push(((x >> 24u32) & 0xff) as u8);
    assert(out@ =~= old(out)@ + le_bytes32(x));
}

/// Appends the four bytes of each number of `xs` in turn.
pub fn push_le_bytes32_all(out: &mut Vec<u8>, xs: &Vec<u32>)
    ensures
        final(out)@ == old(out)@ + le_bytes32_all(xs@),
{
    let n = xs.len();
    let mut i: usize = 0;
    while i < n
        invariant
            n == xs.len(),
            i <= n,
            out@ == old(out)@ + le_bytes32_all(xs@.subrange(0, i as int)),
        decreases n - i,
    {
        push_le_bytes32(out, xs[i]);
        proof {
            assert(xs@.subrange(0, i + 1).drop_last() =~= xs@.subrange(0, i as int));
        }
        i += 1;
        assert(out@ =~= old(out)@ + le_bytes32_all(xs@.subrange(0, i as int)));
    }
    assert(xs@.subrange(0, n as int) =~= xs@);
}

/// Appends the eight bytes of `x`, least significant first.
pub fn push_le_bytes(out: &mut Vec<u8>, x: u64)
    ensures
        final(out)@ == old(out)@ + le_bytes(x),
{
    out.push((x & 0xff) as u8);
    out.push(((x >> 8u64) & 0xff) as u8);
    out.push(((x >> 16u64) & 0xff) as u8);
    out.push(((x >> 24u64) & 0xff) as u8);
    out.push(((x >> 32u64) & 0xff) as u8);
    out.push(((x >> 40u64) & 0xff) as u8);
    out.push(((x >> 48u64) & 0xff) as u8);
    out.push(((x >> 56u64) & 0xff) as u8);
    assert(out@ =~= old(out)@ + le_bytes(x));
}

} // verus!
