//! Length-prefixed records: the layout of the append-only log files.
//!
//! A record is eight bytes with its length, least significant byte first, and
//! then its content. Records follow each other without a gap.

use vstd::prelude::*;

verus! {

/// The contents of a list of byte vectors.
pub open spec fn byte_views(v: Seq<Vec<u8>>) -> Seq<Seq<u8>> {
    Seq::new(v.len(), |i: int| v[i]@)
}

/// The lowest `k` bytes of `n`, least significant byte first.
pub open spec fn little_endian(n: nat, k: nat) -> Seq<u8>
    decreases k,
{
    if k == 0 {
        Seq::empty()
    } else {
        seq![(n % 256) as u8] + little_endian(n / 256, (k - 1) as nat)
    }
}

/// The number with the given bytes, least significant byte first.
pub open spec fn little_endian_value(bytes: Seq<u8>) -> nat
    decreases bytes.len(),
{
    if bytes.len() == 0 {
        0
    } else {
        bytes[0] as nat + 256 * little_endian_value(bytes.drop_first())
    }
}

/// One record with its length in front.
pub open spec fn framed(content: Seq<u8>) -> Seq<u8> {
    little_endian(content.len(), 8) + content
}

/// Records one after the other.
pub open spec fn framed_all(records: Seq<Seq<u8>>) -> Seq<u8>
    decreases records.len(),
{
    if records.len() == 0 {
        Seq::empty()
    } else {
        framed_all(records.drop_last()) + framed(records.last())
    }
}

/// The records in `bytes`, and whether the last one is cut off in its content.
/// A length that is itself cut off ends the list silently.
pub open spec fn frames(bytes: Seq<u8>) -> (Seq<Seq<u8>>, bool)
    decreases bytes.len(),
{
    if bytes.len() < 8 {
        (Seq::empty(), false)
    } else {
        let n = little_endian_value(bytes.take(8));
        if n > bytes.len() - 8 {
            (Seq::empty(), true)
        } else {
            let rest = frames(bytes.skip(8 + n as int));
            (seq![bytes.subrange(8, 8 + n as int)] + rest.0, rest.1)
        }
    }
}

/// What `decode` makes of the records; none where it fails on one of them.
pub open spec fn decoded_all<T>(
    decode: spec_fn(Seq<u8>) -> Option<T>,
    records: Seq<Seq<u8>>,
) -> Option<Seq<T>>
    decreases records.len(),
{
    if records.len() == 0 {
        Some(Seq::empty())
    } else {
        match (decoded_all(decode, records.drop_last()), decode(records.last())) {
            (Some(before), Some(item)) => Some(before.push(item)),
            _ => None,
        }
    }
}

/// What is read from `bytes`; none where the last record is cut off in its
/// content, or a record cannot be decoded.
pub open spec fn read_items<T>(
    decode: spec_fn(Seq<u8>) -> Option<T>,
    bytes: Seq<u8>,
) -> Option<Seq<T>> {
    if frames(bytes).1 {
        None
    } else {
        decoded_all(decode, frames(bytes).0)
    }
}

/// 256 to the power of `k`.
spec fn pow256(k: nat) -> nat
    decreases k,
{
    if k == 0 {
        1
    } else {
        256 * pow256((k - 1) as nat)
    }
}

proof fn lemma_little_endian(n: nat, k: nat)
    requires
        n < pow256(k),
    ensures
        little_endian(n, k).len() == k,
        little_endian_value(little_endian(n, k)) == n,
    decreases k,
{
    if k > 0 {
        let low = (n % 256) as u8;
        let high = little_endian(n / 256, (k - 1) as nat);
        lemma_little_endian(n / 256, (k - 1) as nat);
        assert((seq![low] + high).drop_first() =~= high);
        assert((seq![low] + high)[0] == low);
    }
}

proof fn lemma_length_header(n: nat)
    requires
        n <= u64::MAX,
    ensures
        little_endian(n, 8).len() == 8,
        little_endian_value(little_endian(n, 8)) == n,
{
    reveal_with_fuel(pow256, 9);
    assert(pow256(8) == 0x1_0000_0000_0000_0000);
    lemma_little_endian(n, 8);
}

proof fn lemma_value_bound(bytes: Seq<u8>)
    ensures
        little_endian_value(bytes) < pow256(bytes.len()),
    decreases bytes.len(),
{
    if bytes.len() > 0 {
        lemma_value_bound(bytes.drop_first());
    }
}

/// The record with its length in front.
pub fn frame(content: &[u8]) -> (out: Vec<u8>)
    requires
        content@.len() <= u64::MAX,
    ensures
        out@ == framed(content@),
{
    let mut out: Vec<u8> = Vec::new();
    let mut n: u64 = content.len() as u64;
    let mut k: usize = 0;
    let ghost total = content@.len();
    proof {
        assert(out@ + little_endian(n as nat, 8) =~= little_endian(total, 8));
    }
    while k < 8
        invariant
            k <= 8,
            out@ + little_endian(n as nat, (8 - k) as nat) == little_endian(total, 8),
        decreases 8 - k,
    {
        let ghost before = out@;
        let low: u8 = (n % 256) as u8;
        out.push(low);
        proof {
            let rest = little_endian((n / 256) as nat, (7 - k) as nat);
            assert(before.push(low) + rest =~= before + (seq![low] + rest));
        }
        n = n / 256;
        k = k + 1;
    }
    proof {
        assert(out@ =~= little_endian(total, 8));
    }
    let ghost header = out@;
    let mut i: usize = 0;
    proof {
        assert(header + content@.take(0) =~= header);
    }
    while i < content.len()
        invariant
            i <= content@.len(),
            out@ == header + content@.take(i as int),
        decreases content@.len() - i,
    {
        out.push(content[i]);
        proof {
            assert((header + content@.take(i as int)).push(content@[i as int]) =~= header
                + content@.take(i + 1));
        }
        i = i + 1;
    }
    proof {
        assert(content@.take(i as int) =~= content@);
    }
    out
}

/// The number in the eight bytes at `pos`.
fn read_length(bytes: &[u8], pos: usize) -> (n: u64)
    requires
        pos + 8 <= bytes@.len(),
    ensures
        n == little_endian_value(bytes@.subrange(pos as int, pos + 8)),
{
    let mut n: u64 = 0;
    let mut k: usize = 8;
    let size: usize = bytes.len();
    let ghost header = bytes@.subrange(pos as int, pos + 8);
    proof {
        assert(header.skip(8) =~= Seq::<u8>::empty());
    }
    while k > 0
        invariant
            k <= 8,
            pos + 8 <= size,
            size == bytes@.len(),
            header == bytes@.subrange(pos as int, pos + 8),
            n == little_endian_value(header.skip(k as int)),
        decreases k,
    {
        proof {
            let tail = header.skip(k - 1);
            assert(tail.drop_first() =~= header.skip(k as int));
            assert(tail[0] == bytes@[pos + k - 1]);
            lemma_value_bound(tail);
            reveal_with_fuel(pow256, 9);
            assert(pow256(tail.len()) <= 0x1_0000_0000_0000_0000);
        }
        n = n * 256 + bytes[pos + k - 1] as u64;
        k = k - 1;
    }
    proof {
        assert(header.skip(0) =~= header);
    }
    n
}

/// Splits `bytes` into its records; says whether the last one is cut off in
/// its content.
pub fn read_frames(bytes: &[u8]) -> (r: (Vec<Vec<u8>>, bool))
    ensures
        byte_views(r.0@) == frames(bytes@).0,
        r.1 == frames(bytes@).1,
{
    let mut records: Vec<Vec<u8>> = Vec::new();
    let mut pos: usize = 0;
    let size: usize = bytes.len();
    proof {
        assert(bytes@.skip(0) =~= bytes@);
        assert(byte_views(records@) + frames(bytes@).0 =~= frames(bytes@).0);
    }
    while size - pos >= 8
        invariant
            pos <= size,
            size == bytes@.len(),
            byte_views(records@) + frames(bytes@.skip(pos as int)).0 == frames(bytes@).0,
            frames(bytes@.skip(pos as int)).1 == frames(bytes@).1,
        decreases bytes@.len() - pos,
    {
        let ghost rest = bytes@.skip(pos as int);
        let ghost done = records@;
        let n = read_length(bytes, pos);
        proof {
            assert(rest.take(8) =~= bytes@.subrange(pos as int, pos + 8));
        }
        if n > (size - pos - 8) as u64 {
            proof {
                assert(byte_views(records@) + frames(rest).0 =~= byte_views(records@));
            }
            return (records, true);
        }
        let start: usize = pos + 8;
        let end: usize = start + n as usize;
        let mut record: Vec<u8> = Vec::new();
        let mut i: usize = start;
        while i < end
            invariant
                start <= i <= end <= bytes@.len(),
                record@ == bytes@.subrange(start as int, i as int),
            decreases end - i,
        {
            record.push(bytes[i]);
            proof {
                assert(bytes@.subrange(start as int, i as int).push(bytes@[i as int])
                    =~= bytes@.subrange(start as int, i + 1));
            }
            i = i + 1;
        }
        records.push(record);
        proof {
            assert(record@ =~= rest.subrange(8, 8 + n as int));
            assert(rest.skip(8 + n as int) =~= bytes@.skip(end as int));
            assert(byte_views(records@) =~= byte_views(done) + seq![record@]);
            assert(byte_views(records@) + frames(bytes@.skip(end as int)).0 =~= byte_views(done)
                + frames(rest).0);
        }
        pos = end;
    }
    proof {
        assert(byte_views(records@) + frames(bytes@.skip(pos as int)).0 =~= byte_views(records@));
    }
    (records, false)
}

// ---------------------------------------------------------------------------
// Laws
// ---------------------------------------------------------------------------

proof fn lemma_framed_first(records: Seq<Seq<u8>>)
    requires
        records.len() > 0,
    ensures
        framed_all(records) == framed(records[0]) + framed_all(records.drop_first()),
    decreases records.len(),
{
    if records.len() == 1 {
        assert(records.drop_last() =~= Seq::<Seq<u8>>::empty());
        assert(records.drop_first() =~= Seq::<Seq<u8>>::empty());
        reveal_with_fuel(framed_all, 2);
        assert(framed_all(records) =~= framed(records[0]));
        assert(framed(records[0]) + framed_all(records.drop_first()) =~= framed(records[0]));
    } else {
        let before = records.drop_last();
        lemma_framed_first(before);
        assert(before.drop_first() =~= records.drop_first().drop_last());
        assert(records.drop_first().last() == records.last());
        assert(framed_all(records) =~= framed(records[0]) + framed_all(records.drop_first()));
    }
}

/// Reading gives back what was written: the records of a log are those that
/// were appended to it, also when a cut off length follows them.
pub proof fn law_reading_gives_back_writing(records: Seq<Seq<u8>>, tail: Seq<u8>)
    requires
        forall|i: int| 0 <= i < records.len() ==> (#[trigger] records[i]).len() <= u64::MAX,
        tail.len() < 8,
    ensures
        frames(framed_all(records) + tail) == (records, false),
    decreases records.len(),
{
    let bytes = framed_all(records) + tail;
    if records.len() == 0 {
        assert(records =~= Seq::<Seq<u8>>::empty());
    } else {
        let first = records[0];
        let others = records.drop_first();
        assert forall|i: int| 0 <= i < others.len() implies (#[trigger] others[i]).len()
            <= u64::MAX by {
            assert(others[i] == records[i + 1]);
        }
        law_reading_gives_back_writing(others, tail);
        lemma_framed_first(records);
        lemma_length_header(first.len());
        let rest = framed_all(others) + tail;
        assert(bytes =~= little_endian(first.len(), 8) + first + rest);
        assert(bytes.take(8) =~= little_endian(first.len(), 8));
        assert(bytes.subrange(8, 8 + first.len() as int) =~= first);
        assert(bytes.skip(8 + first.len() as int) =~= rest);
        assert(seq![first] + others =~= records);
    }
}

/// A record that is cut off in its content is noticed, and all records before it
/// are still read.
pub proof fn law_torn_record_is_noticed(records: Seq<Seq<u8>>, content: Seq<u8>, kept: int)
    requires
        forall|i: int| 0 <= i < records.len() ==> (#[trigger] records[i]).len() <= u64::MAX,
        content.len() <= u64::MAX,
        8 <= kept < framed(content).len(),
    ensures
        frames(framed_all(records) + framed(content).take(kept)) == (records, true),
    decreases records.len(),
{
    let torn = framed(content).take(kept);
    let bytes = framed_all(records) + torn;
    if records.len() == 0 {
        lemma_length_header(content.len());
        assert(bytes =~= torn);
        assert(torn.take(8) =~= little_endian(content.len(), 8));
        assert(records =~= Seq::<Seq<u8>>::empty());
    } else {
        let first = records[0];
        let others = records.drop_first();
        assert forall|i: int| 0 <= i < others.len() implies (#[trigger] others[i]).len()
            <= u64::MAX by {
            assert(others[i] == records[i + 1]);
        }
        law_torn_record_is_noticed(others, content, kept);
        lemma_framed_first(records);
        lemma_length_header(first.len());
        let rest = framed_all(others) + torn;
        assert(bytes =~= little_endian(first.len(), 8) + first + rest);
        assert(bytes.take(8) =~= little_endian(first.len(), 8));
        assert(bytes.subrange(8, 8 + first.len() as int) =~= first);
        assert(bytes.skip(8 + first.len() as int) =~= rest);
        assert(seq![first] + others =~= records);
    }
}

/// A record that is appended to a log is read last, and what was read before is
/// read as before.
pub proof fn law_appended_record_is_read_last<T>(
    decode: spec_fn(Seq<u8>) -> Option<T>,
    records: Seq<Seq<u8>>,
    content: Seq<u8>,
)
    requires
        forall|i: int| 0 <= i < records.len() ==> (#[trigger] records[i]).len() <= u64::MAX,
        content.len() <= u64::MAX,
    ensures
        read_items(decode, framed_all(records) + framed(content)) == match (
            read_items(decode, framed_all(records)),
            decode(content),
        ) {
            (Some(before), Some(item)) => Some(before.push(item)),
            _ => None,
        },
{
    let none = Seq::<u8>::empty();
    let all = records.push(content);
    assert forall|i: int| 0 <= i < all.len() implies (#[trigger] all[i]).len() <= u64::MAX by {
        if i < records.len() {
            assert(all[i] == records[i]);
        }
    }
    law_reading_gives_back_writing(records, none);
    law_reading_gives_back_writing(all, none);
    assert(framed_all(records) + none =~= framed_all(records));
    assert(framed_all(all) + none =~= framed_all(all));
    assert(all.drop_last() =~= records);
}

/// What is encoded and appended item by item is read back, where decoding undoes
/// encoding.
pub proof fn law_written_items_are_read_back<T>(
    encode: spec_fn(T) -> Seq<u8>,
    decode: spec_fn(Seq<u8>) -> Option<T>,
    items: Seq<T>,
)
    requires
        forall|i: int|
            0 <= i < items.len() ==> encode(#[trigger] items[i]).len() <= u64::MAX && decode(
                encode(items[i]),
            ) == Some(items[i]),
    ensures
        read_items(decode, framed_all(items.map_values(encode))) == Some(items),
    decreases items.len(),
{
    let records = items.map_values(encode);
    if items.len() == 0 {
        assert(items =~= Seq::<T>::empty());
    } else {
        let before = items.drop_last();
        assert forall|i: int| 0 <= i < before.len() implies encode(#[trigger] before[i]).len()
            <= u64::MAX && decode(encode(before[i])) == Some(before[i]) by {
            assert(before[i] == items[i]);
        }
        law_written_items_are_read_back(encode, decode, before);
        assert(items[items.len() - 1] == items.last());
        let written = before.map_values(encode);
        assert(records.drop_last() =~= written);
        assert forall|i: int| 0 <= i < written.len() implies (#[trigger] written[i]).len()
            <= u64::MAX by {
            assert(written[i] == encode(before[i]));
        }
        law_appended_record_is_read_last(decode, written, encode(items.last()));
        assert(before.push(items.last()) =~= items);
    }
}

/// A record is written as the number of its bytes, in eight bytes with the least
/// significant one first, and then the bytes themselves.
pub proof fn law_records_start_with_their_length(content: Seq<u8>)
    requires
        content.len() <= u64::MAX,
    ensures
        framed(content).len() == 8 + content.len(),
        framed(content).skip(8) == content,
        framed(content)[0] + 0x100 * framed(content)[1] + 0x1_0000 * framed(content)[2] + 0x100_0000
            * framed(content)[3] + 0x1_0000_0000 * framed(content)[4] + 0x100_0000_0000 * framed(
            content,
        )[5] + 0x1_0000_0000_0000 * framed(content)[6] + 0x100_0000_0000_0000 * framed(content)[7]
            == content.len(),
{
    let n = content.len();
    let head = little_endian(n, 8);
    lemma_length_header(n);
    assert(framed(content).skip(8) =~= content);
    reveal_with_fuel(little_endian_value, 9);
    let a = head.drop_first();
    let b = a.drop_first();
    let c = b.drop_first();
    let d = c.drop_first();
    let e = d.drop_first();
    let f = e.drop_first();
    let g = f.drop_first();
    assert(a[0] == head[1] && b[0] == head[2] && c[0] == head[3] && d[0] == head[4] && e[0]
        == head[5] && f[0] == head[6] && g[0] == head[7]);
    assert(g.drop_first().len() == 0);
    assert forall|i: int| 0 <= i < 8 implies framed(content)[i] == head[i] by {}
    assert(framed(content)[0] == head[0] && framed(content)[1] == head[1] && framed(content)[2]
        == head[2] && framed(content)[3] == head[3] && framed(content)[4] == head[4] && framed(
        content,
    )[5] == head[5] && framed(content)[6] == head[6] && framed(content)[7] == head[7]);
}

} // verus!
