//! Binary form of a list of (path, size) records: for each record, the path's
//! length as a little-endian `u64`, the path's bytes, then the size as a
//! little-endian `u64`. Records follow one another up to the end of the data.

use vstd::prelude::*;

verus! {

/// The eight little-endian bytes of `v`.
#[verifier::opaque]
pub open spec fn u64_le(v: u64) -> Seq<u8> {
    seq![
        (v & 0xff) as u8,
        ((v >> 8u64) & 0xff) as u8,
        ((v >> 16u64) & 0xff) as u8,
        ((v >> 24u64) & 0xff) as u8,
        ((v >> 32u64) & 0xff) as u8,
        ((v >> 40u64) & 0xff) as u8,
        ((v >> 48u64) & 0xff) as u8,
        ((v >> 56u64) & 0xff) as u8,
    ]
}

/// The value of the first eight bytes of `b`, little-endian.
#[verifier::opaque]
pub open spec fn le_u64(b: Seq<u8>) -> u64
    recommends
        b.len() >= 8,
{
    (b[0] as u64) | ((b[1] as u64) << 8u64) | ((b[2] as u64) << 16u64) | ((b[3] as u64) << 24u64)
        | ((b[4] as u64) << 32u64) | ((b[5] as u64) << 40u64) | ((b[6] as u64) << 48u64)
        | ((b[7] as u64) << 56u64)
}

/// One record.
pub open spec fn encode_record(rec: (Seq<u8>, u64)) -> Seq<u8> {
    u64_le(rec.0.len() as u64) + rec.0 + u64_le(rec.1)
}

/// All records, in order.
pub open spec fn encode(records: Seq<(Seq<u8>, u64)>) -> Seq<u8>
    decreases records.len(),
{
    if records.len() == 0 {
        Seq::empty()
    } else {
        encode_record(records[0]) + encode(records.skip(1))
    }
}

/// The records that `b` holds, or `None` where `b` is not a sequence of whole
/// records.
pub open spec fn parse(b: Seq<u8>) -> Option<Seq<(Seq<u8>, u64)>>
    decreases b.len(),
{
    if b.len() == 0 {
        Some(Seq::empty())
    } else if b.len() < 8 {
        None
    } else {
        let n = le_u64(b) as int;
        if n + 16 > b.len() {
            None
        } else {
            let rec = (b.subrange(8, 8 + n), le_u64(b.subrange(8 + n, 16 + n)));
            match parse(b.skip(16 + n)) {
                Some(rest) => Some(seq![rec] + rest),
                None => None,
            }
        }
    }
}

/// Every path is short enough for its length to be written as a `u64`.
pub open spec fn lengths_fit(records: Seq<(Seq<u8>, u64)>) -> bool {
    forall|i: int| 0 <= i < records.len() ==> (#[trigger] records[i]).0.len() <= u64::MAX
}

/// The records of an in-memory list, with each path seen as its bytes.
pub open spec fn records_view(v: Seq<(Vec<u8>, u64)>) -> Seq<(Seq<u8>, u64)> {
    v.map_values(|r: (Vec<u8>, u64)| (r.0@, r.1))
}

proof fn lemma_byte_widen(v: u64, x: u8)
    requires
        x == (v & 0xff) as u8,
    ensures
        x as u64 == v & 0xff,
{
    assert(x as u64 == v & 0xff) by (bit_vector)
        requires
            x == (v & 0xff) as u8,
    ;
}

proof fn lemma_le_round_trip(v: u64)
    ensures
        le_u64(u64_le(v)) == v,
{
    reveal(u64_le);
    reveal(le_u64);
    let b = u64_le(v);
    lemma_byte_widen(v, b[0]);
    lemma_byte_widen(v >> 8u64, b[1]);
    lemma_byte_widen(v >> 16u64, b[2]);
    lemma_byte_widen(v >> 24u64, b[3]);
    lemma_byte_widen(v >> 32u64, b[4]);
    lemma_byte_widen(v >> 40u64, b[5]);
    lemma_byte_widen(v >> 48u64, b[6]);
    lemma_byte_widen(v >> 56u64, b[7]);
    assert(((v & 0xff) | (((v >> 8u64) & 0xff) << 8u64) | (((v >> 16u64) & 0xff) << 16u64)
        | (((v >> 24u64) & 0xff) << 24u64) | (((v >> 32u64) & 0xff) << 32u64)
        | (((v >> 40u64) & 0xff) << 40u64) | (((v >> 48u64) & 0xff) << 48u64)
        | (((v >> 56u64) & 0xff) << 56u64)) == v) by (bit_vector);
}

proof fn lemma_u64_le_len(v: u64)
    ensures
        u64_le(v).len() == 8,
{
    reveal(u64_le);
}

proof fn lemma_le_prefix(b: Seq<u8>, k: int)
    requires
        0 <= k,
        k + 8 <= b.len(),
    ensures
        le_u64(b.skip(k)) == le_u64(b.subrange(k, k + 8)),
{
    reveal(le_u64);
    let x = b.skip(k);
    let y = b.subrange(k, k + 8);
    assert(x[0] == y[0] && x[1] == y[1] && x[2] == y[2] && x[3] == y[3]);
    assert(x[4] == y[4] && x[5] == y[5] && x[6] == y[6] && x[7] == y[7]);
}

/// Encoding records and parsing the result gives the records back.
pub proof fn lemma_records_round_trip(records: Seq<(Seq<u8>, u64)>)
    requires
        lengths_fit(records),
    ensures
        parse(encode(records)) == Some(records),
    decreases records.len(),
{
    if records.len() == 0 {
        assert(records =~= Seq::<(Seq<u8>, u64)>::empty());
    } else {
        let rec = records[0];
        let rest = records.skip(1);
        let n = rec.0.len() as int;
        assert(lengths_fit(rest)) by {
            assert forall|i: int| 0 <= i < rest.len() implies (#[trigger] rest[i]).0.len() <= u64::MAX by {
                assert(rest[i] == records[i + 1]);
            }
        }
        lemma_records_round_trip(rest);
        let b = encode(records);
        lemma_u64_le_len(n as u64);
        lemma_u64_le_len(rec.1);
        assert(b == encode_record(rec) + encode(rest));
        assert(b.subrange(0, 8) =~= u64_le(n as u64));
        assert(b.subrange(8, 8 + n) =~= rec.0);
        assert(b.subrange(8 + n, 16 + n) =~= u64_le(rec.1));
        assert(b.skip(16 + n) =~= encode(rest));
        lemma_le_prefix(b, 0);
        assert(b.skip(0) =~= b);
        lemma_le_round_trip(n as u64);
        lemma_le_prefix(b, 8 + n);
        assert(b.skip(8 + n).subrange(0, 8) =~= b.subrange(8 + n, 16 + n));
        lemma_le_prefix(b.subrange(8 + n, 16 + n), 0);
        assert(b.subrange(8 + n, 16 + n).skip(0) =~= b.subrange(8 + n, 16 + n));
        lemma_le_round_trip(rec.1);
        assert(seq![rec] + rest =~= records);
    }
}

proof fn lemma_encode_push(records: Seq<(Seq<u8>, u64)>, rec: (Seq<u8>, u64))
    ensures
        encode(records.push(rec)) == encode(records) + encode_record(rec),
    decreases records.len(),
{
    if records.len() == 0 {
        let one = records.push(rec);
        assert(one.skip(1) =~= Seq::<(Seq<u8>, u64)>::empty());
        assert(encode(one.skip(1)) == Seq::<u8>::empty());
        assert(encode(one) == encode_record(one[0]) + encode(one.skip(1)));
        assert(encode(records) == Seq::<u8>::empty());
        assert(encode(one) =~= encode(records) + encode_record(rec));
    } else {
        assert(records.push(rec).skip(1) =~= records.skip(1).push(rec));
        lemma_encode_push(records.skip(1), rec);
        assert(encode(records.push(rec)) =~= encode(records) + encode_record(rec));
    }
}

fn push_u64_le(out: &mut Vec<u8>, v: u64)
    ensures
        final(out)@ == old(out)@ + u64_le(v),
{
    reveal(u64_le);
    out.push((v & 0xff) as u8);
    out.push(((v >> 8u64) & 0xff) as u8);
    out.push(((v >> 16u64) & 0xff) as u8);
    out.push(((v >> 24u64) & 0xff) as u8);
    out.push(((v >> 32u64) & 0xff) as u8);
    out.push(((v >> 40u64) & 0xff) as u8);
    out.push(((v >> 48u64) & 0xff) as u8);
    out.push(((v >> 56u64) & 0xff) as u8);
    assert(final(out)@ =~= old(out)@ + u64_le(v));
}

fn read_u64_le(b: &[u8], pos: usize) -> (r: u64)
    requires
        pos + 8 <= b@.len(),
    ensures
        r == le_u64(b@.skip(pos as int)),
{
    reveal(le_u64);
    (b[pos] as u64) | ((b[pos + 1] as u64) << 8u64) | ((b[pos + 2] as u64) << 16u64)
        | ((b[pos + 3] as u64) << 24u64) | ((b[pos + 4] as u64) << 32u64)
        | ((b[pos + 5] as u64) << 40u64) | ((b[pos + 6] as u64) << 48u64)
        | ((b[pos + 7] as u64) << 56u64)
}

fn push_bytes(out: &mut Vec<u8>, b: &[u8], start: usize, end: usize)
    requires
        start <= end <= b@.len(),
    ensures
        final(out)@ == old(out)@ + b@.subrange(start as int, end as int),
{
    let mut i = start;
    while i < end
        invariant
            start <= i <= end <= b@.len(),
            out@ == old(out)@ + b@.subrange(start as int, i as int),
        decreases end - i,
    {
        out.push(b[i]);
        i = i + 1;
        assert(out@ =~= old(out)@ + b@.subrange(start as int, i as int));
    }
}

/// The encoded form of `records`.
pub fn encode_records(records: &Vec<(Vec<u8>, u64)>) -> (out: Vec<u8>)
    ensures
        out@ == encode(records_view(records@)),
{
    let mut out: Vec<u8> = Vec::new();
    let mut i: usize = 0;
    assert(records_view(records@).take(0) =~= Seq::<(Seq<u8>, u64)>::empty());
    while i < records.len()
        invariant
            i <= records@.len(),
            out@ == encode(records_view(records@).take(i as int)),
        decreases records@.len() - i,
    {
        let key = &records[i].0;
        push_u64_le(&mut out, key.len() as u64);
        push_bytes(&mut out, key.as_slice(), 0, key.len());
        push_u64_le(&mut out, records[i].1);
        proof {
            let rv = records_view(records@);
            assert(key@.subrange(0, key@.len() as int) =~= key@);
            assert(rv[i as int] == (key@, records@[i as int].1));
            lemma_encode_push(rv.take(i as int), rv[i as int]);
            assert(rv.take(i + 1) =~= rv.take(i as int).push(rv[i as int]));
        }
        i = i + 1;
    }
    assert(records_view(records@).take(i as int) =~= records_view(records@));
    out
}

/// The records that `b` holds, or `None` where `b` is not a sequence of whole
/// records.
pub fn decode_records(b: &[u8]) -> (r: Option<Vec<(Vec<u8>, u64)>>)
    ensures
        r.is_some() == parse(b@).is_some(),
        r.is_some() ==> parse(b@) == Some(records_view(r.unwrap()@)),
{
    let mut acc: Vec<(Vec<u8>, u64)> = Vec::new();
    let mut pos: usize = 0;
    assert(b@.skip(0) =~= b@);
    assert(records_view(acc@) =~= Seq::<(Seq<u8>, u64)>::empty());
    assert(match parse(b@) {
        Some(rest) => Some(records_view(acc@) + rest),
        None => None::<Seq<(Seq<u8>, u64)>>,
    } == parse(b@)) by {
        if let Some(rest) = parse(b@) {
            assert(records_view(acc@) + rest =~= rest);
        }
    }
    while pos < b.len()
        invariant
            pos <= b@.len(),
            parse(b@) == match parse(b@.skip(pos as int)) {
                Some(rest) => Some(records_view(acc@) + rest),
                None => None,
            },
        decreases b@.len() - pos,
    {
        let ghost tail = b@.skip(pos as int);
        let rem = b.len() - pos;
        if rem < 16 {
            return None;
        }
        let n = read_u64_le(b, pos);
        if n > (rem - 16) as u64 {
            return None;
        }
        let n = n as usize;
        let mut key: Vec<u8> = Vec::new();
        push_bytes(&mut key, b, pos + 8, pos + 8 + n);
        let size = read_u64_le(b, pos + 8 + n);
        let ghost old_acc = acc@;
        proof {
            assert(key@ =~= tail.subrange(8, 8 + n as int));
            lemma_le_prefix(b@, (pos + 8 + n) as int);
            lemma_le_prefix(tail, 0);
            assert(tail.skip(0) =~= tail);
            let y = tail.subrange(8 + n as int, 16 + n as int);
            lemma_le_prefix(y, 0);
            assert(y.skip(0) =~= y);
            assert(b@.subrange((pos + 8 + n) as int, (pos + 16 + n) as int) =~= y);
        }
        acc.push((key, size));
        pos = pos + 16 + n;
        proof {
            assert(tail.skip(16 + n as int) =~= b@.skip(pos as int));
            assert(records_view(acc@) =~= records_view(old_acc).push((key@, size)));
            if let Some(rest) = parse(b@.skip(pos as int)) {
                assert(records_view(old_acc) + (seq![(key@, size)] + rest)
                    =~= records_view(acc@) + rest);
            }
        }
    }
    assert(b@.skip(pos as int) =~= Seq::<u8>::empty());
    assert(records_view(acc@) + Seq::<(Seq<u8>, u64)>::empty() =~= records_view(acc@));
    Some(acc)
}

} // verus!
