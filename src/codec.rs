//! Length-prefixed records: a big-endian `u64` length followed by that many
//! payload bytes.
use vstd::prelude::*;

verus! {

/// Number of bytes in a record's length prefix.
pub const PREFIX_LEN: usize = 8;

/// The eight big-endian bytes of `n`.
pub open spec fn be_bytes(n: u64) -> Seq<u8> {
    seq![
        (n >> 56u64) as u8,
        (n >> 48u64) as u8,
        (n >> 40u64) as u8,
        (n >> 32u64) as u8,
        (n >> 24u64) as u8,
        (n >> 16u64) as u8,
        (n >> 8u64) as u8,
        n as u8,
    ]
}

/// The `u64` whose big-endian bytes are `b[pos..pos + 8]`.
pub open spec fn be_value(b: Seq<u8>, pos: int) -> u64 {
    ((b[pos] as u64) << 56u64) | ((b[pos + 1] as u64) << 48u64) | ((b[pos + 2] as u64) << 40u64)
        | ((b[pos + 3] as u64) << 32u64) | ((b[pos + 4] as u64) << 24u64) | ((b[pos + 5] as u64)
        << 16u64) | ((b[pos + 6] as u64) << 8u64) | (b[pos + 7] as u64)
}

/// A stored record: the payload's length, big-endian, then the payload.
pub open spec fn framed(payload: Seq<u8>) -> Seq<u8> {
    be_bytes(payload.len() as u64) + payload
}

/// Why no record could be read at a position.
#[derive(Debug, Clone, Copy, PartialEq, Eq, Structural)]
pub enum RecordError {
    /// The position is the end of the log: a clean end.
    EndOfLog,
    /// A length prefix is cut short, or declares more bytes than remain.
    MalformedRecord,
}

/// What reading at `pos` yields: the payload's start and length, or why
/// there is none.
pub open spec fn record_at(log: Seq<u8>, pos: int) -> Result<(int, int), RecordError> {
    let rest = log.len() - pos;
    if rest == 0 {
        Err(RecordError::EndOfLog)
    } else if rest < PREFIX_LEN {
        Err(RecordError::MalformedRecord)
    } else if be_value(log, pos) > rest - PREFIX_LEN {
        Err(RecordError::MalformedRecord)
    } else {
        Ok((pos + PREFIX_LEN, be_value(log, pos) as int))
    }
}

/// Decoding the eight bytes of `n` gives `n` back.
pub proof fn lemma_be_round_trip(n: u64)
    ensures
        be_value(be_bytes(n), 0) == n,
{
    let b = be_bytes(n);
    assert(b[0] == (n >> 56u64) as u8);
    assert(b[7] == n as u8);
    assert((((n >> 56u64) as u8 as u64) << 56u64) | (((n >> 48u64) as u8 as u64) << 48u64) | (((n
        >> 40u64) as u8 as u64) << 40u64) | (((n >> 32u64) as u8 as u64) << 32u64) | (((n
        >> 24u64) as u8 as u64) << 24u64) | (((n >> 16u64) as u8 as u64) << 16u64) | (((n
        >> 8u64) as u8 as u64) << 8u64) | (n as u8 as u64) == n) by (bit_vector);
}

/// Reading a record at the front of a log that begins with a framed payload
/// finds exactly that payload, whatever follows it.
pub proof fn lemma_record_round_trip(payload: Seq<u8>, rest: Seq<u8>)
    requires
        payload.len() <= u64::MAX,
    ensures
        record_at(framed(payload) + rest, 0) == Ok::<(int, int), RecordError>(
            (PREFIX_LEN as int, payload.len() as int),
        ),
        (framed(payload) + rest).subrange(
            PREFIX_LEN as int,
            PREFIX_LEN + payload.len(),
        ) == payload,
{
    let log = framed(payload) + rest;
    let n = payload.len() as u64;
    lemma_be_round_trip(n);
    assert forall|i: int| 0 <= i < 8 implies log[i] == be_bytes(n)[i] by {}
    assert(be_value(log, 0) == be_value(be_bytes(n), 0));
    assert(log.subrange(PREFIX_LEN as int, PREFIX_LEN + payload.len()) =~= payload);
}

/// Relies on byteorder's `BigEndian::read_u64`: the big-endian value of the
/// first eight bytes of the slice it is given (it panics on fewer).
#[verifier::external_body]
pub(crate) fn read_be_u64(b: &[u8], pos: usize) -> (r: u64)
    requires
        pos + PREFIX_LEN <= b@.len(),
    ensures
        r == be_value(b@, pos as int),
{
    <byteorder::BigEndian as byteorder::ByteOrder>::read_u64(&b[pos..])
}

/// The eight big-endian bytes of `n`.
pub fn u64_to_be(n: u64) -> (r: Vec<u8>)
    ensures
        r@ == be_bytes(n),
{
    let mut r: Vec<u8> = Vec::new();
    r.push((n >> 56u64) as u8);
    r.push((n >> 48u64) as u8);
    r.push((n >> 40u64) as u8);
    r.push((n >> 32u64) as u8);
    r.push((n >> 24u64) as u8);
    r.push((n >> 16u64) as u8);
    r.push((n >> 8u64) as u8);
    r.push(n as u8);
    assert(r@ =~= be_bytes(n));
    r
}

/// Appends the bytes of `src` to `dst`.
pub fn append_bytes(dst: &mut Vec<u8>, src: &[u8])
    ensures
        final(dst)@ == old(dst)@ + src@,
{
    let mut i: usize = 0;
    while i < src.len()
        invariant
            i <= src@.len(),
            dst@ == old(dst)@ + src@.subrange(0, i as int),
        decreases src@.len() - i,
    {
        dst.push(src[i]);
        i = i + 1;
        assert(src@.subrange(0, i as int) =~= src@.subrange(0, i - 1) + seq![src@[i - 1]]);
        assert(dst@ =~= old(dst)@ + src@.subrange(0, i as int));
    }
    assert(src@.subrange(0, i as int) =~= src@);
}

/// Frames a payload as a stored record.
pub fn frame_record(payload: &[u8]) -> (r: Vec<u8>)
    ensures
        r@ == framed(payload@),
{
    let mut r = u64_to_be(payload.len() as u64);
    append_bytes(&mut r, payload);
    r
}

/// Reads the record that starts at `pos`, returning where its payload starts
/// and how long it is; a clean end of the log is told apart from a damaged
/// record.
pub fn read_record(log: &[u8], pos: usize) -> (r: Result<(usize, usize), RecordError>)
    requires
        pos <= log@.len(),
    ensures
        match r {
            Ok((s, n)) => record_at(log@, pos as int) == Ok::<(int, int), RecordError>(
                (s as int, n as int),
            ),
            Err(e) => record_at(log@, pos as int) == Err::<(int, int), RecordError>(e),
        },
{
    let rest = log.len() - pos;
    if rest == 0 {
        return Err(RecordError::EndOfLog);
    }
    if rest < PREFIX_LEN {
        return Err(RecordError::MalformedRecord);
    }
    let n = read_be_u64(log, pos);
    if n > (rest - PREFIX_LEN) as u64 {
        return Err(RecordError::MalformedRecord);
    }
    Ok((pos + PREFIX_LEN, n as usize))
}

/// The payload ranges of the records from `pos` to the end of the log, or
/// `None` if a record on the way is damaged.
pub open spec fn records_in(log: Seq<u8>, pos: int) -> Option<Seq<(int, int)>>
    decreases log.len() - pos,
{
    match record_at(log, pos) {
        Err(RecordError::EndOfLog) => Some(Seq::empty()),
        Err(RecordError::MalformedRecord) => None,
        Ok((s, n)) => match records_in(log, s + n) {
            Some(rest) => Some(seq![(s, n)] + rest),
            None => None,
        },
    }
}

/// Index pairs as integers.
pub open spec fn ranges(v: Seq<(usize, usize)>) -> Seq<(int, int)> {
    v.map_values(|p: (usize, usize)| (p.0 as int, p.1 as int))
}

/// Splits a whole log into its records: the start and length of each
/// payload, in order. A damaged record, even the last one, is
/// `MalformedRecord`; only a clean end stops the scan.
pub fn scan_log(log: &[u8]) -> (r: Result<Vec<(usize, usize)>, RecordError>)
    ensures
        match r {
            Ok(v) => records_in(log@, 0) == Some(ranges(v@)),
            Err(e) => e == RecordError::MalformedRecord && records_in(log@, 0) is None,
        },
{
    let total = log.len();
    let mut found: Vec<(usize, usize)> = Vec::new();
    let mut pos: usize = 0;
    loop
        invariant
            total == log@.len(),
            pos <= log@.len(),
            records_in(log@, 0) == match records_in(log@, pos as int) {
                Some(rest) => Some(ranges(found@) + rest),
                None => None::<Seq<(int, int)>>,
            },
        decreases log@.len() - pos,
    {
        match read_record(log, pos) {
            Err(RecordError::EndOfLog) => {
                proof {
                    assert(ranges(found@) + Seq::<(int, int)>::empty() =~= ranges(found@));
                }
                return Ok(found);
            },
            Err(e) => {
                return Err(e);
            },
            Ok((s, n)) => {
                proof {
                    assert(ranges(found@.push((s, n))) =~= ranges(found@) + seq![(s as int, n as int)]);
                    if let Some(t) = records_in(log@, s + n) {
                        assert(ranges(found@) + (seq![(s as int, n as int)] + t) =~= ranges(
                            found@.push((s, n)),
                        ) + t);
                    }
                }
                found.push((s, n));
                pos = s + n;
            },
        }
    }
}

} // verus!
