//! The wire protocol: a request frame carries encoded commands, a response
//! frame carries one reply per command.
//!
//! Request: `'*'`, a big-endian `u64` count, then each command as a stored
//! record (big-endian `u64` length, then the encoded command).
//! Response: `'*'`, a big-endian `u64` count, then each reply as a status
//! byte (`'+'` or `'-'`) followed by its message as a stored record.
use vstd::prelude::*;

use crate::codec::{
    append_bytes, be_bytes, be_value, frame_record, framed, lemma_be_round_trip, read_record,
    record_at, u64_to_be, PREFIX_LEN,
};
use crate::error::KvsError;

verus! {

/// First byte of every frame.
pub const SENTINEL: u8 = 42;

/// Status byte of a successful reply.
pub const STATUS_OK: u8 = 43;

/// Status byte of a failed reply.
pub const STATUS_ERR: u8 = 45;

/// Bytes of a frame's header: the sentinel and the count.
pub const HEADER_LEN: usize = 9;

/// The stored records of a sequence of payloads, one after another.
pub open spec fn items(ps: Seq<Seq<u8>>) -> Seq<u8>
    decreases ps.len(),
{
    if ps.len() == 0 {
        Seq::empty()
    } else {
        items(ps.drop_last()) + framed(ps.last())
    }
}

/// A request frame carrying the given encoded commands.
pub open spec fn request_frame(ps: Seq<Seq<u8>>) -> Seq<u8> {
    seq![SENTINEL] + be_bytes(ps.len() as u64) + items(ps)
}

/// Reads `n` stored records from `pos` on, or `None` if one of them is
/// missing or damaged.
pub open spec fn parse_items(buf: Seq<u8>, pos: int, n: nat) -> Option<Seq<Seq<u8>>>
    decreases n,
{
    if n == 0 {
        Some(Seq::empty())
    } else {
        match record_at(buf, pos) {
            Ok((s, len)) => match parse_items(buf, s + len, (n - 1) as nat) {
                Some(rest) => Some(seq![buf.subrange(s, s + len)] + rest),
                None => None,
            },
            Err(_) => None,
        }
    }
}

/// The encoded commands of the request frame at the front of `buf`, or
/// `None` if `buf` does not start with a whole, well-formed frame.
pub open spec fn parse_request_spec(buf: Seq<u8>) -> Option<Seq<Seq<u8>>> {
    if buf.len() < HEADER_LEN || buf[0] != SENTINEL {
        None
    } else {
        parse_items(buf, HEADER_LEN as int, be_value(buf, 1) as nat)
    }
}

/// The bytes of each vector.
pub open spec fn views(vs: Seq<Vec<u8>>) -> Seq<Seq<u8>> {
    vs.map_values(|v: Vec<u8>| v@)
}

/// One reply: a status and a message.
pub struct Reply {
    /// `true` for `'+'`, `false` for `'-'`.
    pub ok: bool,
    /// The message: a value, or a description of what happened.
    pub msg: Vec<u8>,
}

/// The bytes of one reply.
pub open spec fn reply_bytes(ok: bool, msg: Seq<u8>) -> Seq<u8> {
    seq![if ok { STATUS_OK } else { STATUS_ERR }] + framed(msg)
}

/// The replies of a response frame, one after another.
pub open spec fn replies_bytes(rs: Seq<Reply>) -> Seq<u8>
    decreases rs.len(),
{
    if rs.len() == 0 {
        Seq::empty()
    } else {
        replies_bytes(rs.drop_last()) + reply_bytes(rs.last().ok, rs.last().msg@)
    }
}

/// A response frame carrying the given replies.
pub open spec fn response_frame(rs: Seq<Reply>) -> Seq<u8> {
    seq![SENTINEL] + be_bytes(rs.len() as u64) + replies_bytes(rs)
}

proof fn lemma_items_front(p: Seq<u8>, ps: Seq<Seq<u8>>)
    ensures
        items(seq![p] + ps) == framed(p) + items(ps),
    decreases ps.len(),
{
    if ps.len() == 0 {
        assert((seq![p] + ps).drop_last() =~= Seq::<Seq<u8>>::empty());
        assert((seq![p] + ps).last() == p);
        assert(items((seq![p] + ps).drop_last()) == Seq::<u8>::empty());
        assert(items(seq![p] + ps) =~= framed(p));
    } else {
        assert((seq![p] + ps).drop_last() =~= seq![p] + ps.drop_last());
        assert((seq![p] + ps).last() == ps.last());
        lemma_items_front(p, ps.drop_last());
        assert(items(seq![p] + ps) =~= framed(p) + items(ps));
    }
}

proof fn lemma_record_at_offset(pre: Seq<u8>, p: Seq<u8>, rest: Seq<u8>)
    requires
        p.len() <= u64::MAX,
    ensures
        record_at(pre + framed(p) + rest, pre.len() as int) == Ok::<(int, int), crate::codec::RecordError>(
            (pre.len() + PREFIX_LEN, p.len() as int),
        ),
        (pre + framed(p) + rest).subrange(pre.len() + PREFIX_LEN, pre.len() + PREFIX_LEN + p.len())
            == p,
{
    let buf = pre + framed(p) + rest;
    let n = p.len() as u64;
    lemma_be_round_trip(n);
    assert forall|i: int| 0 <= i < 8 implies buf[pre.len() + i] == be_bytes(n)[i] by {}
    assert(be_value(buf, pre.len() as int) == be_value(be_bytes(n), 0));
    assert(buf.subrange(pre.len() + PREFIX_LEN, pre.len() + PREFIX_LEN + p.len()) =~= p);
}

proof fn lemma_parse_items(pre: Seq<u8>, ps: Seq<Seq<u8>>, rest: Seq<u8>)
    requires
        forall|i: int| 0 <= i < ps.len() ==> (#[trigger] ps[i]).len() <= u64::MAX,
    ensures
        parse_items(pre + items(ps) + rest, pre.len() as int, ps.len()) == Some(ps),
    decreases ps.len(),
{
    if ps.len() > 0 {
        let p = ps[0];
        let tail = ps.drop_first();
        assert(ps =~= seq![p] + tail);
        lemma_items_front(p, tail);
        let buf = pre + items(ps) + rest;
        let r2 = items(tail) + rest;
        let pre2 = pre + framed(p);
        assert(buf =~= pre + framed(p) + r2);
        lemma_record_at_offset(pre, p, r2);
        assert(buf =~= pre2 + items(tail) + rest);
        assert forall|i: int| 0 <= i < tail.len() implies (#[trigger] tail[i]).len() <= u64::MAX by {
            assert(tail[i] == ps[i + 1]);
        }
        lemma_parse_items(pre2, tail, rest);
        let s = pre.len() + PREFIX_LEN;
        assert(s + p.len() == pre2.len());
        assert(buf.subrange(s, s + p.len()) == p);
        assert(parse_items(buf, pre2.len() as int, tail.len()) == Some(tail));
        assert(parse_items(buf, pre.len() as int, ps.len()) == Some(seq![p] + tail));
    }
}

/// A request frame of well-formed commands, whatever follows it on the
/// stream, is read back as exactly those commands.
pub proof fn lemma_request_round_trip(ps: Seq<Seq<u8>>, rest: Seq<u8>)
    requires
        ps.len() <= u64::MAX,
        forall|i: int| 0 <= i < ps.len() ==> (#[trigger] ps[i]).len() <= u64::MAX,
    ensures
        parse_request_spec(request_frame(ps) + rest) == Some(ps),
{
    let n = ps.len() as u64;
    let buf = request_frame(ps) + rest;
    let pre = seq![SENTINEL] + be_bytes(n);
    assert(buf =~= pre + items(ps) + rest);
    lemma_be_round_trip(n);
    assert forall|i: int| 0 <= i < 8 implies buf[1 + i] == be_bytes(n)[i] by {}
    assert(be_value(buf, 1) == be_value(be_bytes(n), 0));
    lemma_parse_items(pre, ps, rest);
}

/// The status and message of each reply.
pub open spec fn reply_views(rs: Seq<Reply>) -> Seq<(bool, Seq<u8>)> {
    rs.map_values(|r: Reply| (r.ok, r.msg@))
}

/// Reads `n` replies from `pos` on, or `None` if one of them is missing,
/// damaged, or has an unknown status byte.
pub open spec fn parse_replies(buf: Seq<u8>, pos: int, n: nat) -> Option<Seq<(bool, Seq<u8>)>>
    decreases n,
{
    if n == 0 {
        Some(Seq::empty())
    } else if pos < 0 || pos >= buf.len() || (buf[pos] != STATUS_OK && buf[pos] != STATUS_ERR) {
        None
    } else {
        match record_at(buf, pos + 1) {
            Ok((s, len)) => match parse_replies(buf, s + len, (n - 1) as nat) {
                Some(rest) => Some(seq![(buf[pos] == STATUS_OK, buf.subrange(s, s + len))] + rest),
                None => None,
            },
            Err(_) => None,
        }
    }
}

/// The replies of the response frame at the front of `buf`, or `None` if
/// `buf` does not start with a whole, well-formed frame.
pub open spec fn parse_response_spec(buf: Seq<u8>) -> Option<Seq<(bool, Seq<u8>)>> {
    if buf.len() < HEADER_LEN || buf[0] != SENTINEL {
        None
    } else {
        parse_replies(buf, HEADER_LEN as int, be_value(buf, 1) as nat)
    }
}

proof fn lemma_replies_front(r: Reply, rs: Seq<Reply>)
    ensures
        replies_bytes(seq![r] + rs) == reply_bytes(r.ok, r.msg@) + replies_bytes(rs),
    decreases rs.len(),
{
    if rs.len() == 0 {
        assert((seq![r] + rs).drop_last() =~= Seq::<Reply>::empty());
        assert((seq![r] + rs).last() == r);
        assert(replies_bytes((seq![r] + rs).drop_last()) == Seq::<u8>::empty());
        assert(replies_bytes(seq![r] + rs) =~= reply_bytes(r.ok, r.msg@));
    } else {
        assert((seq![r] + rs).drop_last() =~= seq![r] + rs.drop_last());
        assert((seq![r] + rs).last() == rs.last());
        lemma_replies_front(r, rs.drop_last());
        assert(replies_bytes(seq![r] + rs) =~= reply_bytes(r.ok, r.msg@) + replies_bytes(rs));
    }
}

proof fn lemma_parse_replies(pre: Seq<u8>, rs: Seq<Reply>, rest: Seq<u8>)
    requires
        forall|i: int| 0 <= i < rs.len() ==> (#[trigger] rs[i]).msg@.len() <= u64::MAX,
    ensures
        parse_replies(pre + replies_bytes(rs) + rest, pre.len() as int, rs.len()) == Some(
            reply_views(rs),
        ),
    decreases rs.len(),
{
    if rs.len() > 0 {
        let r = rs[0];
        let tail = rs.drop_first();
        assert(rs =~= seq![r] + tail);
        lemma_replies_front(r, tail);
        let buf = pre + replies_bytes(rs) + rest;
        let status: u8 = if r.ok { STATUS_OK } else { STATUS_ERR };
        let pre1 = pre + seq![status];
        let r2 = replies_bytes(tail) + rest;
        let pre2 = pre1 + framed(r.msg@);
        assert(reply_bytes(r.ok, r.msg@) == seq![status] + framed(r.msg@));
        assert(buf =~= pre1 + framed(r.msg@) + r2);
        assert(buf[pre.len() as int] == status);
        lemma_record_at_offset(pre1, r.msg@, r2);
        assert(buf =~= pre2 + replies_bytes(tail) + rest);
        assert forall|i: int| 0 <= i < tail.len() implies (#[trigger] tail[i]).msg@.len()
            <= u64::MAX by {
            assert(tail[i] == rs[i + 1]);
        }
        lemma_parse_replies(pre2, tail, rest);
        let s = pre1.len() + PREFIX_LEN;
        assert(s + r.msg@.len() == pre2.len());
        assert(buf.subrange(s, s + r.msg@.len()) == r.msg@);
        assert(parse_replies(buf, pre2.len() as int, tail.len()) == Some(reply_views(tail)));
        assert(seq![(r.ok, r.msg@)] + reply_views(tail) =~= reply_views(rs)) by {
            assert(reply_views(rs)[0] == (r.ok, r.msg@));
        }
        assert(parse_replies(buf, pre.len() as int, rs.len()) == Some(
            seq![(buf[pre.len() as int] == STATUS_OK, buf.subrange(s, s + r.msg@.len()))]
                + reply_views(tail),
        ));
    }
}

/// A response frame, whatever follows it on the stream, is read back as
/// exactly its replies: as many as the frame was built with.
pub proof fn lemma_response_round_trip(rs: Seq<Reply>, rest: Seq<u8>)
    requires
        rs.len() <= u64::MAX,
        forall|i: int| 0 <= i < rs.len() ==> (#[trigger] rs[i]).msg@.len() <= u64::MAX,
    ensures
        parse_response_spec(response_frame(rs) + rest) == Some(reply_views(rs)),
        reply_views(rs).len() == rs.len(),
{
    let n = rs.len() as u64;
    let buf = response_frame(rs) + rest;
    let pre = seq![SENTINEL] + be_bytes(n);
    assert(buf =~= pre + replies_bytes(rs) + rest);
    lemma_be_round_trip(n);
    assert forall|i: int| 0 <= i < 8 implies buf[1 + i] == be_bytes(n)[i] by {}
    assert(be_value(buf, 1) == be_value(be_bytes(n), 0));
    lemma_parse_replies(pre, rs, rest);
}

fn copy_range(buf: &[u8], start: usize, len: usize) -> (r: Vec<u8>)
    requires
        start + len <= buf@.len(),
    ensures
        r@ == buf@.subrange(start as int, start + len),
{
    let total = buf.len();
    let mut r: Vec<u8> = Vec::new();
    let mut i: usize = 0;
    while i < len
        invariant
            total == buf@.len(),
            start + len <= buf@.len(),
            i <= len,
            r@ == buf@.subrange(start as int, start + i),
        decreases len - i,
    {
        r.push(buf[start + i]);
        i = i + 1;
        assert(r@ =~= buf@.subrange(start as int, start + i));
    }
    r
}

/// The client's side of the protocol.
pub struct KvsClient {}

impl KvsClient {
    /// Builds a request frame carrying the given encoded commands.
    pub fn encode_request(payloads: &Vec<Vec<u8>>) -> (r: Vec<u8>)
        ensures
            r@ == request_frame(views(payloads@)),
    {
        let mut r: Vec<u8> = Vec::new();
        r.push(SENTINEL);
        let head = u64_to_be(payloads.len() as u64);
        append_bytes(&mut r, head.as_slice());
        let ghost header = r@;
        let mut i: usize = 0;
        while i < payloads.len()
            invariant
                i <= payloads@.len(),
                header == seq![SENTINEL] + be_bytes(payloads@.len() as u64),
                r@ == header + items(views(payloads@).take(i as int)),
            decreases payloads@.len() - i,
        {
            let rec = frame_record(payloads[i].as_slice());
            append_bytes(&mut r, rec.as_slice());
            proof {
                let vs = views(payloads@);
                assert(vs.take(i + 1).drop_last() =~= vs.take(i as int));
            }
            i = i + 1;
        }
        proof {
            assert(views(payloads@).take(i as int) =~= views(payloads@));
        }
        r
    }

    /// Reads the response frame at the front of `buf`: its replies, in
    /// order. Fails with `Protocol` when the frame does not start with the
    /// sentinel, is cut short or damaged, or holds an unknown status byte.
    pub fn decode_response(buf: &[u8]) -> (r: Result<Vec<Reply>, KvsError>)
        ensures
            r is Ok <==> parse_response_spec(buf@) is Some,
            match r {
                Ok(rs) => parse_response_spec(buf@) == Some(reply_views(rs@)),
                Err(e) => e == KvsError::Protocol,
            },
    {
        if buf.len() < HEADER_LEN || buf[0] != SENTINEL {
            return Err(KvsError::Protocol);
        }
        let total = buf.len();
        let n = crate::codec::read_be_u64(buf, 1);
        let mut rs: Vec<Reply> = Vec::new();
        let mut pos: usize = HEADER_LEN;
        let mut i: u64 = 0;
        while i < n
            invariant
                i <= n,
                total == buf@.len(),
                n == be_value(buf@, 1),
                pos <= buf@.len(),
                rs@.len() == i,
                parse_replies(buf@, HEADER_LEN as int, n as nat) == match parse_replies(
                    buf@,
                    pos as int,
                    (n - i) as nat,
                ) {
                    Some(rest) => Some(reply_views(rs@) + rest),
                    None => None::<Seq<(bool, Seq<u8>)>>,
                },
            decreases n - i,
        {
            if pos >= total || (buf[pos] != STATUS_OK && buf[pos] != STATUS_ERR) {
                return Err(KvsError::Protocol);
            }
            let ok = buf[pos] == STATUS_OK;
            match read_record(buf, pos + 1) {
                Ok((s, len)) => {
                    let msg = copy_range(buf, s, len);
                    let reply = Reply { ok, msg };
                    proof {
                        assert(reply_views(rs@.push(reply)) =~= reply_views(rs@) + seq![(ok, msg@)]);
                        let tail = parse_replies(buf@, s + len, (n - i - 1) as nat);
                        if let Some(t) = tail {
                            assert(reply_views(rs@) + (seq![(ok, msg@)] + t) =~= reply_views(
                                rs@.push(reply),
                            ) + t);
                        }
                    }
                    rs.push(reply);
                    pos = s + len;
                    i = i + 1;
                },
                Err(_) => {
                    return Err(KvsError::Protocol);
                },
            }
        }
        proof {
            assert(reply_views(rs@) + Seq::<(bool, Seq<u8>)>::empty() =~= reply_views(rs@));
        }
        Ok(rs)
    }
}

/// The server's side of the protocol.
pub struct KvsServer {}

impl KvsServer {
    /// Reads the request frame at the front of `buf`: the encoded commands it
    /// carries. Fails with `Protocol` when the first byte is not the sentinel,
    /// or when the frame is cut short or damaged: such a request gets no
    /// response.
    pub fn decode_request(buf: &[u8]) -> (r: Result<Vec<Vec<u8>>, KvsError>)
        ensures
            r is Ok <==> parse_request_spec(buf@) is Some,
            match r {
                Ok(ps) => parse_request_spec(buf@) == Some(views(ps@)),
                Err(e) => e == KvsError::Protocol,
            },
            buf@.len() == 0 || buf@[0] != SENTINEL ==> r is Err,
    {
        if buf.len() < HEADER_LEN || buf[0] != SENTINEL {
            return Err(KvsError::Protocol);
        }
        let total = buf.len();
        let n = crate::codec::read_be_u64(buf, 1);
        let mut ps: Vec<Vec<u8>> = Vec::new();
        let mut pos: usize = HEADER_LEN;
        let mut i: u64 = 0;
        while i < n
            invariant
                i <= n,
                total == buf@.len(),
                n == be_value(buf@, 1),
                pos <= buf@.len(),
                ps@.len() == i,
                parse_items(buf@, HEADER_LEN as int, n as nat) == match parse_items(
                    buf@,
                    pos as int,
                    (n - i) as nat,
                ) {
                    Some(rest) => Some(views(ps@) + rest),
                    None => None::<Seq<Seq<u8>>>,
                },
            decreases n - i,
        {
            match read_record(buf, pos) {
                Ok((s, len)) => {
                    let p = copy_range(buf, s, len);
                    proof {
                        assert(views(ps@.push(p)) =~= views(ps@) + seq![p@]);
                        let tail = parse_items(buf@, s + len, (n - i - 1) as nat);
                        if let Some(t) = tail {
                            assert(views(ps@) + (seq![p@] + t) =~= views(ps@.push(p)) + t);
                        }
                    }
                    ps.push(p);
                    pos = s + len;
                    i = i + 1;
                },
                Err(_) => {
                    return Err(KvsError::Protocol);
                },
            }
        }
        proof {
            assert(views(ps@) + Seq::<Seq<u8>>::empty() =~= views(ps@));
        }
        Ok(ps)
    }

    /// Builds the response frame for the given replies, one per command.
    pub fn encode_response(replies: &Vec<Reply>) -> (r: Vec<u8>)
        ensures
            r@ == response_frame(replies@),
    {
        let mut r: Vec<u8> = Vec::new();
        r.push(SENTINEL);
        let head = u64_to_be(replies.len() as u64);
        append_bytes(&mut r, head.as_slice());
        let ghost header = r@;
        let mut i: usize = 0;
        while i < replies.len()
            invariant
                i <= replies@.len(),
                header == seq![SENTINEL] + be_bytes(replies@.len() as u64),
                r@ == header + replies_bytes(replies@.take(i as int)),
            decreases replies@.len() - i,
        {
            let reply = &replies[i];
            r.push(if reply.ok { STATUS_OK } else { STATUS_ERR });
            let rec = frame_record(reply.msg.as_slice());
            append_bytes(&mut r, rec.as_slice());
            proof {
                assert(replies@.take(i + 1).drop_last() =~= replies@.take(i as int));
                assert(replies@.take(i + 1).last() == replies@[i as int]);
                assert(r@ =~= header + replies_bytes(replies@.take(i + 1)));
            }
            i = i + 1;
        }
        proof {
            assert(replies@.take(i as int) =~= replies@);
        }
        r
    }
}

} // verus!
