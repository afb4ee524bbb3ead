//! Transport codec: DNS wire messages, truncation, stream framing.
//!
//! The listener's network work happens outside the library; this module
//! holds its computation. A datagram is decoded into a `Query` (FORMERR on
//! any malformed input), an `Answer` is encoded back echoing the client's
//! transaction id, an answer too large for the transport loses trailing
//! records and gains the truncation bit instead of failing, and stream
//! transports carry messages behind a two-byte length prefix.

use crate::errors::ResolveError;
use crate::message::{Answer, AnswerModel, Record, RecordModel};
use crate::query::{allowed_byte, labels_ok, lower_byte, wf_name, Query, DOT};
use vstd::prelude::*;

verus! {

/// The two big-endian bytes of a 16-bit value.
pub open spec fn u16_be(x: u16) -> Seq<u8> {
    seq![(x / 256) as u8, (x % 256) as u8]
}

/// The four big-endian bytes of a 32-bit value.
pub open spec fn u32_be(x: u32) -> Seq<u8> {
    seq![
        (x / 0x1000000) as u8,
        ((x / 0x10000) % 256) as u8,
        ((x / 256) % 256) as u8,
        (x % 256) as u8,
    ]
}

/// The 16-bit value two big-endian bytes spell.
pub open spec fn u16_of(hi: u8, lo: u8) -> u16 {
    (hi * 256 + lo) as u16
}

/// Append the two big-endian bytes of `x`.
fn push_u16(out: &mut Vec<u8>, x: u16)
    ensures
        final(out)@ == old(out)@ + u16_be(x),
{
    out.push((x / 256) as u8);
    out.push((x % 256) as u8);
    proof {
        assert(out@ =~= old(out)@ + u16_be(x));
    }
}

/// Append the four big-endian bytes of `x`.
fn push_u32(out: &mut Vec<u8>, x: u32)
    ensures
        final(out)@ == old(out)@ + u32_be(x),
{
    out.push((x / 0x1000000) as u8);
    out.push(((x / 0x10000) % 256) as u8);
    out.push(((x / 256) % 256) as u8);
    out.push((x % 256) as u8);
    proof {
        assert(out@ =~= old(out)@ + u32_be(x));
    }
}

/// Read the 16-bit value at `pos`.
fn read_u16(buf: &Vec<u8>, pos: usize) -> (r: u16)
    requires
        pos + 2 <= buf@.len(),
    ensures
        r == u16_of(buf@[pos as int], buf@[pos as int + 1]),
{
    let n = buf.len();
    (buf[pos] as u16) * 256 + (buf[pos + 1] as u16)
}

/// Parse the label sequence starting at `pos`, accumulating the dotted,
/// lower-cased name in `acc`: each label is a length byte followed by that
/// many bytes and contributes the label plus a trailing dot; the empty
/// root label ends the name. Compression pointers and over-long labels are
/// refused, as is a bare root name.
pub open spec fn parse_labels(b: Seq<u8>, pos: int, acc: Seq<u8>) -> Option<(Seq<u8>, int)>
    decreases b.len() - pos,
{
    if pos < 0 || pos >= b.len() {
        None
    } else {
        let l = b[pos] as int;
        if l == 0 {
            if acc.len() == 0 {
                None
            } else {
                Some((acc, pos + 1))
            }
        } else if l > 63 {
            None
        } else if pos + 1 + l > b.len() {
            None
        } else {
            parse_labels(
                b,
                pos + 1 + l,
                acc + b.subrange(pos + 1, pos + 1 + l).map_values(|x: u8| lower_byte(x)) + seq![
                    DOT,
                ],
            )
        }
    }
}

/// What decoding a datagram yields: the canonical name, type, class and
/// transaction id, provided the message is a well-formed single question.
pub open spec fn parsed_question(b: Seq<u8>) -> Option<(Seq<u8>, u16, u16, u16)> {
    if b.len() < 12 {
        None
    } else if (b[2] as int) >= 128 {
        None  // a response, not a query
    } else if u16_of(b[4], b[5]) != 1 {
        None  // exactly one question is served
    } else {
        match parse_labels(b, 12, Seq::empty()) {
            None => None,
            Some((name, end)) => if !wf_name(name) {
                None
            } else if end + 4 > b.len() {
                None
            } else {
                Some(
                    (
                        name,
                        u16_of(b[end], b[end + 1]),
                        u16_of(b[end + 2], b[end + 3]),
                        u16_of(b[0], b[1]),
                    ),
                )
            },
        }
    }
}

/// Decode a datagram into a query for the given client. Exactly the
/// messages `parsed_question` accepts decode; everything else is a
/// `MalformedQuery`, answered with FORMERR by the caller.
pub fn decode_query(buf: &Vec<u8>, client: Vec<u8>) -> (r: Result<Query, ResolveError>)
    ensures
        (r is Ok) == (parsed_question(buf@) is Some),
        r matches Ok(q) ==> {
            &&& parsed_question(buf@) == Some((q@.name, q.qtype, q.qclass, q.txid))
            &&& q.wf()
            &&& q@.client == client@
        },
        r matches Err(e) ==> e == ResolveError::MalformedQuery,
{
    if buf.len() < 12 {
        return Err(ResolveError::MalformedQuery);
    }
    if buf[2] >= 128 {
        return Err(ResolveError::MalformedQuery);
    }
    if read_u16(buf, 4) != 1 {
        return Err(ResolveError::MalformedQuery);
    }
    let mut name: Vec<u8> = Vec::new();
    let mut pos: usize = 12;
    proof {
        assert(name@ =~= Seq::<u8>::empty());
    }
    let end: usize;
    loop
        invariant
            12 <= pos,
            pos <= buf@.len(),
            buf@.len() <= usize::MAX,
            parse_labels(buf@, 12, Seq::empty()) == parse_labels(buf@, pos as int, name@),
        ensures
            parse_labels(buf@, 12, Seq::empty()) == Some((name@, end as int)),
        decreases buf@.len() - pos,
    {
        if pos >= buf.len() {
            return Err(ResolveError::MalformedQuery);
        }
        let l = buf[pos];
        if l == 0 {
            if name.len() == 0 {
                return Err(ResolveError::MalformedQuery);
            }
            end = pos + 1;
            break;
        }
        if l > 63 {
            return Err(ResolveError::MalformedQuery);
        }
        let ll = l as usize;
        if ll > buf.len() - 1 - pos {
            return Err(ResolveError::MalformedQuery);
        }
        let ghost pre = name@;
        proof {
            assert(name@ =~= pre + buf@.subrange(pos as int + 1, pos as int + 1).map_values(
                |x: u8| lower_byte(x),
            ));
        }
        let mut j: usize = 0;
        while j < ll
            invariant
                j <= ll,
                pos + 1 + ll <= buf@.len(),
                buf@.len() <= usize::MAX,
                name@ == pre + buf@.subrange(pos as int + 1, pos as int + 1 + j as int).map_values(
                    |x: u8| lower_byte(x),
                ),
            decreases ll - j,
        {
            name.push(crate::query::lower_byte_exec(buf[pos + 1 + j]));
            proof {
                assert(buf@.subrange(pos as int + 1, pos as int + 1 + (j + 1)).drop_last()
                    =~= buf@.subrange(pos as int + 1, pos as int + 1 + j as int));
                assert(name@ =~= pre + buf@.subrange(
                    pos as int + 1,
                    pos as int + 1 + (j + 1),
                ).map_values(|x: u8| lower_byte(x)));
            }
            j = j + 1;
        }
        name.push(DOT);
        proof {
            assert(name@ =~= pre + buf@.subrange(pos as int + 1, pos as int + 1 + ll as int)
                .map_values(|x: u8| lower_byte(x)) + seq![DOT]);
        }
        pos = pos + 1 + ll;
    }
    if !crate::query::check_name(&name) {
        return Err(ResolveError::MalformedQuery);
    }
    if end > buf.len() || buf.len() - end < 4 {
        return Err(ResolveError::MalformedQuery);
    }
    let qtype = read_u16(buf, end);
    let qclass = read_u16(buf, end + 2);
    let txid = read_u16(buf, 0);
    Ok(Query { name, qtype, qclass, txid, client })
}

/// The wire form of one answer record: a compression pointer to the
/// question name, type, class, time-to-live, and the record data behind
/// its length.
pub open spec fn record_bytes(r: RecordModel, ttl: u32) -> Seq<u8> {
    seq![192u8, 12u8] + u16_be(r.rtype) + u16_be(r.rclass) + u32_be(ttl) + u16_be(
        r.data.len() as u16,
    ) + r.data
}

/// The wire form of a record sequence.
pub open spec fn records_bytes(rs: Seq<RecordModel>, ttl: u32) -> Seq<u8>
    decreases rs.len(),
{
    if rs.len() == 0 {
        Seq::empty()
    } else {
        records_bytes(rs.drop_last(), ttl) + record_bytes(rs.last(), ttl)
    }
}

/// The flag bytes of a response: QR set, opcode zero, the authority and
/// truncation bits as given, recursion bits clear, and the response code.
pub open spec fn flag_bytes(rcode: u16, authoritative: bool, tc: bool) -> Seq<u8> {
    seq![
        (128 + (if authoritative {
            4u8
        } else {
            0u8
        }) + (if tc {
            2u8
        } else {
            0u8
        })) as u8,
        (rcode % 16) as u8,
    ]
}

/// The wire form of the question section of a query whose name is in
/// canonical dotted form: each label behind its length byte, the root
/// label, then type and class.
pub open spec fn question_bytes(name: Seq<u8>, qtype: u16, qclass: u16) -> Seq<u8> {
    wire_name(name) + u16_be(qtype) + u16_be(qclass)
}

/// The label wire form of a canonical dotted name.
pub open spec fn wire_name(name: Seq<u8>) -> Seq<u8>
    decreases name.len(),
{
    if name.len() == 0 {
        seq![0u8]
    } else {
        let l = first_dot(name);
        if 0 <= l < name.len() {
            seq![l as u8] + name.take(l) + wire_name(name.skip(l + 1))
        } else {
            seq![name.len() as u8] + name + seq![0u8]
        }
    }
}

/// The index of the first dot of a name, or its length if it has none.
pub open spec fn first_dot(name: Seq<u8>) -> int {
    first_dot_from(name, 0)
}

/// The index of the first dot at or after `i`.
pub open spec fn first_dot_from(name: Seq<u8>, i: int) -> int
    decreases name.len() - i,
{
    if i < 0 || i >= name.len() {
        name.len() as int
    } else if name[i] == DOT {
        i
    } else {
        first_dot_from(name, i + 1)
    }
}

/// Append `src[a..b]` to `out`.
fn push_range(out: &mut Vec<u8>, src: &Vec<u8>, a: usize, b: usize)
    requires
        a <= b <= src@.len(),
    ensures
        final(out)@ == old(out)@ + src@.subrange(a as int, b as int),
{
    let n = src.len();
    let ghost pre = out@;
    let mut k: usize = a;
    proof {
        assert(out@ =~= pre + src@.subrange(a as int, a as int));
    }
    while k < b
        invariant
            a <= k <= b,
            b <= src@.len(),
            src@.len() <= usize::MAX,
            out@ == pre + src@.subrange(a as int, k as int),
        decreases b - k,
    {
        out.push(src[k]);
        proof {
            assert(out@ =~= pre + src@.subrange(a as int, k as int + 1));
        }
        k = k + 1;
    }
}

/// Encode a canonical dotted name into its label wire form.
pub fn encode_name(name: &Vec<u8>) -> (r: Vec<u8>)
    requires
        wf_name(name@),
    ensures
        r@ == wire_name(name@),
{
    let mut out: Vec<u8> = Vec::new();
    let mut pos: usize = 0;
    proof {
        assert(name@.skip(0) =~= name@);
        assert(out@ =~= Seq::<u8>::empty() + out@);
    }
    while pos < name.len()
        invariant
            pos <= name@.len(),
            name@.len() <= 254,
            name@[name@.len() - 1] == DOT,
            wire_name(name@) == out@ + wire_name(name@.skip(pos as int)),
        decreases name@.len() - pos,
    {
        let ghost s = name@.skip(pos as int);
        let mut d: usize = pos;
        while d < name.len() && name[d] != DOT
            invariant
                pos <= d <= name@.len(),
                name@.len() <= 254,
                s == name@.skip(pos as int),
                forall|j: int| pos <= j < d ==> name@[j] != DOT,
                first_dot_from(s, 0) == first_dot_from(s, d - pos),
            decreases name@.len() - d,
        {
            proof {
                assert(s[d - pos] == name@[d as int]);
            }
            d = d + 1;
        }
        assert(d < name@.len() && name@[d as int] == DOT) by {
            if d == name@.len() {
                assert(name@[name@.len() - 1] != DOT);
            }
        }
        proof {
            assert(s[d - pos] == name@[d as int]);
            assert(first_dot(s) == d - pos);
        }
        let label_len = d - pos;
        out.push(label_len as u8);
        push_range(&mut out, name, pos, d);
        proof {
            assert(s.take(d - pos) =~= name@.subrange(pos as int, d as int));
            assert(s.skip(d - pos + 1) =~= name@.skip(d as int + 1));
            assert(wire_name(s) == seq![(d - pos) as u8] + s.take(d - pos) + wire_name(
                s.skip(d - pos + 1),
            ));
            assert(wire_name(name@) =~= out@ + wire_name(name@.skip(d as int + 1)));
        }
        pos = d + 1;
    }
    out.push(0);
    proof {
        assert(name@.skip(pos as int) =~= Seq::<u8>::empty());
        assert(wire_name(name@) =~= out@);
    }
    out
}

/// The whole wire form of a response to `q`: header echoing the client's
/// transaction id and carrying the record count, the question section, and
/// the records under the remaining time-to-live.
pub open spec fn response_bytes(
    q: crate::query::QueryModel,
    a: AnswerModel,
    ttl: u32,
    tc: bool,
) -> Seq<u8> {
    u16_be(q.txid) + flag_bytes(a.rcode, a.authoritative, tc) + u16_be(1) + u16_be(
        a.records.len() as u16,
    ) + u16_be(0) + u16_be(0) + question_bytes(q.name, q.qtype, q.qclass) + records_bytes(
        a.records,
        ttl,
    )
}

/// Encode a whole response onto the wire: header with the client's
/// transaction id echoed, the question asked, and the answer's records
/// under the remaining time-to-live, with the truncation bit as given.
pub fn encode_response(query: &Query, answer: &Answer, ttl: u32, tc: bool) -> (r: Vec<u8>)
    requires
        query.wf(),
        answer@.records.len() <= 0xffff,
        forall|i: int|
            0 <= i < answer@.records.len() ==> (#[trigger] answer@.records[i]).data.len() <= 0xffff,
    ensures
        r@ == response_bytes(query@, answer@, ttl, tc),
{
    let mut out: Vec<u8> = Vec::new();
    proof {
        assert(out@ =~= Seq::<u8>::empty());
    }
    push_u16(&mut out, query.txid);
    let mut flags_hi: u8 = 128;
    if answer.authoritative {
        flags_hi = flags_hi + 4;
    }
    if tc {
        flags_hi = flags_hi + 2;
    }
    out.push(flags_hi);
    out.push((answer.rcode % 16) as u8);
    proof {
        assert(out@ =~= u16_be(query@.txid) + flag_bytes(
            answer@.rcode,
            answer@.authoritative,
            tc,
        ));
    }
    push_u16(&mut out, 1);
    push_u16(&mut out, answer.records.len() as u16);
    push_u16(&mut out, 0);
    push_u16(&mut out, 0);
    let encoded_name = encode_name(&query.name);
    let name_len = encoded_name.len();
    push_range(&mut out, &encoded_name, 0, name_len);
    proof {
        assert(encoded_name@.subrange(0, encoded_name@.len() as int) =~= encoded_name@);
    }
    push_u16(&mut out, query.qtype);
    push_u16(&mut out, query.qclass);
    let ghost head = out@;
    proof {
        assert(records_bytes(answer@.records.take(0), ttl) =~= Seq::<u8>::empty());
        assert(out@ =~= head + records_bytes(answer@.records.take(0), ttl));
    }
    let mut i: usize = 0;
    while i < answer.records.len()
        invariant
            i <= answer.records@.len(),
            answer@.records.len() == answer.records@.len(),
            forall|j: int|
                0 <= j < answer.records@.len() ==> #[trigger] answer@.records[j]
                    == answer.records@[j]@,
            forall|j: int|
                0 <= j < answer@.records.len() ==> (#[trigger] answer@.records[j]).data.len()
                    <= 0xffff,
            out@ == head + records_bytes(answer@.records.take(i as int), ttl),
        decreases answer.records@.len() - i,
    {
        let rec = &answer.records[i];
        let ghost prefix = out@;
        out.push(192);
        out.push(12);
        push_u16(&mut out, rec.rtype);
        push_u16(&mut out, rec.rclass);
        push_u32(&mut out, ttl);
        push_u16(&mut out, rec.data.len() as u16);
        let data_len = rec.data.len();
        push_range(&mut out, &rec.data, 0, data_len);
        proof {
            assert(rec.data@.subrange(0, rec.data@.len() as int) =~= rec.data@);
            assert(out@ =~= prefix + record_bytes(answer@.records[i as int], ttl));
            assert(answer@.records.take(i as int + 1).drop_last() =~= answer@.records.take(
                i as int,
            ));
            assert(answer@.records.take(i as int + 1).last() == answer@.records[i as int]);
            assert(out@ =~= head + records_bytes(answer@.records.take(i as int + 1), ttl));
        }
        i = i + 1;
    }
    proof {
        assert(answer@.records.take(answer@.records.len() as int) =~= answer@.records);
        assert(out@ =~= response_bytes(query@, answer@, ttl, tc));
    }
    out
}

/// How many leading records fit in `budget` wire bytes.
pub open spec fn kept_count(rs: Seq<RecordModel>, budget: int) -> nat
    decreases rs.len(),
{
    if rs.len() == 0 {
        0
    } else {
        let sz = 12 + rs[0].data.len();
        if sz <= budget {
            (1 + kept_count(rs.drop_first(), budget - sz)) as nat
        } else {
            0
        }
    }
}

/// The wire size of one encoded record.
pub proof fn lemma_record_size(r: RecordModel, ttl: u32)
    ensures
        record_bytes(r, ttl).len() == 12 + r.data.len(),
{
}

/// A name's label wire form is at most two bytes longer than the name.
pub proof fn lemma_wire_name_len(name: Seq<u8>)
    ensures
        wire_name(name).len() <= name.len() + 2,
    decreases name.len(),
{
    if name.len() > 0 {
        let l = first_dot(name);
        if 0 <= l < name.len() {
            lemma_wire_name_len(name.skip(l + 1));
        }
    }
}

/// Shrink an answer to fit a transport limit: keep the longest prefix of
/// records whose wire form, behind the fixed header and question, stays
/// within `limit` bytes; report whether anything was dropped so the caller
/// can set the truncation bit instead of failing.
pub fn truncate_answer(query: &Query, answer: &Answer, limit: usize) -> (r: (Answer, bool))
    requires
        query.wf(),
    ensures
        ({
            let budget = limit - (12 + wire_name(query@.name).len() + 4);
            let kept = kept_count(answer@.records, budget);
            &&& r.0@.records == answer@.records.take(kept as int)
            &&& r.0@.rcode == answer@.rcode
            &&& r.0@.authoritative == answer@.authoritative
            &&& r.1 == (kept < answer@.records.len())
        }),
{
    let encoded_name = encode_name(&query.name);
    proof {
        lemma_wire_name_len(query@.name);
    }
    let fixed = 12 + encoded_name.len() + 4;
    let ghost budget0 = limit - (12 + wire_name(query@.name).len() + 4);
    let mut kept: Vec<Record> = Vec::new();
    let mut used: usize = 0;
    let mut i: usize = 0;
    let ghost rs = answer@.records;
    proof {
        assert(rs.skip(0) =~= rs);
        assert(kept@.map_values(|x: Record| x@) =~= rs.take(0));
    }
    while i < answer.records.len()
        invariant
            i <= answer.records@.len(),
            rs == answer@.records,
            rs.len() == answer.records@.len(),
            forall|j: int| 0 <= j < rs.len() ==> #[trigger] rs[j] == answer.records@[j]@,
            fixed == 12 + wire_name(query@.name).len() + 4,
            budget0 == limit - fixed,
            fixed <= usize::MAX,
            used <= usize::MAX,
            kept_count(rs, budget0) == i + kept_count(rs.skip(i as int), budget0 - used),
            kept@.map_values(|x: Record| x@) == rs.take(i as int),
            kept@.len() == i,
        ensures
            kept_count(rs, budget0) == kept@.len(),
            kept@.map_values(|x: Record| x@) == rs.take(kept@.len() as int),
            kept@.len() <= rs.len(),
        decreases answer.records@.len() - i,
    {
        let rec = &answer.records[i];
        let data_len = rec.data.len();
        proof {
            assert(rs.skip(i as int)[0] == rs[i as int]);
            assert(rs.skip(i as int).drop_first() =~= rs.skip(i as int + 1));
            assert(rs[i as int].data.len() == data_len);
        }
        let total = (fixed as u128) + (used as u128) + 12 + (data_len as u128);
        if total > (limit as u128) {
            proof {
                assert(12 + rs.skip(i as int)[0].data.len() > budget0 - used);
                assert(kept_count(rs.skip(i as int), budget0 - used) == 0);
            }
            break;
        }
        proof {
            assert(12 + rs.skip(i as int)[0].data.len() <= budget0 - used);
            assert(kept_count(rs.skip(i as int), budget0 - used) == 1 + kept_count(
                rs.skip(i as int + 1),
                budget0 - used - (12 + data_len),
            ));
        }
        used = used + 12 + data_len;
        kept.push(rec.duplicate());
        proof {
            assert(kept@.map_values(|x: Record| x@) =~= rs.take(i as int + 1));
        }
        i = i + 1;
    }
    proof {
        if i == rs.len() {
            assert(rs.skip(i as int) =~= Seq::<RecordModel>::empty());
        }
    }
    let truncated = kept.len() < answer.records.len();
    (
        Answer { records: kept, rcode: answer.rcode, authoritative: answer.authoritative },
        truncated,
    )
}

/// The first dot of `s` seen from index `i + 1` is one step beyond the
/// first dot of `s` without its head seen from `i`.
proof fn lemma_first_dot_shift(s: Seq<u8>, i: int)
    requires
        0 <= i,
        s.len() > 0,
    ensures
        first_dot_from(s, i + 1) == 1 + first_dot_from(s.drop_first(), i),
    decreases s.len() - i,
{
    if 0 <= i < s.len() - 1 {
        assert(s.drop_first()[i] == s[i + 1]);
        if s[i + 1] != DOT {
            lemma_first_dot_shift(s, i + 1);
        }
    }
}

/// In a valid label walk, the first label is at most 63 bytes long and
/// what follows its dot is again a valid walk.
proof fn lemma_labels_ok_bounds(s: Seq<u8>, run: nat)
    requires
        labels_ok(s, run),
        first_dot_from(s, 0) < s.len(),
    ensures
        run + first_dot_from(s, 0) <= 63,
        0 <= first_dot_from(s, 0),
        labels_ok(s.skip(first_dot_from(s, 0) + 1), 0),
    decreases s.len(),
{
    if s[0] == DOT {
        assert(s.skip(1) =~= s.subrange(1, s.len() as int));
    } else {
        lemma_first_dot_shift(s, 0);
        assert(s.subrange(1, s.len() as int) == s.drop_first());
        lemma_labels_ok_bounds(s.drop_first(), run + 1);
        let l = first_dot_from(s, 0);
        assert(s.skip(l + 1) =~= s.drop_first().skip(l));
    }
}

/// Parsing a wire-encoded name embedded in a buffer recovers the name
/// behind whatever was accumulated so far, and stops right after it.
proof fn lemma_parse_wire(buf: Seq<u8>, off: int, name: Seq<u8>, acc: Seq<u8>)
    requires
        labels_ok(name, 0),
        name.len() > 0 ==> name[name.len() - 1] == DOT,
        forall|i: int| 0 <= i < name.len() ==> (allowed_byte(#[trigger] name[i]) || name[i] == DOT),
        0 <= off,
        off + wire_name(name).len() <= buf.len(),
        buf.subrange(off, off + wire_name(name).len()) == wire_name(name),
        acc.len() + name.len() > 0,
    ensures
        parse_labels(buf, off, acc) == Some((acc + name, off + wire_name(name).len())),
    decreases name.len(),
{
    if name.len() == 0 {
        assert(buf[off] == wire_name(name)[0]);
        assert(acc + name =~= acc);
    } else {
        let l = first_dot(name);
        assert(first_dot_from(name, 0) < name.len()) by {
            if first_dot_from(name, 0) >= name.len() {
                lemma_first_dot_no_dot(name, 0);
            }
        }
        lemma_labels_ok_bounds(name, 0);
        assert(name[0] != DOT);
        lemma_first_dot_ge(name, 1);
        assert(l == first_dot_from(name, 1));
        assert(1 <= l <= 63);
        let wire = wire_name(name);
        let rest = name.skip(l + 1);
        let wire_rest = wire_name(rest);
        assert(wire == seq![l as u8] + name.take(l) + wire_rest);
        assert(buf[off] == wire[0]);
        assert(wire[0] == l as u8);
        assert(off + 1 + l <= buf.len());
        assert(buf.subrange(off + 1, off + 1 + l) =~= name.take(l)) by {
            assert forall|i: int| 0 <= i < l implies buf[off + 1 + i] == name[i] by {
                assert(buf[off + 1 + i] == wire[1 + i]);
                assert(wire[1 + i] == name.take(l)[i]);
            }
        }
        assert(buf.subrange(off + 1, off + 1 + l).map_values(|x: u8| lower_byte(x)) =~= name.take(
            l,
        )) by {
            assert forall|i: int| 0 <= i < l implies lower_byte(name.take(l)[i]) == name.take(l)[i]
            by {
                assert(allowed_byte(name[i]) || name[i] == DOT);
                assert(first_dot_from(name, 0) <= i || name[i] != DOT) by {
                    lemma_first_dot_min(name, 0, i);
                }
            }
        }
        let acc2 = acc + name.take(l) + seq![DOT];
        assert(parse_labels(buf, off, acc) == parse_labels(buf, off + 1 + l, acc2));
        assert(buf.subrange(off + 1 + l, off + 1 + l + wire_rest.len()) =~= wire_rest) by {
            assert forall|i: int| 0 <= i < wire_rest.len() implies buf[off + 1 + l + i]
                == wire_rest[i] by {
                assert(buf[off + 1 + l + i] == wire[1 + l + i]);
                assert(wire[1 + l + i] == wire_rest[i]);
            }
        }
        assert(rest.len() > 0 ==> rest[rest.len() - 1] == DOT) by {
            if rest.len() > 0 {
                assert(rest[rest.len() - 1] == name[name.len() - 1]);
            }
        }
        lemma_parse_wire(buf, off + 1 + l, rest, acc2);
        assert(acc2 + rest =~= acc + name) by {
            assert(name[l] == DOT) by {
                lemma_first_dot_hits(name, 0);
            }
        }
    }
}

/// The first dot at or after `i` is not before `i`.
proof fn lemma_first_dot_ge(s: Seq<u8>, i: int)
    requires
        0 <= i <= s.len(),
    ensures
        first_dot_from(s, i) >= i,
    decreases s.len() - i,
{
    if i < s.len() && s[i] != DOT {
        lemma_first_dot_ge(s, i + 1);
    }
}

/// A fruitless dot search means no dot at or after `i`.
proof fn lemma_first_dot_no_dot(s: Seq<u8>, i: int)
    requires
        0 <= i,
        first_dot_from(s, i) >= s.len(),
    ensures
        forall|j: int| i <= j < s.len() ==> s[j] != DOT,
    decreases s.len() - i,
{
    if i < s.len() {
        lemma_first_dot_no_dot(s, i + 1);
    }
}

/// No dot sits before the first dot.
proof fn lemma_first_dot_min(s: Seq<u8>, i: int, j: int)
    requires
        0 <= i <= j,
        j < first_dot_from(s, i),
    ensures
        s[j] != DOT,
    decreases j - i,
{
    if i < j {
        lemma_first_dot_min(s, i + 1, j);
    }
}

/// The first dot found within range is indeed a dot.
proof fn lemma_first_dot_hits(s: Seq<u8>, i: int)
    requires
        0 <= i,
        first_dot_from(s, i) < s.len(),
    ensures
        s[first_dot_from(s, i)] == DOT,
    decreases s.len() - i,
{
    if i < s.len() && s[i] != DOT {
        lemma_first_dot_hits(s, i + 1);
    }
}

/// The name codec round-trips: the wire form of a well-formed canonical
/// name parses back to exactly that name, consuming exactly the wire form.
pub proof fn lemma_name_codec_round_trip(name: Seq<u8>)
    requires
        wf_name(name),
    ensures
        parse_labels(wire_name(name), 0, Seq::empty()) == Some(
            (name, wire_name(name).len() as int),
        ),
{
    let wire = wire_name(name);
    assert(wire.subrange(0, wire.len() as int) =~= wire);
    lemma_parse_wire(wire, 0, name, Seq::empty());
    assert(Seq::<u8>::empty() + name =~= name);
}

/// Frame a message for a stream transport: its length in two big-endian
/// bytes, then the message.
pub fn frame_stream_message(msg: &Vec<u8>) -> (r: Vec<u8>)
    requires
        msg@.len() <= 0xffff,
    ensures
        r@ == u16_be(msg@.len() as u16) + msg@,
{
    let mut out: Vec<u8> = Vec::new();
    proof {
        assert(out@ =~= Seq::<u8>::empty());
    }
    push_u16(&mut out, msg.len() as u16);
    let msg_len = msg.len();
    push_range(&mut out, msg, 0, msg_len);
    proof {
        assert(msg@.subrange(0, msg@.len() as int) =~= msg@);
        assert(out@ =~= u16_be(msg@.len() as u16) + msg@);
    }
    out
}

/// The length a stream frame announces.
pub fn frame_length(hi: u8, lo: u8) -> (r: u16)
    ensures
        r == u16_of(hi, lo),
{
    (hi as u16) * 256 + (lo as u16)
}

/// Framing round-trips: the two prefix bytes of a framed message spell its
/// length, and the rest is the message itself.
pub proof fn lemma_frame_round_trip(msg: Seq<u8>)
    requires
        msg.len() <= 0xffff,
    ensures
        ({
            let framed = u16_be(msg.len() as u16) + msg;
            &&& framed.len() == msg.len() + 2
            &&& u16_of(framed[0], framed[1]) == msg.len()
            &&& framed.skip(2) == msg
        }),
{
    let framed = u16_be(msg.len() as u16) + msg;
    assert(framed.skip(2) =~= msg);
}

} // verus!
