//! Resource records, answers, and synthesized responses.

use crate::query::QueryModel;
use vstd::prelude::*;

verus! {

/// Response code: no error.
pub const RCODE_NOERROR: u16 = 0;

/// Response code: malformed query.
pub const RCODE_FORMERR: u16 = 1;

/// Response code: server failure.
pub const RCODE_SERVFAIL: u16 = 2;

/// Response code: no such domain.
pub const RCODE_NXDOMAIN: u16 = 3;

/// Response code: query refused.
pub const RCODE_REFUSED: u16 = 5;

/// One resource record: type, class and opaque record data.
pub struct Record {
    pub rtype: u16,
    pub rclass: u16,
    pub data: Vec<u8>,
}

/// Mathematical image of a `Record`.
pub struct RecordModel {
    pub rtype: u16,
    pub rclass: u16,
    pub data: Seq<u8>,
}

impl View for Record {
    type V = RecordModel;

    open spec fn view(&self) -> RecordModel {
        RecordModel { rtype: self.rtype, rclass: self.rclass, data: self.data@ }
    }
}

/// A resolved answer: ordered records, response code, authority flag.
///
/// Remaining time-to-live is tracked by the cache, not inside the answer;
/// callers receive it alongside the answer on a cache hit.
pub struct Answer {
    pub records: Vec<Record>,
    pub rcode: u16,
    pub authoritative: bool,
}

/// Mathematical image of an `Answer`.
pub struct AnswerModel {
    pub records: Seq<RecordModel>,
    pub rcode: u16,
    pub authoritative: bool,
}

impl View for Answer {
    type V = AnswerModel;

    open spec fn view(&self) -> AnswerModel {
        AnswerModel {
            records: self.records@.map_values(|r: Record| r@),
            rcode: self.rcode,
            authoritative: self.authoritative,
        }
    }
}

impl Record {
    /// Copy a record.
    pub fn duplicate(&self) -> (r: Record)
        ensures
            r@ == self@,
    {
        Record {
            rtype: self.rtype,
            rclass: self.rclass,
            data: crate::query::copy_bytes(&self.data),
        }
    }
}

impl Answer {
    /// Copy an answer; the copy has the same records, code and flag.
    pub fn duplicate(&self) -> (r: Answer)
        ensures
            r@ == self@,
    {
        let mut records: Vec<Record> = Vec::new();
        let mut i: usize = 0;
        while i < self.records.len()
            invariant
                i <= self.records.len(),
                records@.len() == i,
                forall|j: int| 0 <= j < i ==> #[trigger] records@[j]@ == self.records@[j]@,
            decreases self.records.len() - i,
        {
            records.push(self.records[i].duplicate());
            i = i + 1;
        }
        proof {
            assert(records@.map_values(|r: Record| r@) =~= self.records@.map_values(
                |r: Record| r@,
            ));
        }
        Answer { records, rcode: self.rcode, authoritative: self.authoritative }
    }
}

/// The deterministic response synthesized for a blocked query: the
/// configured sinkhole record under NOERROR when one is set, NXDOMAIN with
/// no records otherwise. It never depends on anything but the query's type
/// and class and the sinkhole setting.
pub open spec fn blocked_answer_model(q: QueryModel, sinkhole: Option<Seq<u8>>) -> AnswerModel {
    match sinkhole {
        Some(addr) => AnswerModel {
            records: seq![RecordModel { rtype: q.qtype, rclass: q.qclass, data: addr }],
            rcode: RCODE_NOERROR,
            authoritative: false,
        },
        None => AnswerModel { records: Seq::empty(), rcode: RCODE_NXDOMAIN, authoritative: false },
    }
}

/// Synthesize the blocked response for a query.
pub fn make_blocked_answer(q: &crate::query::Query, sinkhole: &Option<Vec<u8>>) -> (r: Answer)
    ensures
        r@ == blocked_answer_model(
            q@,
            match sinkhole {
                Some(v) => Some(v@),
                None => None,
            },
        ),
{
    match sinkhole {
        Some(addr) => {
            let mut records: Vec<Record> = Vec::new();
            records.push(
                Record {
                    rtype: q.qtype,
                    rclass: q.qclass,
                    data: crate::query::copy_bytes(addr),
                },
            );
            let r = Answer { records, rcode: RCODE_NOERROR, authoritative: false };
            proof {
                assert(r@.records =~= blocked_answer_model(q@, Some(addr@)).records);
            }
            r
        },
        None => {
            let r = Answer { records: Vec::new(), rcode: RCODE_NXDOMAIN, authoritative: false };
            proof {
                assert(r@.records =~= Seq::<RecordModel>::empty());
            }
            r
        },
    }
}

} // verus!
