//! DNS messages as plain values.
//!
//! Messages are read and written by `hickory_proto`; what the server decides, it
//! decides on the values of this module.

use crate::addr::{Ipv4Addr, Ipv6Addr};
use crate::number;
use hickory_proto::op;
use hickory_proto::rr;
use hickory_proto::serialize::binary::{BinEncodable, BinEncoder, NameEncoding};
use vstd::prelude::*;
use vstd::slice::{slice_subrange, slice_to_vec};

verus! {

/// The response code of a successful answer.
pub const NO_ERROR: u16 = 0;

/// The response code for a request that cannot be read.
pub const FORM_ERR: u16 = 1;

/// The response code for a failure of the server.
pub const SERV_FAIL: u16 = 2;

/// The response code for a name that does not exist.
pub const NX_DOMAIN: u16 = 3;

/// The response code for a request that is not served.
pub const REFUSED: u16 = 5;

/// The operation code of a standard query.
pub const OP_QUERY: u8 = 0;

/// The internet class.
pub const CLASS_IN: u16 = 1;

/// The record type of an IPv4 address.
pub const TYPE_A: u16 = 1;

/// The record type of an alias.
pub const TYPE_CNAME: u16 = 5;

/// The record type of a pointer to a name.
pub const TYPE_PTR: u16 = 12;

/// The record type of a mail exchange.
pub const TYPE_MX: u16 = 15;

/// The record type of free text.
pub const TYPE_TXT: u16 = 16;

/// The record type of the place of a service.
pub const TYPE_SRV: u16 = 33;

/// The record type of an IPv6 address.
pub const TYPE_AAAA: u16 = 28;

/// The record type that carries EDNS.
pub const TYPE_OPT: u16 = 41;

/// A domain name: its labels, the most specific first.
#[derive(Debug)]
pub struct Name {
    pub labels: Vec<Vec<u8>>,
}

/// One entry of the question section.
#[derive(Debug)]
pub struct Question {
    pub name: Name,
    pub qtype: u16,
    pub qclass: u16,
}

/// A resource record. No name inside `rdata` is compressed.
#[derive(Debug)]
pub struct Record {
    pub name: Name,
    pub rtype: u16,
    pub class: u16,
    pub ttl: u32,
    pub rdata: Vec<u8>,
}

/// What the OPT record of a message says. `z` holds the flags but for DO, and
/// `options` the options as they stand on the wire.
#[derive(Debug)]
pub struct Edns {
    pub max_payload: u16,
    pub version: u8,
    pub dnssec_ok: bool,
    pub z: u16,
    pub options: Vec<u8>,
}

/// The fixed part of a message, without the counts. The response code is the
/// extended one.
#[derive(Clone, Copy, Debug, PartialEq, Eq, Structural)]
pub struct Metadata {
    pub id: u16,
    pub response: bool,
    pub op_code: u8,
    pub authoritative: bool,
    pub truncation: bool,
    pub recursion_desired: bool,
    pub recursion_available: bool,
    pub authentic_data: bool,
    pub checking_disabled: bool,
    pub response_code: u16,
}

/// A DNS message. The OPT record is `edns`, and not among the additional records.
#[derive(Debug)]
pub struct Message {
    pub metadata: Metadata,
    pub queries: Vec<Question>,
    pub answers: Vec<Record>,
    pub authorities: Vec<Record>,
    pub additionals: Vec<Record>,
    pub edns: Option<Edns>,
}

/// The model of a question.
#[verifier::ext_equal]
pub struct QuestionView {
    pub name: Seq<Seq<u8>>,
    pub qtype: u16,
    pub qclass: u16,
}

/// The model of a record.
#[verifier::ext_equal]
pub struct RecordView {
    pub name: Seq<Seq<u8>>,
    pub rtype: u16,
    pub class: u16,
    pub ttl: u32,
    pub rdata: Seq<u8>,
}

/// The model of an OPT record.
#[verifier::ext_equal]
pub struct EdnsView {
    pub max_payload: u16,
    pub version: u8,
    pub dnssec_ok: bool,
    pub z: u16,
    pub options: Seq<u8>,
}

/// The model of a message.
#[verifier::ext_equal]
pub struct MessageView {
    pub metadata: Metadata,
    pub queries: Seq<QuestionView>,
    pub answers: Seq<RecordView>,
    pub authorities: Seq<RecordView>,
    pub additionals: Seq<RecordView>,
    pub edns: Option<EdnsView>,
}

impl View for Name {
    type V = Seq<Seq<u8>>;

    open spec fn view(&self) -> Seq<Seq<u8>> {
        self.labels@.map_values(|l: Vec<u8>| l@)
    }
}

impl View for Question {
    type V = QuestionView;

    open spec fn view(&self) -> QuestionView {
        QuestionView { name: self.name@, qtype: self.qtype, qclass: self.qclass }
    }
}

impl View for Record {
    type V = RecordView;

    open spec fn view(&self) -> RecordView {
        RecordView {
            name: self.name@,
            rtype: self.rtype,
            class: self.class,
            ttl: self.ttl,
            rdata: self.rdata@,
        }
    }
}

impl View for Edns {
    type V = EdnsView;

    open spec fn view(&self) -> EdnsView {
        EdnsView {
            max_payload: self.max_payload,
            version: self.version,
            dnssec_ok: self.dnssec_ok,
            z: self.z,
            options: self.options@,
        }
    }
}

/// The models of records.
pub open spec fn records(v: Seq<Record>) -> Seq<RecordView> {
    v.map_values(|r: Record| r@)
}

/// The models of questions.
pub open spec fn questions(v: Seq<Question>) -> Seq<QuestionView> {
    v.map_values(|q: Question| q@)
}

/// The model of an OPT record that may be missing.
pub open spec fn edns_view(e: Option<Edns>) -> Option<EdnsView> {
    match e {
        Some(e) => Some(e@),
        None => None,
    }
}

impl View for Message {
    type V = MessageView;

    open spec fn view(&self) -> MessageView {
        MessageView {
            metadata: self.metadata,
            queries: questions(self.queries@),
            answers: records(self.answers@),
            authorities: records(self.authorities@),
            additionals: records(self.additionals@),
            edns: edns_view(self.edns),
        }
    }
}

impl Clone for Name {
    fn clone(&self) -> (r: Name)
        ensures
            r@ == self@,
    {
        let mut labels: Vec<Vec<u8>> = Vec::new();
        let mut i: usize = 0;
        while i < self.labels.len()
            invariant
                i <= self.labels@.len(),
                labels@.len() == i,
                forall|j: int| 0 <= j < i ==> (#[trigger] labels@[j])@ == self.labels@[j]@,
            decreases self.labels@.len() - i,
        {
            labels.push(slice_to_vec(self.labels[i].as_slice()));
            i += 1;
        }
        let r = Name { labels };
        assert(r@ =~= self@);
        r
    }
}

impl Clone for Question {
    fn clone(&self) -> (r: Question)
        ensures
            r@ == self@,
    {
        Question { name: self.name.clone(), qtype: self.qtype, qclass: self.qclass }
    }
}

impl Clone for Record {
    fn clone(&self) -> (r: Record)
        ensures
            r@ == self@,
    {
        Record {
            name: self.name.clone(),
            rtype: self.rtype,
            class: self.class,
            ttl: self.ttl,
            rdata: slice_to_vec(self.rdata.as_slice()),
        }
    }
}

impl Clone for Edns {
    fn clone(&self) -> (r: Edns)
        ensures
            r@ == self@,
    {
        Edns {
            max_payload: self.max_payload,
            version: self.version,
            dnssec_ok: self.dnssec_ok,
            z: self.z,
            options: slice_to_vec(self.options.as_slice()),
        }
    }
}

/// Copies records.
pub fn clone_records(v: &Vec<Record>) -> (r: Vec<Record>)
    ensures
        records(r@) == records(v@),
{
    let mut out: Vec<Record> = Vec::new();
    let mut i: usize = 0;
    while i < v.len()
        invariant
            i <= v@.len(),
            out@.len() == i,
            forall|j: int| 0 <= j < i ==> (#[trigger] out@[j])@ == v@[j]@,
        decreases v@.len() - i,
    {
        out.push(v[i].clone());
        i += 1;
    }
    assert(records(out@) =~= records(v@));
    out
}

/// Copies questions.
pub fn clone_questions(v: &Vec<Question>) -> (r: Vec<Question>)
    ensures
        questions(r@) == questions(v@),
{
    let mut out: Vec<Question> = Vec::new();
    let mut i: usize = 0;
    while i < v.len()
        invariant
            i <= v@.len(),
            out@.len() == i,
            forall|j: int| 0 <= j < i ==> (#[trigger] out@[j])@ == v@[j]@,
        decreases v@.len() - i,
    {
        out.push(v[i].clone());
        i += 1;
    }
    assert(questions(out@) =~= questions(v@));
    out
}

fn clone_edns(e: &Option<Edns>) -> (r: Option<Edns>)
    ensures
        edns_view(r) == edns_view(*e),
{
    match e {
        Some(e) => Some(e.clone()),
        None => None,
    }
}

impl Clone for Message {
    fn clone(&self) -> (r: Message)
        ensures
            r@ == self@,
    {
        Message {
            metadata: self.metadata,
            queries: clone_questions(&self.queries),
            answers: clone_records(&self.answers),
            authorities: clone_records(&self.authorities),
            additionals: clone_records(&self.additionals),
            edns: clone_edns(&self.edns),
        }
    }
}

/// The message that the given bytes hold, as `hickory_proto` decodes it.
pub uninterp spec fn decoded(bytes: Seq<u8>) -> Option<MessageView>;

/// `hickory_proto::op::Message::from_vec`: the fixed part and the OPT record of the
/// message that the bytes hold, or nothing if they hold no message. The response
/// code is the extended one, and the options are written by `OPT::emit`.
#[verifier::external_body]
fn read_head(bytes: &[u8]) -> (r: Option<(Metadata, Option<Edns>)>)
    ensures
        match r {
            Some((metadata, edns)) => decoded(bytes@) matches Some(m) && m.metadata == metadata
                && m.edns == edns_view(edns),
            None => decoded(bytes@) is None,
        },
{
    let m = op::Message::from_vec(bytes).ok()?;
    let response = m.message_type == op::MessageType::Response;
    let (op_code, response_code) = (u8::from(m.op_code), u16::from(m.response_code));
    let op::Metadata { id, authoritative, truncation, recursion_desired, recursion_available, authentic_data, checking_disabled, .. } = m.metadata;
    let edns = m.edns.map(|e| {
        let options = BinEncodable::to_bytes(e.options()).unwrap_or_default();
        let op::EdnsFlags { dnssec_ok, z } = *e.flags();
        Edns { max_payload: e.max_payload(), version: e.version(), dnssec_ok, z, options }
    });
    Some((Metadata { id, response, op_code, authoritative, truncation, recursion_desired, recursion_available, authentic_data, checking_disabled, response_code }, edns))
}

/// `hickory_proto::op::Message::from_vec`: the questions of the message that the
/// bytes hold, or nothing if they hold no message.
#[verifier::external_body]
fn read_questions(bytes: &[u8]) -> (r: Option<Vec<Question>>)
    ensures
        match r {
            Some(v) => decoded(bytes@) matches Some(m) && m.queries == questions(v@),
            None => decoded(bytes@) is None,
        },
{
    let m = op::Message::from_vec(bytes).ok()?;
    Some(m.queries.iter().map(|q| Question {
        name: Name { labels: q.name().iter().map(|l| l.to_vec()).collect() },
        qtype: u16::from(q.query_type()),
        qclass: u16::from(q.query_class()),
    }).collect())
}

/// `hickory_proto::op::Message::from_vec`: the answers, the authority records and
/// the additional records of the message that the bytes hold, or nothing if they
/// hold no message. `RData::emit` writes the data of a record, names in full.
#[verifier::external_body]
fn read_records(bytes: &[u8]) -> (r: Option<(Vec<Record>, Vec<Record>, Vec<Record>)>)
    ensures
        match r {
            Some((a, n, d)) => decoded(bytes@) matches Some(m) && m.answers == records(a@)
                && m.authorities == records(n@) && m.additionals == records(d@),
            None => decoded(bytes@) is None,
        },
{
    let m = op::Message::from_vec(bytes).ok()?;
    let all = |v: &Vec<rr::Record>| v.iter().map(|r| {
        let mut rdata = Vec::new();
        let mut encoder = BinEncoder::new(&mut rdata);
        encoder.set_name_encoding(NameEncoding::Uncompressed);
        let _ = r.data.emit(&mut encoder);
        let name = Name { labels: r.name.iter().map(|l| l.to_vec()).collect() };
        Record { name, rtype: u16::from(r.record_type()), class: u16::from(r.dns_class), ttl: r.ttl, rdata }
    }).collect();
    Some((all(&m.answers), all(&m.authorities), all(&m.additionals)))
}

/// Why the given bytes hold no message, as `hickory_proto` words it.
pub uninterp spec fn failure(bytes: Seq<u8>) -> Seq<char>;

/// `hickory_proto::op::Message::from_vec` and, on its error, the `core::fmt::Display` of
/// `hickory_proto::serialize::binary::DecodeError`: why the bytes hold no message, or
/// nothing if they hold one. How each reason is worded is not stated.
#[verifier::external_body]
fn read_failure(bytes: &[u8]) -> (r: Option<String>)
    ensures
        match r {
            Some(why) => decoded(bytes@) is None && why@ == failure(bytes@),
            None => decoded(bytes@) is Some,
        },
{
    op::Message::from_vec(bytes).err().map(|e| e.to_string())
}

/// What comes of reading bytes: the message that they hold, or why they hold none.
pub open spec fn reading(bytes: Seq<u8>) -> Result<MessageView, Seq<char>> {
    match decoded(bytes) {
        Some(m) => Ok(m),
        None => Err(failure(bytes)),
    }
}

impl Message {
    /// Decodes a message.
    pub fn from_vec(bytes: &[u8]) -> (r: Option<Message>)
        ensures
            match r {
                Some(m) => decoded(bytes@) == Some(m@),
                None => decoded(bytes@) is None,
            },
    {
        match (read_head(bytes), read_questions(bytes), read_records(bytes)) {
            (Some((metadata, edns)), Some(queries), Some((answers, authorities, additionals))) => {
                Some(Message { metadata, queries, answers, authorities, additionals, edns })
            },
            _ => None,
        }
    }

    /// Decodes a message, or tells why there is none.
    pub fn read(bytes: &[u8]) -> (r: Result<Message, String>)
        ensures
            match r {
                Ok(m) => reading(bytes@) == Ok::<MessageView, Seq<char>>(m@),
                Err(why) => reading(bytes@) == Err::<MessageView, Seq<char>>(why@),
            },
    {
        match Message::from_vec(bytes) {
            Some(m) => Ok(m),
            None => match read_failure(bytes) {
                Some(why) => Err(why),
                None => Err(String::new()),
            },
        }
    }
}

/// Two octets, the more significant first.
pub open spec fn be16(x: int) -> Seq<u8> {
    seq![(x / 256) as u8, (x % 256) as u8]
}

/// Four octets, the most significant first.
pub open spec fn be32(x: int) -> Seq<u8> {
    seq![
        (x / 0x100_0000) as u8,
        (x / 0x1_0000 % 256) as u8,
        (x / 256 % 256) as u8,
        (x % 256) as u8,
    ]
}

/// Labels on the wire: each after an octet that holds its length.
pub open spec fn labels_wire(labels: Seq<Seq<u8>>) -> Seq<u8>
    decreases labels.len(),
{
    if labels.len() == 0 {
        seq![]
    } else {
        labels_wire(labels.drop_last()).push(labels.last().len() as u8) + labels.last()
    }
}

/// A name on the wire: its labels and the empty label.
pub open spec fn name_wire(labels: Seq<Seq<u8>>) -> Seq<u8> {
    labels_wire(labels).push(0)
}

/// A question on the wire.
pub open spec fn question_wire(q: QuestionView) -> Seq<u8> {
    name_wire(q.name) + be16(q.qtype as int) + be16(q.qclass as int)
}

/// Questions on the wire.
pub open spec fn questions_wire(qs: Seq<QuestionView>) -> Seq<u8>
    decreases qs.len(),
{
    if qs.len() == 0 {
        seq![]
    } else {
        questions_wire(qs.drop_last()) + question_wire(qs.last())
    }
}

/// A record on the wire.
pub open spec fn record_wire(r: RecordView) -> Seq<u8> {
    name_wire(r.name) + be16(r.rtype as int) + be16(r.class as int) + be32(r.ttl as int) + be16(
        r.rdata.len() as int,
    ) + r.rdata
}

/// Records on the wire.
pub open spec fn records_wire(rs: Seq<RecordView>) -> Seq<u8>
    decreases rs.len(),
{
    if rs.len() == 0 {
        seq![]
    } else {
        records_wire(rs.drop_last()) + record_wire(rs.last())
    }
}

/// The OPT record on the wire. It carries the upper bits of the response code.
pub open spec fn edns_wire(e: Option<EdnsView>, response_code: u16) -> Seq<u8> {
    match e {
        None => seq![],
        Some(e) => seq![0u8] + be16(TYPE_OPT as int) + be16(e.max_payload as int) + seq![
            (response_code as int / 16) as u8,
            e.version,
        ] + be16(e.z + bit(e.dnssec_ok, 0x8000)) + be16(e.options.len() as int) + e.options,
    }
}

/// The weight `w` of a flag that is set.
#[verifier::opaque]
pub open spec fn bit(flag: bool, w: int) -> int {
    if flag {
        w
    } else {
        0
    }
}

/// The flags of a message, the operation code and the lower bits of the response
/// code on the wire.
pub open spec fn flags_wire(m: Metadata) -> Seq<u8> {
    be16(
        bit(m.response, 0x8000) + m.op_code * 0x800 + bit(m.authoritative, 0x400) + bit(
            m.truncation,
            0x200,
        ) + bit(m.recursion_desired, 0x100) + bit(m.recursion_available, 0x80) + bit(
            m.authentic_data,
            0x20,
        ) + bit(m.checking_disabled, 0x10) + m.response_code as int % 16,
    )
}

/// A message on the wire, without compression.
pub open spec fn plain_wire(m: MessageView) -> Seq<u8> {
    be16(m.metadata.id as int) + flags_wire(m.metadata) + be16(m.queries.len() as int) + be16(
        m.answers.len() as int,
    ) + be16(m.authorities.len() as int) + be16(
        m.additionals.len() + bit(m.edns is Some, 1),
    ) + questions_wire(m.queries) + records_wire(m.answers) + records_wire(m.authorities)
        + records_wire(m.additionals) + edns_wire(m.edns, m.metadata.response_code)
}

/// Whether the labels fit the wire format.
pub open spec fn name_fits(labels: Seq<Seq<u8>>) -> bool {
    forall|i: int| 0 <= i < labels.len() ==> 0 < (#[trigger] labels[i]).len() <= 63
}

/// Whether the names and lengths of records fit the wire format.
pub open spec fn records_fit(rs: Seq<RecordView>) -> bool {
    forall|i: int|
        0 <= i < rs.len() ==> name_fits((#[trigger] rs[i]).name) && rs[i].rdata.len() <= 0xffff
}

/// Whether the names of questions fit the wire format.
pub open spec fn questions_fit(qs: Seq<QuestionView>) -> bool {
    forall|i: int| 0 <= i < qs.len() ==> name_fits((#[trigger] qs[i]).name)
}

/// Whether every field of a message fits the wire format.
pub open spec fn fits(m: MessageView) -> bool {
    &&& m.metadata.op_code < 16
    &&& m.metadata.response_code < 0x1000
    &&& m.queries.len() <= 0xffff
    &&& m.answers.len() <= 0xffff
    &&& m.authorities.len() <= 0xffff
    &&& m.additionals.len() < 0xffff
    &&& questions_fit(m.queries)
    &&& records_fit(m.answers)
    &&& records_fit(m.authorities)
    &&& records_fit(m.additionals)
    &&& edns_fits(m.edns)
}

fn push_be16(out: &mut Vec<u8>, x: u16)
    ensures
        final(out)@ == old(out)@ + be16(x as int),
{
    out.push((x / 256) as u8);
    out.push((x % 256) as u8);
    assert(out@ =~= old(out)@ + be16(x as int));
}

fn push_be32(out: &mut Vec<u8>, x: u32)
    ensures
        final(out)@ == old(out)@ + be32(x as int),
{
    out.push((x / 0x100_0000) as u8);
    out.push((x / 0x1_0000 % 256) as u8);
    out.push((x / 256 % 256) as u8);
    out.push((x % 256) as u8);
    assert(out@ =~= old(out)@ + be32(x as int));
}

fn push_bytes(out: &mut Vec<u8>, b: &[u8])
    ensures
        final(out)@ == old(out)@ + b@,
{
    let mut i: usize = 0;
    assert(b@.take(0) =~= seq![]);
    while i < b.len()
        invariant
            i <= b@.len(),
            out@ =~= old(out)@ + b@.take(i as int),
        decreases b@.len() - i,
    {
        out.push(b[i]);
        i += 1;
    }
    assert(b@.take(i as int) =~= b@);
}

impl Name {
    /// Appends the name to a message; nothing is promised of what was appended if
    /// it does not fit, which the result tells.
    fn push_wire(&self, out: &mut Vec<u8>) -> (r: bool)
        ensures
            r == name_fits(self@),
            r ==> final(out)@ == old(out)@ + name_wire(self@),
    {
        let mut i: usize = 0;
        assert(self@.take(0) =~= seq![]);
        assert(out@ =~= old(out)@ + labels_wire(self@.take(0)));
        while i < self.labels.len()
            invariant
                i <= self.labels@.len(),
                out@ == old(out)@ + labels_wire(self@.take(i as int)),
                forall|j: int| 0 <= j < i ==> 0 < (#[trigger] self@[j]).len() <= 63,
            decreases self.labels@.len() - i,
        {
            let label = &self.labels[i];
            assert(self@[i as int] == label@);
            if label.len() == 0 || label.len() > 63 {
                return false;
            }
            out.push(label.len() as u8);
            push_bytes(out, label.as_slice());
            i += 1;
            proof {
                assert(self@.take(i as int).drop_last() =~= self@.take(i - 1));
                assert(out@ =~= old(out)@ + labels_wire(self@.take(i as int)));
            }
        }
        assert(self@.take(i as int) =~= self@);
        out.push(0);
        assert(out@ =~= old(out)@ + name_wire(self@));
        true
    }
}

fn push_questions(out: &mut Vec<u8>, qs: &Vec<Question>) -> (r: bool)
    ensures
        r == questions_fit(questions(qs@)),
        r ==> final(out)@ == old(out)@ + questions_wire(questions(qs@)),
{
    let ghost v = questions(qs@);
    let mut i: usize = 0;
    assert(v.take(0) =~= seq![]);
    assert(out@ =~= old(out)@ + questions_wire(v.take(0)));
    while i < qs.len()
        invariant
            i <= qs@.len(),
            v == questions(qs@),
            out@ == old(out)@ + questions_wire(v.take(i as int)),
            forall|j: int| 0 <= j < i ==> name_fits((#[trigger] v[j]).name),
        decreases qs@.len() - i,
    {
        assert(v[i as int] == qs@[i as int]@);
        if !qs[i].name.push_wire(out) {
            return false;
        }
        push_be16(out, qs[i].qtype);
        push_be16(out, qs[i].qclass);
        i += 1;
        proof {
            assert(v.take(i as int).drop_last() =~= v.take(i - 1));
            assert(out@ =~= old(out)@ + questions_wire(v.take(i as int)));
        }
    }
    assert(v.take(i as int) =~= v);
    true
}

fn push_records(out: &mut Vec<u8>, rs: &Vec<Record>) -> (r: bool)
    ensures
        r == records_fit(records(rs@)),
        r ==> final(out)@ == old(out)@ + records_wire(records(rs@)),
{
    let ghost v = records(rs@);
    let mut i: usize = 0;
    assert(v.take(0) =~= seq![]);
    assert(out@ =~= old(out)@ + records_wire(v.take(0)));
    while i < rs.len()
        invariant
            i <= rs@.len(),
            v == records(rs@),
            out@ == old(out)@ + records_wire(v.take(i as int)),
            forall|j: int|
                0 <= j < i ==> name_fits((#[trigger] v[j]).name) && v[j].rdata.len() <= 0xffff,
        decreases rs@.len() - i,
    {
        assert(v[i as int] == rs@[i as int]@);
        let rec = &rs[i];
        if rec.rdata.len() > 0xffff {
            return false;
        }
        if !rec.name.push_wire(out) {
            return false;
        }
        push_be16(out, rec.rtype);
        push_be16(out, rec.class);
        push_be32(out, rec.ttl);
        push_be16(out, rec.rdata.len() as u16);
        push_bytes(out, rec.rdata.as_slice());
        i += 1;
        proof {
            assert(v.take(i as int).drop_last() =~= v.take(i - 1));
            assert(out@ =~= old(out)@ + records_wire(v.take(i as int)));
        }
    }
    assert(v.take(i as int) =~= v);
    true
}

fn weight(flag: bool, w: u16) -> (r: u16)
    ensures
        r == bit(flag, w as int),
        r <= w,
{
    reveal(bit);
    if flag {
        w
    } else {
        0
    }
}

fn push_flags(out: &mut Vec<u8>, m: Metadata)
    requires
        m.op_code < 16,
    ensures
        final(out)@ == old(out)@ + flags_wire(m),
{
    let flags: u16 = weight(m.response, 0x8000) + m.op_code as u16 * 0x800 + weight(
        m.authoritative,
        0x400,
    ) + weight(m.truncation, 0x200) + weight(m.recursion_desired, 0x100) + weight(
        m.recursion_available,
        0x80,
    ) + weight(m.authentic_data, 0x20) + weight(m.checking_disabled, 0x10) + m.response_code % 16;
    push_be16(out, flags);
}

/// Whether the OPT record fits the wire format.
pub open spec fn edns_fits(e: Option<EdnsView>) -> bool {
    e matches Some(e) ==> e.z < 0x8000 && e.options.len() <= 0xffff
}

fn push_edns(out: &mut Vec<u8>, edns: &Option<Edns>, response_code: u16) -> (r: bool)
    requires
        response_code < 0x1000,
    ensures
        r == edns_fits(edns_view(*edns)),
        r ==> final(out)@ == old(out)@ + edns_wire(edns_view(*edns), response_code),
{
    match edns {
        None => {
            assert(out@ =~= old(out)@ + edns_wire(edns_view(*edns), response_code));
            true
        },
        Some(e) => {
            if e.z >= 0x8000 || e.options.len() > 0xffff {
                return false;
            }
            out.push(0);
            push_be16(out, TYPE_OPT);
            push_be16(out, e.max_payload);
            out.push((response_code / 16) as u8);
            out.push(e.version);
            push_be16(out, e.z + weight(e.dnssec_ok, 0x8000));
            push_be16(out, e.options.len() as u16);
            push_bytes(out, e.options.as_slice());
            assert(out@ =~= old(out)@ + edns_wire(edns_view(*edns), response_code));
            true
        },
    }
}

/// The bytes that `hickory_proto` writes for the message that it reads from the
/// given bytes.
pub uninterp spec fn compressed(plain: Seq<u8>) -> Option<Seq<u8>>;

/// `hickory_proto::op::Message::to_vec`, on the message that
/// `hickory_proto::op::Message::from_vec` reads from the given bytes: the message
/// with its names compressed, or nothing if the bytes hold no message or it cannot
/// be written. It takes at most 65535 octets: records past that are left out, and
/// the message is marked as truncated. The identifier stays where it is, in the
/// first two octets of the twelve that every message starts with. How names are
/// compressed is not stated.
#[verifier::external_body]
fn compress(plain: &[u8]) -> (r: Option<Vec<u8>>)
    ensures
        match r {
            Some(v) => compressed(plain@) == Some(v@) && 12 <= v@.len() <= 0xffff && v@.take(2)
                == plain@.take(2),
            None => compressed(plain@) is None,
        },
{
    op::Message::from_vec(plain).ok()?.to_vec().ok()
}

/// The bytes that stand for a message: none if a field does not fit.
pub open spec fn encoded(m: MessageView) -> Option<Seq<u8>> {
    if fits(m) {
        compressed(plain_wire(m))
    } else {
        None
    }
}

impl Message {
    /// Lays the message out on the wire, without compression. There is no result if
    /// a field does not fit.
    pub fn to_plain(&self) -> (r: Option<Vec<u8>>)
        ensures
            match r {
                Some(v) => fits(self@) && v@ == plain_wire(self@),
                None => !fits(self@),
            },
    {
        let m = self.metadata;
        if m.op_code >= 16 || m.response_code >= 0x1000 || self.queries.len() > 0xffff
            || self.answers.len() > 0xffff || self.authorities.len() > 0xffff
            || self.additionals.len() >= 0xffff {
            return None;
        }
        let mut out: Vec<u8> = Vec::new();
        push_be16(&mut out, m.id);
        push_flags(&mut out, m);
        push_be16(&mut out, self.queries.len() as u16);
        push_be16(&mut out, self.answers.len() as u16);
        push_be16(&mut out, self.authorities.len() as u16);
        push_be16(&mut out, self.additionals.len() as u16 + weight(self.edns.is_some(), 1));
        assert(out@ =~= be16(m.id as int) + flags_wire(m) + be16(self@.queries.len() as int) + be16(
            self@.answers.len() as int,
        ) + be16(self@.authorities.len() as int) + be16(
            self@.additionals.len() + bit(self@.edns is Some, 1),
        ));
        if !push_questions(&mut out, &self.queries) || !push_records(&mut out, &self.answers)
            || !push_records(&mut out, &self.authorities) || !push_records(
            &mut out,
            &self.additionals,
        ) || !push_edns(&mut out, &self.edns, m.response_code) {
            return None;
        }
        Some(out)
    }

    /// Encodes the message. Its identifier stands in the first two octets.
    pub fn to_vec(&self) -> (r: Option<Vec<u8>>)
        ensures
            match r {
                Some(v) => encoded(self@) == Some(v@),
                None => encoded(self@) is None,
            },
            r matches Some(v) ==> 12 <= v@.len() <= 0xffff && v@.take(2) == be16(
                self.metadata.id as int,
            ),
    {
        match self.to_plain() {
            Some(plain) => {
                assert(plain@.take(2) =~= be16(self.metadata.id as int));
                compress(plain.as_slice())
            },
            None => None,
        }
    }
}

/// Whether a byte of a label stands for itself in the text of a name.
pub open spec fn plain_byte(b: u8, first: bool) -> bool {
    ||| 'a' as u8 <= b <= 'z' as u8
    ||| 'A' as u8 <= b <= 'Z' as u8
    ||| '0' as u8 <= b <= '9' as u8
    ||| b == '_' as u8
    ||| b == '-' as u8 && !first
    ||| b == '*' as u8 && first
}

/// A byte of a label in the text of a name: itself, or after a backslash, or, if it
/// does not print, as a backslash and three octal digits.
pub open spec fn byte_text(b: u8, first: bool) -> Seq<char> {
    if plain_byte(b, first) {
        seq![b as char]
    } else if 0x20 < b < 0x7f {
        seq!['\\', b as char]
    } else {
        seq![
            '\\',
            number::digit_char(b as int / 64),
            number::digit_char(b as int / 8 % 8),
            number::digit_char(b as int % 8),
        ]
    }
}

/// A label in the text of a name.
pub open spec fn label_text(label: Seq<u8>) -> Seq<char>
    decreases label.len(),
{
    if label.len() == 0 {
        seq![]
    } else {
        label_text(label.drop_last()) + byte_text(label.last(), label.len() == 1)
    }
}

/// The text of a name: its labels, each followed by a dot, or a single dot.
pub open spec fn name_text(labels: Seq<Seq<u8>>) -> Seq<char> {
    if labels.len() == 0 {
        seq!['.']
    } else {
        dotted(labels)
    }
}

/// Labels, each followed by a dot.
pub open spec fn dotted(labels: Seq<Seq<u8>>) -> Seq<char>
    decreases labels.len(),
{
    if labels.len() == 0 {
        seq![]
    } else {
        dotted(labels.drop_last()) + label_text(labels.last()).push('.')
    }
}

fn push_byte_text(out: &mut String, b: u8, first: bool)
    ensures
        final(out)@ == old(out)@ + byte_text(b, first),
{
    let plain = (0x61 <= b && b <= 0x7a) || (0x41 <= b && b <= 0x5a) || (0x30 <= b && b <= 0x39)
        || b == 0x5f || (b == 0x2d && !first) || (b == 0x2a && first);
    assert(plain == plain_byte(b, first));
    if plain {
        out.push(b as char);
    } else if 0x20 < b && b < 0x7f {
        out.push('\\');
        out.push(b as char);
    } else {
        out.push('\\');
        out.push(number::char_of((b / 64) as u64));
        out.push(number::char_of((b / 8 % 8) as u64));
        out.push(number::char_of((b % 8) as u64));
    }
    assert(out@ =~= old(out)@ + byte_text(b, first));
}

fn push_label_text(out: &mut String, label: &[u8])
    ensures
        final(out)@ == old(out)@ + label_text(label@),
{
    let mut i: usize = 0;
    assert(label@.take(0) =~= seq![]);
    assert(out@ =~= old(out)@ + label_text(label@.take(0)));
    while i < label.len()
        invariant
            i <= label@.len(),
            out@ == old(out)@ + label_text(label@.take(i as int)),
        decreases label@.len() - i,
    {
        push_byte_text(out, label[i], i == 0);
        i += 1;
        proof {
            assert(label@.take(i as int).drop_last() =~= label@.take(i - 1));
            assert(out@ =~= old(out)@ + label_text(label@.take(i as int)));
        }
    }
    assert(label@.take(i as int) =~= label@);
}

/// Labels as they stand on the wire up to the empty label, which ends them with
/// nothing after it: none if the bytes are not that.
pub open spec fn wire_labels(s: Seq<u8>) -> Option<Seq<Seq<u8>>>
    decreases s.len(),
{
    if s.len() == 0 {
        None
    } else if s[0] == 0 {
        if s.len() == 1 {
            Some(seq![])
        } else {
            None
        }
    } else if s[0] > 63 || s[0] >= s.len() {
        None
    } else {
        match wire_labels(s.skip(s[0] + 1)) {
            Some(rest) => Some(seq![s.subrange(1, s[0] + 1)] + rest),
            None => None,
        }
    }
}

/// The name that the data of a record points to: for an alias and for a pointer
/// all of it, for a mail exchange what follows the preference.
pub open spec fn target(r: RecordView) -> Option<Seq<Seq<u8>>> {
    if r.rtype == TYPE_CNAME || r.rtype == TYPE_PTR {
        wire_labels(r.rdata)
    } else if r.rtype == TYPE_MX && r.rdata.len() >= 2 {
        wire_labels(r.rdata.skip(2))
    } else {
        None
    }
}

fn read_labels(s: &[u8], from: usize) -> (r: Option<Name>)
    requires
        from <= s@.len(),
    ensures
        match r {
            Some(n) => wire_labels(s@.skip(from as int)) == Some(n@),
            None => wire_labels(s@.skip(from as int)) is None,
        },
{
    let mut labels: Vec<Vec<u8>> = Vec::new();
    let mut i: usize = from;
    let ghost all = wire_labels(s@.skip(from as int));
    assert(labels@.map_values(|l: Vec<u8>| l@) =~= seq![]);
    loop
        invariant
            from <= i <= s@.len(),
            all == wire_labels(s@.skip(from as int)),
            all == (match wire_labels(s@.skip(i as int)) {
                Some(rest) => Some(labels@.map_values(|l: Vec<u8>| l@) + rest),
                None => None,
            }),
        decreases s@.len() - i,
    {
        let ghost rest = s@.skip(i as int);
        if i >= s.len() {
            return None;
        }
        let n: usize = s[i] as usize;
        assert(rest[0] == n);
        if n == 0 {
            if i + 1 == s.len() {
                let name = Name { labels };
                assert(wire_labels(rest) == Some(Seq::<Seq<u8>>::empty()));
                assert(name@ + Seq::<Seq<u8>>::empty() =~= name@);
                return Some(name);
            }
            return None;
        }
        if n > 63 || n >= s.len() - i {
            return None;
        }
        let label = slice_subrange(s, i + 1, i + 1 + n);
        let ghost before = labels@.map_values(|l: Vec<u8>| l@);
        labels.push(slice_to_vec(label));
        proof {
            assert(label@ =~= rest.subrange(1, n + 1));
            assert(rest.skip(n + 1) =~= s@.skip(i + 1 + n));
            assert(labels@.map_values(|l: Vec<u8>| l@) =~= before.push(label@));
            if wire_labels(rest.skip(n + 1)) is Some {
                let tail = wire_labels(rest.skip(n + 1))->0;
                assert(before + (seq![label@] + tail) =~= before.push(label@) + tail);
            }
        }
        i = i + 1 + n;
    }
}

impl Name {
    /// The text of the name.
    pub fn to_ascii(&self) -> (r: String)
        ensures
            r@ == name_text(self@),
    {
        let mut out = String::new();
        if self.labels.len() == 0 {
            out.push('.');
            assert(out@ =~= seq!['.']);
            return out;
        }
        let mut i: usize = 0;
        assert(self@.take(0) =~= seq![]);
        while i < self.labels.len()
            invariant
                i <= self.labels@.len(),
                out@ == dotted(self@.take(i as int)),
            decreases self.labels@.len() - i,
        {
            push_label_text(&mut out, self.labels[i].as_slice());
            out.push('.');
            i += 1;
            proof {
                assert(self@.take(i as int).drop_last() =~= self@.take(i - 1));
                assert(self@.take(i as int).last() == self.labels@[i - 1]@);
                assert(out@ =~= dotted(self@.take(i as int)));
            }
        }
        assert(self@.take(i as int) =~= self@);
        out
    }
}

/// The address that the data of an IPv4 address record holds.
pub open spec fn v4_of(r: RecordView) -> Option<Ipv4Addr> {
    if r.rtype == TYPE_A && r.rdata.len() == 4 {
        Some(
            Ipv4Addr {
                bits: (r.rdata[0] * 0x100_0000 + r.rdata[1] * 0x1_0000 + r.rdata[2] * 256
                    + r.rdata[3]) as u32,
            },
        )
    } else {
        None
    }
}

/// The number that bytes write, the most significant first.
pub open spec fn be_value(s: Seq<u8>) -> int
    decreases s.len(),
{
    if s.len() == 0 {
        0
    } else {
        be_value(s.drop_last()) * 256 + s.last()
    }
}

/// The address that the data of an IPv6 address record holds.
pub open spec fn v6_of(r: RecordView) -> Option<Ipv6Addr> {
    if r.rtype == TYPE_AAAA && r.rdata.len() == 16 {
        Some(Ipv6Addr { bits: be_value(r.rdata) as u128 })
    } else {
        None
    }
}

/// The upper bound of what `n` bytes write.
spec fn byte_power(n: nat) -> int
    decreases n,
{
    if n == 0 {
        1
    } else {
        256 * byte_power((n - 1) as nat)
    }
}

proof fn lemma_be_value(s: Seq<u8>)
    ensures
        0 <= be_value(s) < byte_power(s.len()),
    decreases s.len(),
{
    if s.len() > 0 {
        lemma_be_value(s.drop_last());
    }
}

impl Record {
    /// The name that the record points to, if it is an alias, a pointer or a mail
    /// exchange.
    pub fn target(&self) -> (r: Option<Name>)
        ensures
            match r {
                Some(n) => target(self@) == Some(n@),
                None => target(self@) is None,
            },
    {
        if self.rtype == TYPE_CNAME || self.rtype == TYPE_PTR {
            assert(self.rdata@.skip(0) =~= self.rdata@);
            read_labels(self.rdata.as_slice(), 0)
        } else if self.rtype == TYPE_MX && self.rdata.len() >= 2 {
            read_labels(self.rdata.as_slice(), 2)
        } else {
            None
        }
    }

    /// The IPv4 address that the record holds.
    pub fn v4(&self) -> (r: Option<Ipv4Addr>)
        ensures
            r == v4_of(self@),
    {
        if self.rtype == TYPE_A && self.rdata.len() == 4 {
            Some(Ipv4Addr::new(self.rdata[0], self.rdata[1], self.rdata[2], self.rdata[3]))
        } else {
            None
        }
    }

    /// The IPv6 address that the record holds.
    pub fn v6(&self) -> (r: Option<Ipv6Addr>)
        ensures
            r == v6_of(self@),
    {
        if self.rtype == TYPE_AAAA && self.rdata.len() == 16 {
            let mut bits: u128 = 0;
            let mut i: usize = 0;
            assert(self.rdata@.take(0) =~= seq![]);
            while i < 16
                invariant
                    i <= 16 == self.rdata@.len(),
                    bits == be_value(self.rdata@.take(i as int)),
                decreases 16 - i,
            {
                proof {
                    reveal_with_fuel(byte_power, 17);
                    lemma_be_value(self.rdata@.take(i as int));
                    lemma_be_value(self.rdata@.take(i + 1));
                    assert(self.rdata@.take(i + 1).drop_last() =~= self.rdata@.take(i as int));
                    lemma_byte_power(i as nat);
                }
                bits = bits * 256 + self.rdata[i] as u128;
                i += 1;
            }
            assert(self.rdata@.take(i as int) =~= self.rdata@);
            Some(Ipv6Addr { bits })
        } else {
            None
        }
    }
}

proof fn lemma_byte_power(n: nat)
    requires
        n < 16,
    ensures
        byte_power(n) * 256 <= 0x1_0000_0000_0000_0000_0000_0000_0000_0000,
    decreases 16 - n,
{
    reveal_with_fuel(byte_power, 17);
}

/// The name of a record type, as `hickory_proto` writes it.
pub uninterp spec fn type_label(rtype: u16) -> Seq<char>;

/// `hickory_proto::rr::RecordType`, from its number and then as
/// `core::fmt::Display` writes it: the mnemonic of the type. Which mnemonic each
/// number has is not stated.
#[verifier::external_body]
fn mnemonic(rtype: u16) -> (r: String)
    ensures
        r@ == type_label(rtype),
{
    rr::RecordType::from(rtype).to_string()
}

/// The mnemonic of a record type.
pub fn type_text(rtype: u16) -> (r: String)
    ensures
        r@ == type_label(rtype),
{
    mnemonic(rtype)
}

/// The fixed part of a message that is new.
pub open spec fn fresh(id: u16, response: bool, op_code: u8) -> Metadata {
    Metadata {
        id,
        response,
        op_code,
        authoritative: false,
        truncation: false,
        recursion_desired: false,
        recursion_available: false,
        authentic_data: false,
        checking_disabled: false,
        response_code: NO_ERROR,
    }
}

/// A message without questions and records.
pub open spec fn bare(metadata: Metadata) -> MessageView {
    MessageView {
        metadata,
        queries: seq![],
        answers: seq![],
        authorities: seq![],
        additionals: seq![],
        edns: None,
    }
}

impl Message {
    /// A message that asks or answers nothing yet.
    pub fn new(id: u16, response: bool, op_code: u8) -> (r: Message)
        ensures
            r@ == bare(fresh(id, response, op_code)),
    {
        let r = Message {
            metadata: Metadata {
                id,
                response,
                op_code,
                authoritative: false,
                truncation: false,
                recursion_desired: false,
                recursion_available: false,
                authentic_data: false,
                checking_disabled: false,
                response_code: NO_ERROR,
            },
            queries: Vec::new(),
            answers: Vec::new(),
            authorities: Vec::new(),
            additionals: Vec::new(),
            edns: None,
        };
        assert(r@ =~= bare(fresh(id, response, op_code)));
        r
    }

    /// The largest UDP answer that the sender of the message can take.
    pub open spec fn payload(m: MessageView) -> u16 {
        match m.edns {
            Some(e) => if e.max_payload < 512 {
                512
            } else {
                e.max_payload
            },
            None => 512,
        }
    }

    /// The largest UDP answer that the sender of the message can take: what its OPT
    /// record says, and never less than 512.
    pub fn max_payload(&self) -> (r: u16)
        ensures
            r == Message::payload(self@),
    {
        match &self.edns {
            Some(e) => if e.max_payload < 512 {
                512
            } else {
                e.max_payload
            },
            None => 512,
        }
    }

    /// What is left of a message that does not fit: its fixed part with the mark of
    /// truncation, its questions and its OPT record.
    pub open spec fn truncated(m: MessageView) -> MessageView {
        MessageView {
            metadata: Metadata { truncation: true, ..m.metadata },
            answers: seq![],
            authorities: seq![],
            additionals: seq![],
            ..m
        }
    }

    /// Drops the records, and marks the message as truncated.
    pub fn truncate(&self) -> (r: Message)
        ensures
            r@ == Message::truncated(self@),
    {
        let mut r = Message::new(0, false, 0);
        r.metadata = self.metadata;
        r.metadata.truncation = true;
        r.queries = clone_questions(&self.queries);
        r.edns = clone_edns(&self.edns);
        assert(r@ =~= Message::truncated(self@));
        r
    }
}

} // verus!
