//! What is put on the wire: the answers to clients, and the requests to upstreams.

use crate::addr::{IpAddr, Ipv4Addr, Ipv6Addr};
use crate::db;
use crate::db::QueryStatus;
use crate::dns::cache;
use crate::dns::cache::{AnswerView, CachedAnswer};
use crate::dns::message;
use crate::dns::message::{EdnsView, Message, MessageView, Metadata, Name, QuestionView, Record, RecordView};
use crate::dns::message::{CLASS_IN, NO_ERROR, NX_DOMAIN, OP_QUERY, REFUSED};
use crate::dns::message::{TYPE_A, TYPE_AAAA, TYPE_TXT};
use crate::number;
use crate::text;
use crate::text::Class;
use vstd::prelude::*;
use vstd::slice::{slice_subrange, slice_to_vec};

verus! {

/// The TTL of an answer for a blocked name. Short, so that unblocking takes effect
/// soon, but not zero, so that we are not asked over and over.
pub const BLOCK_TTL: u32 = 60;

/// The envelope of an answer. It echoes the identifier, the RD and CD bits and the
/// questions of the request, and carries an OPT record if the request does.
pub open spec fn envelope(request: MessageView, our_max_payload: u16) -> MessageView {
    MessageView {
        metadata: Metadata {
            recursion_desired: request.metadata.recursion_desired,
            recursion_available: true,
            checking_disabled: request.metadata.checking_disabled,
            ..message::fresh(request.metadata.id, true, OP_QUERY)
        },
        queries: request.queries,
        answers: seq![],
        authorities: seq![],
        additionals: seq![],
        edns: cache::edns_reply(request.edns, our_max_payload),
    }
}

/// Starts the answer to a request.
pub fn base_response(request: &Message, our_max_payload: u16) -> (r: Message)
    ensures
        r@ == envelope(request@, our_max_payload),
{
    let mut resp = Message::new(request.metadata.id, true, OP_QUERY);
    resp.metadata.recursion_desired = request.metadata.recursion_desired;
    resp.metadata.recursion_available = true;
    resp.metadata.checking_disabled = request.metadata.checking_disabled;
    resp.queries = message::clone_questions(&request.queries);
    resp.edns = cache::response_edns(request, our_max_payload);
    assert(resp@ =~= envelope(request@, our_max_payload));
    resp
}

/// A message with another response code.
pub open spec fn with_code(m: MessageView, code: u16) -> MessageView {
    MessageView { metadata: Metadata { response_code: code, ..m.metadata }, ..m }
}

/// Answers a request with a response code and no records.
pub fn error_response(request: &Message, code: u16, our_max_payload: u16) -> (r: Message)
    ensures
        r@ == with_code(envelope(request@, our_max_payload), code),
{
    let mut resp = base_response(request, our_max_payload);
    resp.metadata.response_code = code;
    assert(resp@ =~= with_code(envelope(request@, our_max_payload), code));
    resp
}

/// The null address in a record, for the types that carry an address.
pub open spec fn null_record(name: Seq<Seq<u8>>, qtype: u16) -> Seq<RecordView> {
    if qtype == TYPE_A {
        seq![
            RecordView {
                name,
                rtype: TYPE_A,
                class: CLASS_IN,
                ttl: BLOCK_TTL,
                rdata: Seq::new(4, |i: int| 0u8),
            },
        ]
    } else if qtype == TYPE_AAAA {
        seq![
            RecordView {
                name,
                rtype: TYPE_AAAA,
                class: CLASS_IN,
                ttl: BLOCK_TTL,
                rdata: Seq::new(16, |i: int| 0u8),
            },
        ]
    } else {
        seq![]
    }
}

/// The answer for a blocked name: either the name does not exist, or it has the null
/// address and nothing else.
pub open spec fn sinkholed(
    request: MessageView,
    qtype: u16,
    nxdomain: bool,
    our_max_payload: u16,
) -> MessageView {
    let base = envelope(request, our_max_payload);
    if nxdomain {
        with_code(base, NX_DOMAIN)
    } else if request.queries.len() == 0 {
        base
    } else {
        MessageView { answers: null_record(request.queries[0].name, qtype), ..base }
    }
}

fn zeros(n: usize) -> (r: Vec<u8>)
    ensures
        r@ == Seq::new(n as nat, |i: int| 0u8),
{
    let mut out: Vec<u8> = Vec::new();
    let mut i: usize = 0;
    while i < n
        invariant
            i <= n,
            out@ == Seq::new(i as nat, |i: int| 0u8),
        decreases n - i,
    {
        out.push(0);
        i += 1;
        assert(out@ =~= Seq::new(i as nat, |i: int| 0u8));
    }
    out
}

/// Answers a request for a blocked name.
pub fn sinkhole(request: &Message, qtype: u16, nxdomain: bool, our_max_payload: u16) -> (r:
    Message)
    ensures
        r@ == sinkholed(request@, qtype, nxdomain, our_max_payload),
        request@.queries.len() > 0 ==> super::laws::says_blocked(r@, request@, qtype, nxdomain),
{
    let mut resp = base_response(request, our_max_payload);
    if nxdomain {
        resp.metadata.response_code = NX_DOMAIN;
        assert(resp@ =~= sinkholed(request@, qtype, nxdomain, our_max_payload));
        return resp;
    }
    if request.queries.len() > 0 {
        assert(request@.queries[0] == request.queries@[0]@);
        if qtype == TYPE_A || qtype == TYPE_AAAA {
            let size: usize = if qtype == TYPE_A {
                4
            } else {
                16
            };
            resp.answers.push(
                Record {
                    name: request.queries[0].name.clone(),
                    rtype: qtype,
                    class: CLASS_IN,
                    ttl: BLOCK_TTL,
                    rdata: zeros(size),
                },
            );
        }
    }
    assert(resp@.answers =~= sinkholed(request@, qtype, nxdomain, our_max_payload).answers);
    assert(resp@ =~= sinkholed(request@, qtype, nxdomain, our_max_payload));
    resp
}

/// An answer that was kept, in the envelope of this request.
pub open spec fn from_cache(request: MessageView, hit: AnswerView, our_max_payload: u16) -> MessageView {
    let base = envelope(request, our_max_payload);
    MessageView {
        metadata: Metadata {
            response_code: hit.response_code,
            authoritative: hit.authoritative,
            ..base.metadata
        },
        answers: hit.answers,
        authorities: hit.authorities,
        additionals: hit.additionals,
        ..base
    }
}

/// Puts an answer that was kept into the envelope of this request.
pub fn cached_response(request: &Message, hit: CachedAnswer, our_max_payload: u16) -> (r: Message)
    ensures
        r@ == from_cache(request@, hit@, our_max_payload),
        r@.metadata.id == request@.metadata.id,
        r@.metadata.response_code == hit.response_code,
        r@.metadata.authoritative == hit.authoritative,
        r@.queries == request@.queries,
        r@.answers == message::records(hit.answers@),
        r@.authorities == message::records(hit.authorities@),
        r@.additionals == message::records(hit.additionals@),
{
    let ghost h = hit@;
    let mut resp = base_response(request, our_max_payload);
    resp.metadata.response_code = hit.response_code;
    resp.metadata.authoritative = hit.authoritative;
    resp.answers = hit.answers;
    resp.authorities = hit.authorities;
    resp.additionals = hit.additionals;
    assert(resp@ =~= from_cache(request@, h, our_max_payload));
    resp
}

/// A record in short: the address, the name that it points to, or its type.
pub open spec fn record_text(r: RecordView) -> Seq<char> {
    if message::v4_of(r) is Some {
        message::v4_of(r)->0.text()
    } else if message::v6_of(r) is Some {
        message::v6_of(r)->0.text()
    } else if message::target(r) is Some {
        message::name_text(message::target(r)->0)
    } else if r.rtype == TYPE_TXT {
        "TXT"@
    } else {
        message::type_label(r.rtype)
    }
}

fn shortened(r: &Record) -> (t: String)
    ensures
        t@ == record_text(r@),
{
    if let Some(a) = r.v4() {
        return a.to_text();
    }
    if let Some(a) = r.v6() {
        return IpAddr::V6(a).to_text();
    }
    if let Some(n) = r.target() {
        return n.to_ascii();
    }
    if r.rtype == TYPE_TXT {
        "TXT".to_string()
    } else {
        message::type_text(r.rtype)
    }
}

/// How many records of an answer are shown.
pub const SHOWN: usize = 4;

/// The parts of an answer in short: its first records, and how many more there are.
pub open spec fn summary_parts(rs: Seq<RecordView>) -> Seq<Seq<char>> {
    if rs.len() > SHOWN {
        rs.take(SHOWN as int).map_values(|r: RecordView| record_text(r)).push(
            seq!['+'] + number::decimal(rs.len() - SHOWN),
        )
    } else {
        rs.map_values(|r: RecordView| record_text(r))
    }
}

/// An answer in short.
pub open spec fn summary(rs: Seq<RecordView>) -> Option<Seq<char>> {
    if rs.len() == 0 {
        None
    } else {
        Some(text::join(summary_parts(rs), ", "@))
    }
}

/// Condenses the answers of a message into something readable.
pub fn summarize_answers(msg: &Message) -> (r: Option<String>)
    ensures
        db::opt(r) == summary(msg@.answers),
{
    let n: usize = msg.answers.len();
    if n == 0 {
        return None;
    }
    let ghost rs = msg@.answers;
    let shown: usize = if n > SHOWN {
        SHOWN
    } else {
        n
    };
    let mut parts: Vec<String> = Vec::new();
    let mut i: usize = 0;
    while i < shown
        invariant
            i <= shown <= msg.answers@.len(),
            rs == message::records(msg.answers@),
            parts@.len() == i,
            forall|j: int| 0 <= j < i ==> (#[trigger] parts@[j])@ == record_text(rs[j]),
        decreases shown - i,
    {
        assert(rs[i as int] == msg.answers@[i as int]@);
        parts.push(shortened(&msg.answers[i]));
        i += 1;
    }
    if n > SHOWN {
        let mut more = String::new();
        more.push('+');
        number::push_number(&mut more, (n - SHOWN) as u64, 10);
        assert(more@ =~= seq!['+'] + number::decimal(rs.len() - SHOWN));
        parts.push(more);
    }
    assert(text::strings(parts@) =~= summary_parts(rs));
    Some(text::joined(&parts, ", "))
}

/// The status of a query that an upstream answered.
pub open spec fn status_of(code: u16) -> QueryStatus {
    if code == NO_ERROR {
        QueryStatus::Forwarded
    } else if code == NX_DOMAIN {
        QueryStatus::NxDomain
    } else if code == REFUSED {
        QueryStatus::Refused
    } else {
        QueryStatus::ServFail
    }
}

/// The status of a query that an upstream answered with a response code.
pub fn status_for(code: u16) -> (r: QueryStatus)
    ensures
        r == status_of(code),
{
    if code == NO_ERROR {
        QueryStatus::Forwarded
    } else if code == NX_DOMAIN {
        QueryStatus::NxDomain
    } else if code == REFUSED {
        QueryStatus::Refused
    } else {
        QueryStatus::ServFail
    }
}

/// `a`, or 512 if it is less.
pub open spec fn at_least_512(a: u16) -> u16 {
    if a < 512 {
        512
    } else {
        a
    }
}

/// What is sent upstream for a request: its own bytes, or, if it asks for larger
/// answers than we take, the message with our limit in place of the client's.
pub open spec fn clamped(bytes: Seq<u8>, request: MessageView, limit: u16) -> Seq<u8> {
    match request.edns {
        Some(e) => if e.max_payload > limit {
            let m = MessageView {
                edns: Some(limited(e, limit)),
                ..request
            };
            match message::encoded(m) {
                Some(v) => v,
                None => bytes,
            }
        } else {
            bytes
        },
        None => bytes,
    }
}

/// An OPT record with our limit in place of the client's.
pub open spec fn limited(e: EdnsView, limit: u16) -> EdnsView {
    EdnsView { max_payload: at_least_512(limit), ..e }
}

/// Bounds the size of the answers that a request asks an upstream for. The bytes are
/// left as they are where nothing needs to change.
pub fn clamp_upstream_payload(request: &[u8], parsed: &Message, limit: u16) -> (r: Vec<u8>)
    ensures
        r@ == clamped(request@, parsed@, limit),
        super::laws::is_sent_for(r@, request@, parsed@, limit),
{
    proof {
        super::laws::only_the_size_of_a_request_is_limited(request@, parsed@, limit);
    }
    match &parsed.edns {
        Some(e) => {
            if e.max_payload <= limit {
                return slice_to_vec(request);
            }
            let mut m = parsed.clone();
            let mut opt = e.clone();
            opt.max_payload = if limit < 512 {
                512
            } else {
                limit
            };
            m.edns = Some(opt);
            assert(m@ =~= (MessageView {
                edns: Some(limited(e@, limit)),
                ..parsed@
            }));
            match m.to_vec() {
                Some(v) => v,
                None => slice_to_vec(request),
            }
        },
        None => slice_to_vec(request),
    }
}

/// Whether two questions are the same, whatever the case of their names.
pub open spec fn same_question(a: QuestionView, b: QuestionView) -> bool {
    &&& a.qtype == b.qtype
    &&& a.qclass == b.qclass
    &&& text::lower(message::name_text(a.name)) == text::lower(message::name_text(b.name))
}

/// Whether a message answers a request: it has its identifier and its question.
pub open spec fn answers(request: MessageView, reply: MessageView) -> bool {
    &&& reply.metadata.id == request.metadata.id
    &&& request.queries.len() > 0
    &&& reply.queries.len() > 0
    &&& same_question(request.queries[0], reply.queries[0])
}

fn same_name(a: &Name, b: &Name) -> (r: bool)
    ensures
        r == (text::lower(message::name_text(a@)) == text::lower(message::name_text(b@))),
{
    let s = text::lowered(text::chars_of(a.to_ascii().as_str()).as_slice());
    let t = text::lowered(text::chars_of(b.to_ascii().as_str()).as_slice());
    text::same(s.as_slice(), t.as_slice())
}

/// Tells whether a message answers a request, rather than merely sharing its
/// identifier.
pub fn answers_request(req: &Message, resp: &Message) -> (r: bool)
    ensures
        r == answers(req@, resp@),
{
    if resp.metadata.id != req.metadata.id {
        return false;
    }
    if req.queries.len() == 0 || resp.queries.len() == 0 {
        return false;
    }
    assert(req@.queries[0] == req.queries@[0]@);
    assert(resp@.queries[0] == resp.queries@[0]@);
    let q = &req.queries[0];
    let a = &resp.queries[0];
    q.qtype == a.qtype && q.qclass == a.qclass && same_name(&q.name, &a.name)
}

/// The largest UDP answer to a request: what the client takes, but no more than we
/// put on the wire, and never less than 512.
pub open spec fn udp_limit(request: MessageView, our_max_payload: u16) -> u16 {
    let client = Message::payload(request);
    at_least_512(
        if client < our_max_payload {
            client
        } else {
            our_max_payload
        },
    )
}

/// What is sent over UDP in place of an answer that does not fit: a stub that is
/// marked as truncated, so that the client asks again over TCP.
pub open spec fn fitted(
    request: Option<MessageView>,
    response: Seq<u8>,
    parsed: Option<MessageView>,
    our_max_payload: u16,
) -> Option<Seq<u8>> {
    match request {
        None => None,
        Some(req) => if response.len() <= udp_limit(req, our_max_payload) {
            Some(response)
        } else {
            match parsed {
                None => None,
                Some(resp) => message::encoded(Message::truncated(resp)),
            }
        },
    }
}

/// Bytes that may be missing.
pub open spec fn bytes_view(v: Option<Vec<u8>>) -> Option<Seq<u8>> {
    match v {
        Some(b) => Some(b@),
        None => None,
    }
}

/// Keeps an answer within the size that a client takes over UDP, given what the
/// request and the answer hold.
pub fn fit_parsed(
    request: &Message,
    response: Vec<u8>,
    parsed: Option<&Message>,
    our_max_payload: u16,
) -> (r: Option<Vec<u8>>)
    ensures
        bytes_view(r) == fitted(
            Some(request@),
            response@,
            match parsed {
                Some(m) => Some(m@),
                None => None,
            },
            our_max_payload,
        ),
{
    let client: u16 = request.max_payload();
    let smaller: u16 = if client < our_max_payload {
        client
    } else {
        our_max_payload
    };
    let limit: u16 = if smaller < 512 {
        512
    } else {
        smaller
    };
    if response.len() <= limit as usize {
        return Some(response);
    }
    match parsed {
        Some(m) => m.truncate().to_vec(),
        None => None,
    }
}

/// Keeps an answer within the size that the client takes over UDP. An answer that is
/// too large becomes a stub that is marked as truncated.
pub fn fit_udp(request: &[u8], response: Vec<u8>, our_max_payload: u16) -> (r: Option<Vec<u8>>)
    ensures
        bytes_view(r) == fitted(
            message::decoded(request@),
            response@,
            message::decoded(response@),
            our_max_payload,
        ),
{
    let req = match Message::from_vec(request) {
        Some(m) => m,
        None => {
            return None;
        },
    };
    let parsed = Message::from_vec(response.as_slice());
    match parsed {
        Some(m) => fit_parsed(&req, response, Some(&m), our_max_payload),
        None => fit_parsed(&req, response, None, our_max_payload),
    }
}

/// A message as it travels over TCP: its length in two octets, then itself.
pub open spec fn framed(msg: Seq<u8>) -> Option<Seq<u8>> {
    if msg.len() <= 0xffff {
        Some(message::be16(msg.len() as int) + msg)
    } else {
        None
    }
}

/// Prepares a message for TCP, unless it is too long for that.
pub fn frame(msg: &[u8]) -> (r: Option<Vec<u8>>)
    ensures
        bytes_view(r) == framed(msg@),
{
    if msg.len() > 0xffff {
        return None;
    }
    let n: usize = msg.len();
    let mut out: Vec<u8> = Vec::new();
    out.push((n / 256) as u8);
    out.push((n % 256) as u8);
    let ghost head = out@;
    let mut i: usize = 0;
    while i < n
        invariant
            i <= n == msg@.len(),
            out@ == head + msg@.take(i as int),
        decreases n - i,
    {
        out.push(msg[i]);
        i += 1;
        assert(out@ =~= head + msg@.take(i as int));
    }
    assert(out@ =~= message::be16(n as int) + msg@);
    Some(out)
}

/// The length that the first two octets of a frame tell: none if the frame would be
/// empty.
pub open spec fn announced(a: u8, b: u8) -> Option<int> {
    let n = a * 256 + b;
    if n == 0 {
        None
    } else {
        Some(n)
    }
}

/// Reads the length that the first two octets of a frame tell.
pub fn frame_len(prefix: [u8; 2]) -> (r: Option<usize>)
    ensures
        match r {
            Some(n) => announced(prefix@[0], prefix@[1]) == Some(n as int),
            None => announced(prefix@[0], prefix@[1]) is None,
        },
{
    let n: usize = prefix[0] as usize * 256 + prefix[1] as usize;
    if n == 0 {
        None
    } else {
        Some(n)
    }
}

/// What a frame announces is what follows.
pub proof fn a_frame_announces_its_message(msg: Seq<u8>)
    requires
        0 < msg.len() <= 0xffff,
    ensures
        framed(msg) matches Some(f) && announced(f[0], f[1]) == Some(msg.len() as int) && f.skip(2)
            == msg,
{
    let f = framed(msg)->0;
    let n = msg.len() as int;
    assert(f[0] == (n / 256) as u8 && f[1] == (n % 256) as u8);
    assert(f.skip(2) =~= msg);
}

/// Whether a datagram can be the reply to what was sent: it has the same first two
/// octets, which hold the identifier.
pub open spec fn same_id(wire: Seq<u8>, reply: Seq<u8>) -> bool {
    wire.len() >= 2 && reply.len() >= 2 && wire[0] == reply[0] && wire[1] == reply[1]
}

/// Tells whether a datagram can be the reply to what was sent.
pub fn id_matches(wire: &[u8], reply: &[u8]) -> (r: bool)
    ensures
        r == same_id(wire@, reply@),
{
    wire.len() >= 2 && reply.len() >= 2 && wire[0] == reply[0] && wire[1] == reply[1]
}

/// How much is read of the reply of an upstream: what we announced, and never less
/// than 512.
pub fn reply_buffer(limit: u16) -> (r: usize)
    ensures
        r == at_least_512(limit),
{
    if limit < 512 {
        512
    } else {
        limit as usize
    }
}

/// The answer for a blocked name never sends the client anywhere: there is no
/// record, or one record with the null address.
pub proof fn a_sinkhole_leads_nowhere(
    request: MessageView,
    qtype: u16,
    nxdomain: bool,
    our_max_payload: u16,
    i: int,
)
    requires
        0 <= i < sinkholed(request, qtype, nxdomain, our_max_payload).answers.len(),
    ensures
        ({
            let r = sinkholed(request, qtype, nxdomain, our_max_payload).answers[i];
            ||| message::v4_of(r) == Some(Ipv4Addr { bits: 0 })
            ||| message::v6_of(r) == Some(Ipv6Addr { bits: 0 })
        }),
{
    let r = sinkholed(request, qtype, nxdomain, our_max_payload).answers[i];
    if qtype == TYPE_AAAA {
        lemma_zeros(16);
    }
}

proof fn lemma_zeros(n: nat)
    ensures
        message::be_value(Seq::new(n, |i: int| 0u8)) == 0,
    decreases n,
{
    let s = Seq::new(n, |i: int| 0u8);
    if n > 0 {
        lemma_zeros((n - 1) as nat);
        assert(s.drop_last() =~= Seq::new((n - 1) as nat, |i: int| 0u8));
    }
}

/// A stub for an answer that does not fit keeps the identifier and the question of
/// the answer, carries no record and is marked as truncated.
pub proof fn a_stub_asks_for_another_try(m: MessageView)
    ensures
        Message::truncated(m).metadata.truncation,
        Message::truncated(m).metadata.id == m.metadata.id,
        Message::truncated(m).queries == m.queries,
        Message::truncated(m).answers.len() == 0,
        Message::truncated(m).authorities.len() == 0,
        Message::truncated(m).additionals.len() == 0,
{
}

/// A request that asks for no more than our limit goes upstream byte for byte.
pub proof fn a_modest_request_is_not_rewritten(bytes: Seq<u8>, request: MessageView, limit: u16)
    requires
        request.edns matches Some(e) ==> e.max_payload <= limit,
    ensures
        clamped(bytes, request, limit) == bytes,
{
}

} // verus!
