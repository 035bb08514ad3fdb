//! What holds of the replies that are taken, shown and sent.

use crate::addr::SocketAddr;
use crate::dns::forward;
use crate::dns::forward::{ActionView, EventView, ForwardView};
use crate::dns::message;
use crate::dns::message::{MessageView, RecordView};
use crate::dns::reply;
use crate::number;
use crate::text;
use vstd::prelude::*;

verus! {

/// A reply answers a request if and only if it carries the identifier of the request and
/// asks what the request asks: for the same name but for its letters' case, in the same
/// class and of the same type.
pub proof fn a_reply_answers_its_own_question_only(request: MessageView, r: MessageView)
    ensures
        r.metadata.id != request.metadata.id ==> !reply::answers(request, r),
        request.queries.len() == 0 || r.queries.len() == 0 ==> !reply::answers(request, r),
        request.queries.len() > 0 && r.queries.len() > 0 && r.metadata.id == request.metadata.id
            ==> {
            let asked = request.queries[0];
            let echoed = r.queries[0];
            &&& asked.qtype != echoed.qtype ==> !reply::answers(request, r)
            &&& asked.qclass != echoed.qclass ==> !reply::answers(request, r)
            &&& asked.qtype == echoed.qtype && asked.qclass == echoed.qclass ==> (reply::answers(
                request,
                r,
            ) <==> text::lower(message::name_text(asked.name)) == text::lower(
                message::name_text(echoed.name),
            ))
        },
{
}

/// The most bytes that a datagram to the client may have: 512, or what both sides take if
/// the client says that it takes more.
pub open spec fn most_bytes(request: MessageView, ours: u16) -> int {
    let theirs: int = if request.edns is Some {
        request.edns->0.max_payload as int
    } else {
        512
    };
    let both: int = if theirs < ours {
        theirs
    } else {
        ours as int
    };
    if both < 512 {
        512
    } else {
        both
    }
}

/// A response that fits in a datagram is sent as it is. In place of one that does not, the
/// client gets its fixed part, its questions and its OPT record, marked as truncated.
pub proof fn what_does_not_fit_is_cut_to_a_stub(
    request: MessageView,
    response: Seq<u8>,
    m: MessageView,
    ours: u16,
)
    ensures
        response.len() <= most_bytes(request, ours) ==> reply::fitted(
            Some(request),
            response,
            Some(m),
            ours,
        ) == Some(response) && reply::fitted(Some(request), response, None, ours) == Some(response),
        response.len() > most_bytes(request, ours) ==> {
            &&& reply::fitted(Some(request), response, None, ours) is None
            &&& exists|stub: MessageView|
                {
                    &&& reply::fitted(Some(request), response, Some(m), ours)
                        == #[trigger] message::encoded(stub)
                    &&& stub.metadata.truncation
                    &&& stub.metadata.id == m.metadata.id
                    &&& stub.metadata.response == m.metadata.response
                    &&& stub.metadata.op_code == m.metadata.op_code
                    &&& stub.metadata.authoritative == m.metadata.authoritative
                    &&& stub.metadata.recursion_desired == m.metadata.recursion_desired
                    &&& stub.metadata.recursion_available == m.metadata.recursion_available
                    &&& stub.metadata.authentic_data == m.metadata.authentic_data
                    &&& stub.metadata.checking_disabled == m.metadata.checking_disabled
                    &&& stub.metadata.response_code == m.metadata.response_code
                    &&& stub.queries == m.queries
                    &&& stub.answers.len() == 0
                    &&& stub.authorities.len() == 0
                    &&& stub.additionals.len() == 0
                    &&& stub.edns == m.edns
                }
        },
        reply::fitted(None, response, Some(m), ours) is None,
{
}

/// The summary of one record is its text, each further record follows after a comma, and
/// beyond the fourth only their number follows.
pub proof fn a_summary_shows_four_records(rs: Seq<RecordView>, r: RecordView)
    ensures
        reply::summary(seq![]) is None,
        reply::summary(seq![r]) == Some(reply::record_text(r)),
        1 <= rs.len() < 4 ==> reply::summary(rs.push(r)) == Some(
            reply::summary(rs)->0 + ", "@ + reply::record_text(r),
        ),
        rs.len() > 4 ==> reply::summary(rs) == Some(
            reply::summary(rs.take(4))->0 + ", "@ + (seq!['+'] + number::decimal(rs.len() - 4)),
        ),
{
    let one = seq![r];
    assert(reply::summary_parts(one) =~= seq![reply::record_text(r)]);
    if 1 <= rs.len() < 4 {
        let parts = reply::summary_parts(rs);
        assert(reply::summary_parts(rs.push(r)) =~= parts.push(reply::record_text(r)));
        assert(parts.push(reply::record_text(r)).drop_last() =~= parts);
    }
    if rs.len() > 4 {
        let parts = reply::summary_parts(rs.take(4));
        let more = seq!['+'] + number::decimal(rs.len() - 4);
        assert(reply::summary_parts(rs) =~= parts.push(more));
        assert(parts.push(more).drop_last() =~= parts);
    }
}

/// An address is shown in dotted decimals, byte by byte.
pub proof fn an_address_is_shown_byte_by_byte(r: RecordView)
    requires
        r.rtype == 1,
        r.rdata.len() == 4,
    ensures
        reply::record_text(r) == number::decimal(r.rdata[0] as int) + seq!['.'] + number::decimal(
            r.rdata[1] as int,
        ) + seq!['.'] + number::decimal(r.rdata[2] as int) + seq!['.'] + number::decimal(
            r.rdata[3] as int,
        ),
{
    lemma_octets(r);
}

/// The bytes of an address record are the bytes of the address.
pub proof fn lemma_octets(r: RecordView)
    requires
        r.rtype == 1,
        r.rdata.len() == 4,
    ensures
        message::v4_of(r) matches Some(ip) && ip.octet(0) == r.rdata[0] && ip.octet(1) == r.rdata[1]
            && ip.octet(2) == r.rdata[2] && ip.octet(3) == r.rdata[3],
{
    let ip = message::v4_of(r)->0;
    let n = r.rdata[0] * 0x100_0000 + r.rdata[1] * 0x1_0000 + r.rdata[2] * 256 + r.rdata[3];
    assert(ip.bits == n);
    assert(n / 256 == r.rdata[0] * 0x1_0000 + r.rdata[1] * 256 + r.rdata[2]);
    assert(n / 0x1_0000 == r.rdata[0] * 256 + r.rdata[1]);
    assert(n / 0x100_0000 == r.rdata[0]);
}

/// A record that leads to a name is shown by that name, a text by the word, and any other
/// record by its type.
pub proof fn a_record_is_shown_by_what_it_leads_to(r: RecordView, labels: Seq<Seq<u8>>)
    ensures
        (r.rtype == 5 || r.rtype == 12) && message::name_fits(labels) && r.rdata
            == message::name_wire(labels) ==> reply::record_text(r) == message::name_text(labels),
        r.rtype == 15 && message::name_fits(labels) && r.rdata.len() >= 2 && r.rdata.skip(2)
            == message::name_wire(labels) ==> reply::record_text(r) == message::name_text(labels),
        r.rtype == 16 ==> reply::record_text(r) == "TXT"@,
        r.rtype != 1 && r.rtype != 28 && r.rtype != 5 && r.rtype != 12 && r.rtype != 15 && r.rtype
            != 16 ==> reply::record_text(r) == message::type_label(r.rtype),
{
    if message::name_fits(labels) {
        a_name_on_the_wire_reads_back(labels);
    }
}

/// The labels of a name read back from the wire.
pub proof fn a_name_on_the_wire_reads_back(labels: Seq<Seq<u8>>)
    requires
        message::name_fits(labels),
    ensures
        message::wire_labels(message::name_wire(labels)) == Some(labels),
    decreases labels.len(),
{
    let w = message::name_wire(labels);
    if labels.len() == 0 {
        assert(w =~= seq![0u8]);
    } else {
        let rest = labels.drop_first();
        let first = labels[0];
        assert forall|i: int| 0 <= i < rest.len() implies 0 < (#[trigger] rest[i]).len() <= 63 by {
            assert(rest[i] == labels[i + 1]);
        }
        a_name_on_the_wire_reads_back(rest);
        lemma_labels_wire_first(labels);
        assert(w =~= (seq![first.len() as u8] + first) + message::name_wire(rest));
        assert(w[0] == first.len());
        assert(w.skip(w[0] + 1) =~= message::name_wire(rest));
        assert(w.subrange(1, w[0] + 1) =~= first);
        assert(seq![first] + rest =~= labels);
    }
}

proof fn lemma_labels_wire_first(labels: Seq<Seq<u8>>)
    requires
        labels.len() > 0,
    ensures
        message::labels_wire(labels) == seq![labels[0].len() as u8] + labels[0]
            + message::labels_wire(labels.drop_first()),
    decreases labels.len(),
{
    let rest = labels.drop_first();
    if labels.len() == 1 {
        assert(labels.drop_last() =~= seq![]);
        assert(rest =~= seq![]);
        assert(message::labels_wire(labels) =~= seq![labels[0].len() as u8] + labels[0]
            + message::labels_wire(rest));
    } else {
        lemma_labels_wire_first(labels.drop_last());
        assert(labels.drop_last().drop_first() =~= rest.drop_last());
        assert(message::labels_wire(labels) =~= seq![labels[0].len() as u8] + labels[0]
            + message::labels_wire(rest));
    }
}

/// The bytes of a label that stand for themselves wherever they are.
pub open spec fn is_plain(label: Seq<u8>) -> bool {
    forall|i: int|
        0 <= i < label.len() ==> 97 <= #[trigger] label[i] <= 122 || 65 <= label[i] <= 90 || 48
            <= label[i] <= 57 || label[i] == 95 || label[i] == 45 && i > 0
}

/// A name of plain labels is written as its labels, each with a dot after it.
pub proof fn a_plain_name_is_written_as_it_is(labels: Seq<Seq<u8>>, label: Seq<u8>)
    requires
        is_plain(label),
    ensures
        message::name_text(seq![label]) == label.map_values(|b: u8| b as char).push('.'),
        labels.len() > 0 ==> message::name_text(labels.push(label)) == message::name_text(labels)
            + label.map_values(|b: u8| b as char).push('.'),
        message::name_text(seq![]) == seq!['.'],
{
    lemma_plain_label(label);
    let one = seq![label];
    assert(one.drop_last() =~= seq![]);
    reveal_with_fuel(message::dotted, 2);
    assert(message::name_text(one) =~= label.map_values(|b: u8| b as char).push('.'));
    if labels.len() > 0 {
        assert(labels.push(label).drop_last() =~= labels);
    }
}

/// A byte of a label that does not stand for itself is written after a backslash, as it is
/// where it can be seen, and otherwise in three octal digits. A hyphen stands for itself
/// anywhere but at the start, and an asterisk only there.
pub proof fn other_bytes_are_written_after_a_backslash(label: Seq<u8>, b: u8)
    ensures
        ({
            let first = label.len() == 0;
            let itself = 97 <= b <= 122 || 65 <= b <= 90 || 48 <= b <= 57 || b == 95 || b == 45
                && !first || b == 42 && first;
            message::label_text(label.push(b)) == message::label_text(label) + (if itself {
                seq![b as char]
            } else if 33 <= b <= 126 {
                seq!['\\', b as char]
            } else {
                seq![
                    '\\',
                    (48 + b as int / 64) as char,
                    (48 + b as int / 8 % 8) as char,
                    (48 + b as int % 8) as char,
                ]
            })
        }),
{
    assert(label.push(b).drop_last() =~= label);
}

proof fn lemma_plain_label(label: Seq<u8>)
    requires
        is_plain(label),
    ensures
        message::label_text(label) == label.map_values(|b: u8| b as char),
    decreases label.len(),
{
    if label.len() > 0 {
        assert forall|i: int| 0 <= i < label.drop_last().len() implies 97
            <= #[trigger] label.drop_last()[i] <= 122 || 65 <= label.drop_last()[i] <= 90 || 48
            <= label.drop_last()[i] <= 57 || label.drop_last()[i] == 95 || label.drop_last()[i]
            == 45 && i > 0 by {
            assert(label.drop_last()[i] == label[i]);
        }
        lemma_plain_label(label.drop_last());
        assert(message::plain_byte(label[label.len() - 1], label.len() == 1));
        assert(message::label_text(label) =~= label.map_values(|b: u8| b as char));
    } else {
        assert(message::label_text(label) =~= label.map_values(|b: u8| b as char));
    }
}

/// An answer to the question, whole or over TCP, ends the search: it is handed on as it
/// came. A reply that cannot be read or that answers something else is passed over.
pub proof fn a_good_answer_ends_the_search(f: ForwardView, bytes: Seq<u8>, m: MessageView)
    requires
        f.wf(),
        message::decoded(bytes) == Some(m),
    ensures
        !m.metadata.truncation || f.tcp ==> {
            &&& reply::answers(f.request, m) ==> f.after(EventView::Reply(bytes)).1
                == ActionView::Done(bytes) && f.after(EventView::Reply(bytes)).0 == f
            &&& !reply::answers(f.request, m) ==> f.after(EventView::Reply(bytes)).1 !is Done
        },
        m.metadata.truncation && !f.tcp ==> {
            &&& f.after(EventView::Reply(bytes)).1 == ActionView::Tcp(f.upstreams[f.at])
            &&& f.after(EventView::Reply(bytes)).0.tcp
            &&& f.after(EventView::Reply(bytes)).0.at == f.at
            &&& f.after(EventView::Reply(bytes)).0.upstreams == f.upstreams
            &&& f.after(EventView::Reply(bytes)).0.request == f.request
        },
{
}

/// Whatever goes wrong with an upstream, the next one is asked over UDP, and after the last
/// one the reason is given up with. The request and the upstreams stay what they are.
pub proof fn a_failure_moves_on(f: ForwardView, reason: Seq<char>, bytes: Seq<u8>)
    requires
        f.wf(),
    ensures
        ({
            let (g, action) = f.after(EventView::Failed(reason));
            &&& g.request == f.request
            &&& g.upstreams == f.upstreams
            &&& if f.at + 1 < f.upstreams.len() {
                &&& action == ActionView::Udp(f.upstreams[f.at + 1])
                &&& g.at == f.at + 1
                &&& !g.tcp
            } else {
                action == ActionView::GiveUp(reason)
            }
        }),
        ({
            let (g, action) = f.after(EventView::TimedOut);
            &&& g.request == f.request
            &&& g.upstreams == f.upstreams
            &&& if f.at + 1 < f.upstreams.len() {
                &&& action == ActionView::Udp(f.upstreams[f.at + 1])
                &&& g.at == f.at + 1
                &&& !g.tcp
            } else {
                action == ActionView::GiveUp(
                    "upstream "@ + f.upstreams[f.at].text() + " timed out"@,
                )
            }
        }),
        message::decoded(bytes) is None ==> {
            let (g, action) = f.after(EventView::Reply(bytes));
            &&& g.request == f.request
            &&& g.upstreams == f.upstreams
            &&& if f.at + 1 < f.upstreams.len() {
                &&& action == ActionView::Udp(f.upstreams[f.at + 1])
                &&& g.at == f.at + 1
                &&& !g.tcp
            } else {
                action == ActionView::GiveUp(
                    "undecodable reply from "@ + f.upstreams[f.at].text() + ": "@
                        + message::failure(bytes),
                )
            }
        },
{
}

/// The first upstream is asked first, over UDP. Without any there is nothing to wait for.
pub proof fn the_first_upstream_is_asked_first(upstreams: Seq<SocketAddr>)
    ensures
        upstreams.len() > 0 ==> forward::first_action(upstreams) == ActionView::Udp(upstreams[0]),
        upstreams.len() == 0 ==> forward::first_action(upstreams) == ActionView::GiveUp(
            "no upstreams configured"@,
        ),
{
}

/// The fixed part of a message as it is written: the identifier, then the flags, then how
/// many of each part follow.
pub proof fn a_message_starts_with_its_fixed_part(m: MessageView)
    requires
        message::fits(m),
    ensures
        ({
            let w = message::plain_wire(m);
            let flags = w[2] * 256 + w[3];
            &&& w.len() >= 12
            &&& w[0] * 256 + w[1] == m.metadata.id
            &&& w[4] * 256 + w[5] == m.queries.len()
            &&& w[6] * 256 + w[7] == m.answers.len()
            &&& w[8] * 256 + w[9] == m.authorities.len()
            &&& w[10] * 256 + w[11] == m.additionals.len() + (if m.edns is Some {
                1int
            } else {
                0
            })
            &&& m.metadata.response <==> flags / 0x8000 == 1
            &&& m.metadata.op_code == flags / 0x800 % 16
            &&& m.metadata.authoritative <==> flags / 0x400 % 2 == 1
            &&& m.metadata.truncation <==> flags / 0x200 % 2 == 1
            &&& m.metadata.recursion_desired <==> flags / 0x100 % 2 == 1
            &&& m.metadata.recursion_available <==> flags / 0x80 % 2 == 1
            &&& m.metadata.authentic_data <==> flags / 0x20 % 2 == 1
            &&& m.metadata.checking_disabled <==> flags / 0x10 % 2 == 1
            &&& m.metadata.response_code % 16 == flags % 16
        }),
{
    let w = message::plain_wire(m);
    let md = m.metadata;
    let id = message::be16(md.id as int);
    let fl = message::flags_wire(md);
    let q = message::be16(m.queries.len() as int);
    let an = message::be16(m.answers.len() as int);
    let au = message::be16(m.authorities.len() as int);
    let ad = message::be16(m.additionals.len() + message::bit(m.edns is Some, 1));
    let rest = message::questions_wire(m.queries) + message::records_wire(m.answers)
        + message::records_wire(m.authorities) + message::records_wire(m.additionals)
        + message::edns_wire(m.edns, md.response_code);
    assert(w =~= id + fl + q + an + au + ad + rest);
    let head = id + fl + q + an + au + ad;
    assert(head.len() == 12);
    assert(forall|i: int| 0 <= i < 12 ==> w[i] == head[i]);
    assert(w[0] == id[0] && w[1] == id[1] && w[2] == fl[0] && w[3] == fl[1]);
    assert(w[4] == q[0] && w[5] == q[1] && w[6] == an[0] && w[7] == an[1]);
    assert(w[8] == au[0] && w[9] == au[1] && w[10] == ad[0] && w[11] == ad[1]);
    reveal(message::bit);
    let one = |b: bool|
        if b {
            1int
        } else {
            0
        };
    lemma_flags(
        one(md.response),
        md.op_code as int,
        one(md.authoritative),
        one(md.truncation),
        one(md.recursion_desired),
        one(md.recursion_available),
        one(md.authentic_data),
        one(md.checking_disabled),
        md.response_code as int % 16,
    );
    let flags = one(md.response) * 0x8000 + md.op_code * 0x800 + one(md.authoritative) * 0x400
        + one(md.truncation) * 0x200 + one(md.recursion_desired) * 0x100 + one(
        md.recursion_available,
    ) * 0x80 + one(md.authentic_data) * 0x20 + one(md.checking_disabled) * 0x10
        + md.response_code as int % 16;
    assert(fl == message::be16(flags));
    assert(w[2] * 256 + w[3] == flags);
}

/// The flags can be told apart.
proof fn lemma_flags(
    qr: int,
    op: int,
    aa: int,
    tc: int,
    rd: int,
    ra: int,
    ad: int,
    cd: int,
    code: int,
)
    requires
        0 <= qr <= 1,
        0 <= op < 16,
        0 <= aa <= 1,
        0 <= tc <= 1,
        0 <= rd <= 1,
        0 <= ra <= 1,
        0 <= ad <= 1,
        0 <= cd <= 1,
        0 <= code < 16,
    ensures
        ({
            let f = qr * 0x8000 + op * 0x800 + aa * 0x400 + tc * 0x200 + rd * 0x100 + ra * 0x80 + ad
                * 0x20 + cd * 0x10 + code;
            &&& 0 <= f < 0x1_0000
            &&& f / 0x8000 == qr
            &&& f / 0x800 % 16 == op
            &&& f / 0x400 % 2 == aa
            &&& f / 0x200 % 2 == tc
            &&& f / 0x100 % 2 == rd
            &&& f / 0x80 % 2 == ra
            &&& f / 0x20 % 2 == ad
            &&& f / 0x10 % 2 == cd
            &&& f % 16 == code
        }),
{
    let f4 = cd * 1 + ad * 2 + ra * 8 + rd * 16 + tc * 32 + aa * 64 + op * 128 + qr * 2048;
    let f = 16 * f4 + code;
    assert(f / 0x10 == f4);
    let f5 = ad + ra * 4 + rd * 8 + tc * 16 + aa * 32 + op * 64 + qr * 1024;
    assert(f4 == 2 * f5 + cd);
    assert(f / 0x20 == f5);
    let f7 = ra + rd * 2 + tc * 4 + aa * 8 + op * 16 + qr * 256;
    assert(f5 == 4 * f7 + ad);
    assert(f / 0x80 == f7);
    let f8 = rd + tc * 2 + aa * 4 + op * 8 + qr * 128;
    assert(f / 0x100 == f8);
    let f9 = tc + aa * 2 + op * 4 + qr * 64;
    assert(f / 0x200 == f9);
    let f10 = aa + op * 2 + qr * 32;
    assert(f / 0x400 == f10);
    let f11 = op + qr * 16;
    assert(f / 0x800 == f11);
}

/// A record as it is written: its name, its type, its class, its TTL, and its data with
/// their length before them.
pub proof fn a_record_is_written_field_by_field(r: RecordView)
    requires
        r.rdata.len() <= 0xffff,
    ensures
        ({
            let name = message::name_wire(r.name);
            let w = message::record_wire(r);
            let n = name.len() as int;
            &&& w.len() == n + 10 + r.rdata.len()
            &&& w.take(n) == name
            &&& w[n] * 256 + w[n + 1] == r.rtype
            &&& w[n + 2] * 256 + w[n + 3] == r.class
            &&& w[n + 4] * 0x100_0000 + w[n + 5] * 0x1_0000 + w[n + 6] * 256 + w[n + 7] == r.ttl
            &&& w[n + 8] * 256 + w[n + 9] == r.rdata.len()
            &&& w.skip(n + 10) == r.rdata
        }),
{
    let name = message::name_wire(r.name);
    let w = message::record_wire(r);
    let n = name.len() as int;
    assert(w.take(n) =~= name);
    assert(w.skip(n + 10) =~= r.rdata);
}

/// An OPT record as it is written: the root, the type 41, the size of datagrams, the upper
/// part of the status, the version, the DO bit, and the options.
pub proof fn an_opt_record_is_written_field_by_field(e: message::EdnsView, code: u16)
    requires
        e.z < 0x8000,
        e.options.len() <= 0xffff,
        code < 0x1000,
    ensures
        ({
            let w = message::edns_wire(Some(e), code);
            &&& w.len() == 11 + e.options.len()
            &&& w[0] == 0
            &&& w[1] == 0 && w[2] == 41
            &&& w[3] * 256 + w[4] == e.max_payload
            &&& w[5] == code / 16
            &&& w[6] == e.version
            &&& e.dnssec_ok <==> w[7] >= 128
            &&& (w[7] * 256 + w[8]) % 0x8000 == e.z
            &&& w[9] * 256 + w[10] == e.options.len()
            &&& w.skip(11) == e.options
        }),
        message::edns_wire(None, code).len() == 0,
{
    let w = message::edns_wire(Some(e), code);
    reveal(message::bit);
    let flags = e.z + message::bit(e.dnssec_ok, 0x8000);
    assert(w.skip(11) =~= e.options);
    assert(0 <= flags < 0x1_0000);
    assert(w[7] == (flags / 256) as u8 && w[8] == (flags % 256) as u8);
    assert(w[7] * 256 + w[8] == flags);
    assert(w[5] == (code as int / 16) as u8);
}

/// A reply that answers something else is passed over like one that cannot be read.
pub proof fn an_answer_to_something_else_moves_on(f: ForwardView, bytes: Seq<u8>, m: MessageView)
    requires
        f.wf(),
        message::decoded(bytes) == Some(m),
        !m.metadata.truncation || f.tcp,
        !reply::answers(f.request, m),
    ensures
        ({
            let (g, action) = f.after(EventView::Reply(bytes));
            &&& g.request == f.request
            &&& g.upstreams == f.upstreams
            &&& if f.at + 1 < f.upstreams.len() {
                &&& action == ActionView::Udp(f.upstreams[f.at + 1])
                &&& g.at == f.at + 1
                &&& !g.tcp
            } else {
                action == ActionView::GiveUp(
                    "upstream "@ + f.upstreams[f.at].text() + " answered a different question"@,
                )
            }
        }),
{
}

/// The wait before another try to bind an address doubles, up to five seconds.
pub proof fn waits_double_up_to_five_seconds(delay: u64)
    ensures
        delay <= 2500 ==> forward::longer(delay) == 2 * delay,
        delay > 2500 ==> forward::longer(delay) == 5000,
{
}

/// The bytes of an IPv6 address are read with the first one worth most.
pub proof fn bytes_are_read_with_the_first_worth_most(s: Seq<u8>, b: u8, r: RecordView)
    ensures
        message::be_value(seq![]) == 0,
        message::be_value(s.push(b)) == message::be_value(s) * 256 + b,
        r.rtype == 28 && r.rdata.len() == 16 ==> (message::v6_of(r) matches Some(ip) && ip.bits
            == message::be_value(r.rdata) as u128 && reply::record_text(r) == ip.text()),
{
    assert(s.push(b).drop_last() =~= s);
}

/// After its fixed part a message holds its questions, its answers, its authority records,
/// its additional records and its OPT record, each part in order.
pub proof fn a_message_holds_its_parts_in_order(
    m: MessageView,
    qs: Seq<message::QuestionView>,
    q: message::QuestionView,
    rs: Seq<RecordView>,
    r: RecordView,
)
    ensures
        message::plain_wire(m).skip(12) == message::questions_wire(m.queries)
            + message::records_wire(m.answers) + message::records_wire(m.authorities)
            + message::records_wire(m.additionals) + message::edns_wire(
            m.edns,
            m.metadata.response_code,
        ),
        message::questions_wire(seq![]).len() == 0,
        message::questions_wire(qs.push(q)) == message::questions_wire(qs) + message::name_wire(
            q.name,
        ) + seq![
            (q.qtype / 256) as u8,
            (q.qtype % 256) as u8,
            (q.qclass / 256) as u8,
            (q.qclass % 256) as u8,
        ],
        message::records_wire(seq![]).len() == 0,
        message::records_wire(rs.push(r)) == message::records_wire(rs) + message::record_wire(r),
{
    assert(message::plain_wire(m).skip(12) =~= message::questions_wire(m.queries)
        + message::records_wire(m.answers) + message::records_wire(m.authorities)
        + message::records_wire(m.additionals) + message::edns_wire(
        m.edns,
        m.metadata.response_code,
    ));
    assert(qs.push(q).drop_last() =~= qs);
    assert(rs.push(r).drop_last() =~= rs);
    assert(message::questions_wire(qs.push(q)) =~= message::questions_wire(qs)
        + message::name_wire(q.name) + seq![
        (q.qtype / 256) as u8,
        (q.qtype % 256) as u8,
        (q.qclass / 256) as u8,
        (q.qclass % 256) as u8,
    ]);
}

/// A reply belongs to what was sent if its first two bytes, the identifier, are the same.
pub proof fn a_reply_belongs_to_its_identifier(a: u8, b: u8, sent: Seq<u8>, came: Seq<u8>)
    ensures
        reply::same_id(seq![a, b] + sent, seq![a, b] + came),
        reply::same_id(sent, came) ==> sent.len() >= 2 && came.len() >= 2 && sent.take(2)
            == came.take(2),
{
    if reply::same_id(sent, came) {
        assert(sent.take(2) =~= came.take(2));
    }
}

} // verus!
