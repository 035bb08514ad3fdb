//! A cache of DNS answers that knows how long each may be kept.
//!
//! Two rules drive the design.
//!
//! 1. A cached answer belongs to the name, not to the client that asked. Only the
//!    records and the status of the answer are kept; the envelope (identifier, RD
//!    and CD bits, OPT record) is rebuilt from the current request every time.
//!
//! 2. A TTL that the authority did not grant is never handed out. Each record is
//!    counted down on its own, and `min_ttl` is a threshold below which an answer
//!    is not worth keeping, never a floor to round up to.
//!
//! Time is a number of milliseconds since some fixed moment, and the caller says
//! what it is.

use crate::dns::message;
use crate::dns::message::{Edns, EdnsView, Message, MessageView, Record, RecordView};
use crate::dns::message::{NO_ERROR, NX_DOMAIN, TYPE_OPT};
use crate::table;
use vstd::prelude::*;

verus! {

/// Everything about a request that can change the answer it deserves.
///
/// The class matters, and so do the DNSSEC-OK and checking-disabled bits, because
/// they change what the upstream returns.
#[derive(Debug)]
pub struct Key {
    pub name: String,
    pub qtype: u16,
    pub qclass: u16,
    pub dnssec_ok: bool,
    pub checking_disabled: bool,
}

/// The model of a key.
#[verifier::ext_equal]
pub struct KeyView {
    pub name: Seq<char>,
    pub qtype: u16,
    pub qclass: u16,
    pub dnssec_ok: bool,
    pub checking_disabled: bool,
}

impl View for Key {
    type V = KeyView;

    open spec fn view(&self) -> KeyView {
        KeyView {
            name: self.name@,
            qtype: self.qtype,
            qclass: self.qclass,
            dnssec_ok: self.dnssec_ok,
            checking_disabled: self.checking_disabled,
        }
    }
}

/// Whether a message asks for the records of DNSSEC.
pub open spec fn wants_dnssec(m: MessageView) -> bool {
    m.edns matches Some(e) && e.dnssec_ok
}

/// The key of a request for the name `name`: none if it asks nothing.
pub open spec fn key_of(m: MessageView, name: Seq<char>) -> Option<KeyView> {
    if m.queries.len() == 0 {
        None
    } else {
        Some(
            KeyView {
                name,
                qtype: m.queries[0].qtype,
                qclass: m.queries[0].qclass,
                dnssec_ok: wants_dnssec(m),
                checking_disabled: m.metadata.checking_disabled,
            },
        )
    }
}

impl Clone for Key {
    fn clone(&self) -> (r: Key)
        ensures
            r@ == self@,
    {
        Key {
            name: self.name.clone(),
            qtype: self.qtype,
            qclass: self.qclass,
            dnssec_ok: self.dnssec_ok,
            checking_disabled: self.checking_disabled,
        }
    }
}

impl Key {
    /// Derives the key from a request, so that no field can be forgotten.
    pub fn from_request(msg: &Message, name: &str) -> (r: Option<Key>)
        ensures
            match r {
                Some(k) => key_of(msg@, name@) == Some(k@),
                None => key_of(msg@, name@) is None,
            },
    {
        if msg.queries.len() == 0 {
            return None;
        }
        assert(msg@.queries[0] == msg.queries@[0]@);
        let dnssec_ok = match &msg.edns {
            Some(e) => e.dnssec_ok,
            None => false,
        };
        Some(
            Key {
                name: name.to_string(),
                qtype: msg.queries[0].qtype,
                qclass: msg.queries[0].qclass,
                dnssec_ok,
                checking_disabled: msg.metadata.checking_disabled,
            },
        )
    }

    fn is(&self, other: &Key) -> (r: bool)
        ensures
            r == (self@ == other@),
    {
        self.qtype == other.qtype && self.qclass == other.qclass && self.dnssec_ok
            == other.dnssec_ok && self.checking_disabled == other.checking_disabled && self.name
            == other.name
    }
}

/// The parts of an answer that are safe to reuse across clients.
struct Entry {
    answers: Vec<Record>,
    authorities: Vec<Record>,
    /// Without the OPT record, which belongs to one transaction.
    additionals: Vec<Record>,
    response_code: u16,
    authoritative: bool,
    inserted: u64,
    /// Governed by the shortest TTL of the answer and of its authority records:
    /// once one of them would expire, the whole entry does.
    expires: u64,
}

/// The model of an entry.
#[verifier::ext_equal]
pub struct EntryView {
    pub answers: Seq<RecordView>,
    pub authorities: Seq<RecordView>,
    pub additionals: Seq<RecordView>,
    pub response_code: u16,
    pub authoritative: bool,
    pub inserted: u64,
    pub expires: u64,
}

impl Entry {
    spec fn view(&self) -> EntryView {
        EntryView {
            answers: message::records(self.answers@),
            authorities: message::records(self.authorities@),
            additionals: message::records(self.additionals@),
            response_code: self.response_code,
            authoritative: self.authoritative,
            inserted: self.inserted,
            expires: self.expires,
        }
    }
}

/// A cache hit, with every TTL already counted down. The caller wraps it in an
/// envelope built from the current request.
#[derive(Debug)]
pub struct CachedAnswer {
    pub answers: Vec<Record>,
    pub authorities: Vec<Record>,
    pub additionals: Vec<Record>,
    pub response_code: u16,
    pub authoritative: bool,
}

/// The model of a cache hit.
#[verifier::ext_equal]
pub struct AnswerView {
    pub answers: Seq<RecordView>,
    pub authorities: Seq<RecordView>,
    pub additionals: Seq<RecordView>,
    pub response_code: u16,
    pub authoritative: bool,
}

impl View for CachedAnswer {
    type V = AnswerView;

    open spec fn view(&self) -> AnswerView {
        AnswerView {
            answers: message::records(self.answers@),
            authorities: message::records(self.authorities@),
            additionals: message::records(self.additionals@),
            response_code: self.response_code,
            authoritative: self.authoritative,
        }
    }
}

struct Slot {
    key: Key,
    entry: Entry,
}

/// The cache.
pub struct Cache {
    slots: Vec<Slot>,
    max_entries: usize,
    /// Answers whose shortest TTL is below this are not kept at all.
    min_ttl: u32,
    /// Upper bound on how long an entry is kept, whatever its TTL.
    max_ttl: u32,
    pub hits: u64,
    pub misses: u64,
}

/// The limits that a cache was made with.
pub struct Limits {
    pub max_entries: usize,
    pub min_ttl: u32,
    pub max_ttl: u32,
}

/// The whole seconds from `inserted` to `now`.
pub open spec fn seconds(inserted: u64, now: u64) -> int {
    if now < inserted {
        0
    } else {
        (now - inserted) / 1000
    }
}

/// What is left of a TTL after `elapsed` seconds.
pub open spec fn remaining(ttl: u32, elapsed: int) -> u32 {
    if elapsed >= ttl {
        0
    } else {
        (ttl - elapsed) as u32
    }
}

/// A record whose TTL has been counted down.
pub open spec fn aged_record(r: RecordView, elapsed: int) -> RecordView {
    RecordView { ttl: remaining(r.ttl, elapsed), ..r }
}

/// Records whose TTLs have been counted down.
pub open spec fn aged(rs: Seq<RecordView>, elapsed: int) -> Seq<RecordView> {
    rs.map_values(|r: RecordView| aged_record(r, elapsed))
}

/// The answer that an entry gives at `now`.
pub open spec fn answer_of(e: EntryView, now: u64) -> AnswerView {
    let t = seconds(e.inserted, now);
    AnswerView {
        answers: aged(e.answers, t),
        authorities: aged(e.authorities, t),
        additionals: aged(e.additionals, t),
        response_code: e.response_code,
        authoritative: e.authoritative,
    }
}

/// The shortest TTL of some records, and `seed`.
pub open spec fn shortest(rs: Seq<RecordView>, seed: Option<u32>) -> Option<u32>
    decreases rs.len(),
{
    if rs.len() == 0 {
        seed
    } else {
        let rest = shortest(rs.drop_last(), seed);
        match rest {
            Some(t) => Some(if rs.last().ttl < t {
                rs.last().ttl
            } else {
                t
            }),
            None => Some(rs.last().ttl),
        }
    }
}

/// The shortest TTL of the answers and the authority records. For a negative
/// answer the SOA record carries the only TTL.
pub open spec fn shortest_ttl(m: MessageView) -> Option<u32> {
    shortest(m.authorities, shortest(m.answers, None))
}

/// Whether an answer is worth keeping: a success or a name that does not exist,
/// with a TTL that is not zero and not below `min_ttl`.
pub open spec fn cacheable(m: MessageView, min_ttl: u32) -> bool {
    &&& m.metadata.response_code == NO_ERROR || m.metadata.response_code == NX_DOMAIN
    &&& shortest_ttl(m) matches Some(t) && t != 0 && t >= min_ttl
}

/// Records without the OPT records.
pub open spec fn without_opt(rs: Seq<RecordView>) -> Seq<RecordView>
    decreases rs.len(),
{
    if rs.len() == 0 {
        seq![]
    } else if rs.last().rtype == TYPE_OPT {
        without_opt(rs.drop_last())
    } else {
        without_opt(rs.drop_last()).push(rs.last())
    }
}

/// The smaller of two TTLs.
pub open spec fn lesser(a: u32, b: u32) -> u32 {
    if a < b {
        a
    } else {
        b
    }
}

/// The sum of `a` and `b`, or the largest number.
pub open spec fn capped_sum(a: u64, b: int) -> u64 {
    if a + b > u64::MAX {
        u64::MAX
    } else {
        (a + b) as u64
    }
}

/// The entry that an answer becomes at `now`.
pub open spec fn entry_of(m: MessageView, max_ttl: u32, now: u64) -> EntryView {
    EntryView {
        answers: m.answers,
        authorities: m.authorities,
        additionals: without_opt(m.additionals),
        response_code: m.metadata.response_code,
        authoritative: m.metadata.authoritative,
        inserted: now,
        expires: capped_sum(now, lesser(shortest_ttl(m)->0, max_ttl) * 1000),
    }
}

/// The entries that have not expired at `now`.
pub open spec fn live(m: Map<KeyView, EntryView>, now: u64) -> Map<KeyView, EntryView> {
    m.restrict(Set::new(|k: KeyView| m.contains_key(k) && m[k].expires > now))
}

/// How `after` can come from `before` by making room at `now`: what has expired
/// is gone; if nothing had, a tenth of the entries and one more are gone, and none
/// that is left would have expired before one of them.
pub open spec fn made_room(
    before: Map<KeyView, EntryView>,
    after: Map<KeyView, EntryView>,
    now: u64,
) -> bool {
    if live(before, now) != before {
        after == live(before, now)
    } else {
        &&& after.submap_of(before)
        &&& after.dom().len() == before.dom().len() - (before.dom().len() / 10 + 1)
        &&& forall|gone: KeyView, kept: KeyView|
            before.contains_key(gone) && !after.contains_key(gone) && after.contains_key(kept)
                ==> (#[trigger] before[gone]).expires <= (#[trigger] before[kept]).expires
    }
}

/// How `after` can come from `before` by keeping the answer `m` at `now`: the answer
/// is kept after room was made, if the cache was full, or it is not worth keeping.
pub open spec fn stored(
    before: Map<KeyView, EntryView>,
    after: Map<KeyView, EntryView>,
    limits: Limits,
    key: KeyView,
    m: MessageView,
    now: u64,
) -> bool {
    if cacheable(m, limits.min_ttl) {
        exists|room: Map<KeyView, EntryView>|
            {
                &&& if before.dom().len() < limits.max_entries {
                    room == before
                } else {
                    made_room(before, room, now)
                }
                &&& after == #[trigger] room.insert(key, entry_of(m, limits.max_ttl, now))
            }
    } else {
        after == before
    }
}

/// What every entry keeps: it does not outlive a record of its answer or a record
/// of its authorities, and holds no OPT record.
pub open spec fn sound(e: EntryView) -> bool {
    &&& forall|i: int|
        0 <= i < e.answers.len() ==> e.expires <= e.inserted + (#[trigger] e.answers[i]).ttl * 1000
    &&& forall|i: int|
        0 <= i < e.authorities.len() ==> e.expires <= e.inserted + (#[trigger] e.authorities[i]).ttl
            * 1000
    &&& forall|i: int| 0 <= i < e.additionals.len() ==> (#[trigger] e.additionals[i]).rtype != TYPE_OPT
}

fn age(rs: &Vec<Record>, elapsed: u64) -> (r: Vec<Record>)
    ensures
        message::records(r@) == aged(message::records(rs@), elapsed as int),
{
    let mut out: Vec<Record> = Vec::new();
    let mut i: usize = 0;
    while i < rs.len()
        invariant
            i <= rs@.len(),
            out@.len() == i,
            forall|j: int|
                0 <= j < i ==> (#[trigger] out@[j])@ == aged_record(rs@[j]@, elapsed as int),
        decreases rs@.len() - i,
    {
        let mut rec = rs[i].clone();
        rec.ttl = if elapsed >= rec.ttl as u64 {
            0
        } else {
            rec.ttl - elapsed as u32
        };
        out.push(rec);
        i += 1;
    }
    assert(message::records(out@) =~= aged(message::records(rs@), elapsed as int));
    out
}

fn min_ttl_of(rs: &Vec<Record>, seed: Option<u32>) -> (r: Option<u32>)
    ensures
        r == shortest(message::records(rs@), seed),
{
    let ghost v = message::records(rs@);
    let mut best = seed;
    let mut i: usize = 0;
    assert(v.take(0) =~= seq![]);
    while i < rs.len()
        invariant
            i <= rs@.len(),
            v == message::records(rs@),
            best == shortest(v.take(i as int), seed),
        decreases rs@.len() - i,
    {
        let ttl: u32 = rs[i].ttl;
        best = match best {
            Some(t) => Some(if ttl < t {
                ttl
            } else {
                t
            }),
            None => Some(ttl),
        };
        i += 1;
        assert(v.take(i as int).drop_last() =~= v.take(i - 1));
        assert(v.take(i as int).last() == rs@[i - 1]@);
    }
    assert(v.take(i as int) =~= v);
    best
}

fn drop_opt(rs: &Vec<Record>) -> (r: Vec<Record>)
    ensures
        message::records(r@) == without_opt(message::records(rs@)),
{
    let ghost v = message::records(rs@);
    let mut out: Vec<Record> = Vec::new();
    let mut i: usize = 0;
    assert(v.take(0) =~= seq![]);
    assert(message::records(out@) =~= seq![]);
    while i < rs.len()
        invariant
            i <= rs@.len(),
            v == message::records(rs@),
            message::records(out@) == without_opt(v.take(i as int)),
        decreases rs@.len() - i,
    {
        let ghost before = out@;
        if rs[i].rtype != TYPE_OPT {
            out.push(rs[i].clone());
            assert(message::records(out@) =~= message::records(before).push(rs@[i as int]@));
        }
        i += 1;
        assert(v.take(i as int).drop_last() =~= v.take(i - 1));
        assert(v.take(i as int).last() == rs@[i - 1]@);
    }
    assert(v.take(i as int) =~= v);
    out
}

/// No record has a TTL below the shortest one.
proof fn lemma_shortest(rs: Seq<RecordView>, seed: Option<u32>)
    ensures
        rs.len() > 0 || seed is Some ==> shortest(rs, seed) is Some,
        shortest(rs, seed) matches Some(t) ==> {
            &&& forall|i: int| 0 <= i < rs.len() ==> t <= (#[trigger] rs[i]).ttl
            &&& seed matches Some(s) ==> t <= s
            &&& seed == Some(t) || exists|i: int| 0 <= i < rs.len() && t == (#[trigger] rs[i]).ttl
        },
    decreases rs.len(),
{
    if rs.len() > 0 {
        lemma_shortest(rs.drop_last(), seed);
        assert forall|i: int| 0 <= i < rs.len() implies shortest(rs, seed)->0 <= (#[trigger] rs[i]).ttl by {
            if i < rs.len() - 1 {
                assert(rs.drop_last()[i] == rs[i]);
            }
        }
        let t = shortest(rs, seed)->0;
        if rs.last().ttl == t {
            assert(rs[rs.len() - 1].ttl == t);
        } else if seed != Some(t) {
            let i = choose|i: int| 0 <= i < rs.len() - 1 && t == (#[trigger] rs.drop_last()[i]).ttl;
            assert(rs[i].ttl == t);
        }
    }
}

proof fn lemma_without_opt(rs: Seq<RecordView>)
    ensures
        forall|i: int|
            0 <= i < without_opt(rs).len() ==> (#[trigger] without_opt(rs)[i]).rtype != TYPE_OPT,
    decreases rs.len(),
{
    if rs.len() > 0 {
        lemma_without_opt(rs.drop_last());
        let rest = without_opt(rs.drop_last());
        assert forall|i: int| 0 <= i < without_opt(rs).len() implies (
        #[trigger] without_opt(rs)[i]).rtype != TYPE_OPT by {
            if i < rest.len() {
                assert(rest[i] == without_opt(rs)[i]);
            }
        }
    }
}

/// The entry that an answer becomes is sound.
pub proof fn lemma_entry_is_sound(m: MessageView, max_ttl: u32, now: u64)
    requires
        shortest_ttl(m) is Some,
    ensures
        sound(entry_of(m, max_ttl, now)),
{
    let first = shortest(m.answers, None);
    lemma_shortest(m.answers, None);
    lemma_shortest(m.authorities, first);
    lemma_without_opt(m.additionals);
    let e = entry_of(m, max_ttl, now);
    let t = shortest_ttl(m)->0;
    assert(e.expires <= now + t * 1000);
    assert forall|i: int| 0 <= i < e.answers.len() implies e.expires <= e.inserted + (
    #[trigger] e.answers[i]).ttl * 1000 by {
        assert(t <= m.answers[i].ttl);
    }
    assert forall|i: int| 0 <= i < e.authorities.len() implies e.expires <= e.inserted + (
    #[trigger] e.authorities[i]).ttl * 1000 by {
        assert(t <= m.authorities[i].ttl);
    }
}

impl Cache {
    spec fn pairs(s: Seq<Slot>) -> Seq<(KeyView, EntryView)> {
        s.map_values(|x: Slot| (x.key@, x.entry@))
    }

    /// The entries.
    pub closed spec fn view(&self) -> Map<KeyView, EntryView> {
        table::table(Self::pairs(self.slots@))
    }

    /// The limits.
    pub closed spec fn limits(&self) -> Limits {
        Limits { max_entries: self.max_entries, min_ttl: self.min_ttl, max_ttl: self.max_ttl }
    }

    /// The number of lookups that found an answer.
    pub closed spec fn hit_count(&self) -> u64 {
        self.hits
    }

    /// The number of lookups that found an answer which had expired.
    pub closed spec fn miss_count(&self) -> u64 {
        self.misses
    }

    /// No key occurs twice, there are no more entries than the limit allows, and
    /// every entry is sound.
    pub closed spec fn wf(&self) -> bool {
        &&& table::distinct(Self::pairs(self.slots@))
        &&& 1 <= self.max_entries
        &&& self.slots@.len() <= self.max_entries
        &&& forall|i: int| 0 <= i < self.slots@.len() ==> sound((#[trigger] self.slots@[i]).entry@)
    }

    /// Makes an empty cache. A limit of no entries at all is taken as one.
    pub fn new(max_entries: usize, min_ttl: u32, max_ttl: u32) -> (r: Cache)
        ensures
            r.wf(),
            r@ == Map::<KeyView, EntryView>::empty(),
            r.limits() == (Limits {
                max_entries: if max_entries == 0 {
                    1
                } else {
                    max_entries
                },
                min_ttl,
                max_ttl,
            }),
            r.hit_count() == 0,
            r.miss_count() == 0,
    {
        Cache {
            slots: Vec::new(),
            max_entries: if max_entries == 0 {
                1
            } else {
                max_entries
            },
            min_ttl,
            max_ttl,
            hits: 0,
            misses: 0,
        }
    }

    /// The number of entries.
    pub fn len(&self) -> (r: usize)
        requires
            self.wf(),
        ensures
            self@.dom().finite(),
            r == self@.dom().len(),
            r <= self.limits().max_entries,
    {
        proof {
            table::lemma_table(Self::pairs(self.slots@));
        }
        self.slots.len()
    }

    fn find(&self, key: &Key) -> (r: Option<usize>)
        requires
            self.wf(),
        ensures
            match r {
                Some(i) => i < self.slots@.len() && self.slots@[i as int].key@ == key@
                    && self@.contains_key(key@) && self@[key@] == self.slots@[i as int].entry@,
                None => !self@.contains_key(key@),
            },
    {
        let ghost p = Self::pairs(self.slots@);
        proof {
            table::lemma_table(p);
        }
        let mut i: usize = 0;
        while i < self.slots.len()
            invariant
                i <= self.slots@.len(),
                p == Self::pairs(self.slots@),
                self@ == table::table(p),
                forall|j: int|
                    0 <= j < p.len() ==> table::table(p).contains_key((#[trigger] p[j]).0)
                        && table::table(p)[p[j].0] == p[j].1,
                forall|j: int| 0 <= j < i ==> (#[trigger] p[j]).0 != key@,
            decreases self.slots@.len() - i,
        {
            assert(p[i as int] == (self.slots@[i as int].key@, self.slots@[i as int].entry@));
            if self.slots[i].key.is(key) {
                return Some(i);
            }
            i += 1;
        }
        None
    }

    fn take_out(&mut self, i: usize)
        requires
            old(self).wf(),
            i < old(self).slots@.len(),
        ensures
            final(self).wf(),
            final(self)@ == old(self)@.remove(old(self).slots@[i as int].key@),
            final(self).slots@ == old(self).slots@.update(
                i as int,
                old(self).slots@.last(),
            ).drop_last(),
            final(self).limits() == old(self).limits(),
            final(self).hit_count() == old(self).hit_count(),
            final(self).miss_count() == old(self).miss_count(),
    {
        let ghost p = Self::pairs(self.slots@);
        let _ = self.slots.swap_remove(i);
        proof {
            table::lemma_swap_remove(p, i as int);
            assert(Self::pairs(self.slots@) =~= p.update(i as int, p.last()).drop_last());
            assert(p[i as int].0 == old(self).slots@[i as int].key@);
        }
    }

    /// Looks up an answer. The TTL of each record is counted down by the time that
    /// the entry has spent in the cache. An entry that has expired is dropped.
    pub fn get(&mut self, key: &Key, now: u64) -> (r: Option<CachedAnswer>)
        requires
            old(self).wf(),
        ensures
            final(self).wf(),
            final(self).limits() == old(self).limits(),
            if !old(self)@.contains_key(key@) {
                &&& r is None
                &&& final(self)@ == old(self)@
                &&& final(self).hit_count() == old(self).hit_count()
                &&& final(self).miss_count() == old(self).miss_count()
            } else if old(self)@[key@].expires <= now {
                &&& r is None
                &&& final(self)@ == old(self)@.remove(key@)
                &&& final(self).hit_count() == old(self).hit_count()
                &&& final(self).miss_count() == old(self).miss_count().wrapping_add(1)
            } else {
                &&& r matches Some(a) && a@ == answer_of(old(self)@[key@], now)
                &&& sound(old(self)@[key@])
                &&& final(self)@ == old(self)@
                &&& final(self).hit_count() == old(self).hit_count().wrapping_add(1)
                &&& final(self).miss_count() == old(self).miss_count()
            },
    {
        let i: usize = match self.find(key) {
            Some(i) => i,
            None => {
                return None;
            },
        };
        if self.slots[i].entry.expires <= now {
            self.take_out(i);
            self.misses = self.misses.wrapping_add(1);
            return None;
        }
        let e = &self.slots[i].entry;
        let elapsed: u64 = if now < e.inserted {
            0
        } else {
            (now - e.inserted) / 1000
        };
        let answer = CachedAnswer {
            answers: age(&e.answers, elapsed),
            authorities: age(&e.authorities, elapsed),
            additionals: age(&e.additionals, elapsed),
            response_code: e.response_code,
            authoritative: e.authoritative,
        };
        self.hits = self.hits.wrapping_add(1);
        Some(answer)
    }

    /// Keeps an answer, or declines to: a transient failure, an answer without a
    /// TTL to go by, or one that lives too short. Tells which.
    pub fn insert(&mut self, key: Key, message: &Message, now: u64) -> (r: bool)
        requires
            old(self).wf(),
        ensures
            final(self).wf(),
            final(self).limits() == old(self).limits(),
            final(self).hit_count() == old(self).hit_count(),
            final(self).miss_count() == old(self).miss_count(),
            r == cacheable(message@, old(self).limits().min_ttl),
            stored(old(self)@, final(self)@, old(self).limits(), key@, message@, now),
    {
        let code: u16 = message.metadata.response_code;
        if code != NO_ERROR && code != NX_DOMAIN {
            return false;
        }
        let shortest = match min_ttl_of(
            &message.authorities,
            min_ttl_of(&message.answers, None),
        ) {
            Some(t) => t,
            None => {
                return false;
            },
        };
        if shortest == 0 || shortest < self.min_ttl {
            return false;
        }
        let lifetime: u32 = if shortest < self.max_ttl {
            shortest
        } else {
            self.max_ttl
        };
        proof {
            table::lemma_table(Self::pairs(self.slots@));
        }
        if self.slots.len() >= self.max_entries {
            self.evict(now);
        }
        let ghost room = self@;
        let entry = Entry {
            answers: message::clone_records(&message.answers),
            authorities: message::clone_records(&message.authorities),
            additionals: drop_opt(&message.additionals),
            response_code: code,
            authoritative: message.metadata.authoritative,
            inserted: now,
            expires: now.saturating_add(lifetime as u64 * 1000),
        };
        assert(entry@ =~= entry_of(message@, self.max_ttl, now));
        proof {
            lemma_entry_is_sound(message@, self.max_ttl, now);
            table::lemma_table(Self::pairs(self.slots@));
        }
        let ghost k = key@;
        match self.find(&key) {
            Some(i) => {
                let ghost p = Self::pairs(self.slots@);
                self.slots[i].entry = entry;
                proof {
                    table::lemma_update(p, i as int, entry@);
                    assert(Self::pairs(self.slots@) =~= p.update(i as int, (p[i as int].0, entry@)));
                }
            },
            None => {
                let ghost p = Self::pairs(self.slots@);
                self.slots.push(Slot { key, entry });
                proof {
                    table::lemma_push(p, k, entry@);
                    assert(Self::pairs(self.slots@) =~= p.push((k, entry@)));
                }
            },
        }
        assert(self@ == room.insert(k, entry_of(message@, old(self).limits().max_ttl, now)));
        true
    }

    /// Drops everything that has expired.
    pub fn sweep(&mut self, now: u64)
        requires
            old(self).wf(),
        ensures
            final(self).wf(),
            final(self).limits() == old(self).limits(),
            final(self).hit_count() == old(self).hit_count(),
            final(self).miss_count() == old(self).miss_count(),
            final(self)@ == live(old(self)@, now),
    {
        let ghost all = self@;
        let mut i: usize = 0;
        proof {
            assert(live(all, now).submap_of(self@));
        }
        while i < self.slots.len()
            invariant
                self.wf(),
                i <= self.slots@.len(),
                self.limits() == old(self).limits(),
                self.hits == old(self).hit_count(),
                self.misses == old(self).miss_count(),
                all == old(self)@,
                self@.submap_of(all),
                live(all, now).submap_of(self@),
                forall|j: int| 0 <= j < i ==> (#[trigger] self.slots@[j]).entry@.expires > now,
            decreases self.slots@.len() - i,
        {
            proof {
                table::lemma_table(Self::pairs(self.slots@));
                assert(Self::pairs(self.slots@)[i as int] == (
                    self.slots@[i as int].key@,
                    self.slots@[i as int].entry@,
                ));
            }
            if self.slots[i].entry.expires <= now {
                proof {
                    table::lemma_submap_remove(self@, all, self.slots@[i as int].key@);
                }
                self.take_out(i);
            } else {
                i += 1;
            }
        }
        proof {
            let p = Self::pairs(self.slots@);
            table::lemma_table(p);
            assert forall|k: KeyView| #[trigger] self@.contains_key(k) implies live(all, now).contains_key(k) by {
                let j = choose|j: int| 0 <= j < p.len() && (#[trigger] p[j]).0 == k;
                assert(p[j] == (self.slots@[j].key@, self.slots@[j].entry@));
            }
            assert(self@ =~= live(all, now));
        }
    }

    fn soonest(&self) -> (r: usize)
        requires
            self.slots@.len() > 0,
        ensures
            r < self.slots@.len(),
            forall|j: int|
                0 <= j < self.slots@.len() ==> self.slots@[r as int].entry@.expires <= (
                #[trigger] self.slots@[j]).entry@.expires,
    {
        let mut best: usize = 0;
        let mut i: usize = 1;
        while i < self.slots.len()
            invariant
                best < i <= self.slots@.len(),
                forall|j: int|
                    0 <= j < i ==> self.slots@[best as int].entry@.expires <= (
                    #[trigger] self.slots@[j]).entry@.expires,
            decreases self.slots@.len() - i,
        {
            if self.slots[i].entry.expires < self.slots[best].entry.expires {
                best = i;
            }
            i += 1;
        }
        best
    }

    /// Drops everything that has expired; if that frees nothing, drops the entries
    /// closest to expiry.
    fn evict(&mut self, now: u64)
        requires
            old(self).wf(),
            old(self).slots@.len() > 0,
        ensures
            final(self).wf(),
            final(self).limits() == old(self).limits(),
            final(self).hit_count() == old(self).hit_count(),
            final(self).miss_count() == old(self).miss_count(),
            made_room(old(self)@, final(self)@, now),
            final(self).slots@.len() < old(self).slots@.len(),
    {
        let before: usize = self.slots.len();
        let ghost all = self@;
        proof {
            table::lemma_table(Self::pairs(self.slots@));
        }
        self.sweep(now);
        proof {
            table::lemma_table(Self::pairs(self.slots@));
            if self@ != all {
                assert(self@.dom().subset_of(all.dom()));
                if self@.dom() == all.dom() {
                    assert(self@ =~= all);
                }
                vstd::set_lib::lemma_len_subset(self@.dom(), all.dom());
                if self@.dom().len() == all.dom().len() {
                    vstd::set_lib::lemma_subset_equality(self@.dom(), all.dom());
                }
            }
        }
        if self.slots.len() < before {
            return;
        }
        let target: usize = before / 10 + 1;
        let mut n: usize = 0;
        while n < target
            invariant
                self.wf(),
                self.limits() == old(self).limits(),
                self.hits == old(self).hit_count(),
                self.misses == old(self).miss_count(),
                n <= target == before / 10 + 1,
                0 < before,
                self.slots@.len() == before - n,
                all == old(self)@,
                self@.submap_of(all),
                forall|gone: KeyView, kept: KeyView|
                    all.contains_key(gone) && !self@.contains_key(gone) && self@.contains_key(kept)
                        ==> (#[trigger] all[gone]).expires <= (#[trigger] all[kept]).expires,
            decreases target - n,
        {
            let i: usize = self.soonest();
            let ghost p = Self::pairs(self.slots@);
            let ghost was = self@;
            let ghost k = self.slots@[i as int].key@;
            proof {
                table::lemma_table(p);
                assert(p[i as int] == (k, self.slots@[i as int].entry@));
            }
            let ghost slots = self.slots@;
            self.take_out(i);
            proof {
                table::lemma_submap_remove(was, all, k);
                assert forall|gone: KeyView, kept: KeyView|
                    all.contains_key(gone) && !self@.contains_key(gone) && self@.contains_key(
                        kept,
                    ) implies (#[trigger] all[gone]).expires <= (#[trigger] all[kept]).expires by {
                    assert(was.dom().contains(kept));
                    assert(all.dom().contains(kept));
                    let j = choose|j: int| 0 <= j < p.len() && (#[trigger] p[j]).0 == kept;
                    assert(p[j] == (slots[j].key@, slots[j].entry@));
                    assert(all[kept] == slots[j].entry@);
                    if gone == k {
                        assert(all[gone] == slots[i as int].entry@);
                    } else {
                        assert(!was.contains_key(gone));
                    }
                }
            }
            n += 1;
        }
        proof {
            table::lemma_table(Self::pairs(self.slots@));
            assert(live(all, now) == all);
        }
    }

    /// Forgets everything.
    pub fn clear(&mut self)
        requires
            old(self).wf(),
        ensures
            final(self).wf(),
            final(self).limits() == old(self).limits(),
            final(self).hit_count() == old(self).hit_count(),
            final(self).miss_count() == old(self).miss_count(),
            final(self)@ == Map::<KeyView, EntryView>::empty(),
    {
        self.slots.clear();
    }
}

/// The payload size to announce, given the client's and ours: the smaller one, but
/// never less than 512.
pub open spec fn agreed_payload(client: u16, ours: u16) -> u16 {
    let m = if client < ours {
        client
    } else {
        ours
    };
    if m < 512 {
        512
    } else {
        m
    }
}

/// The OPT record that a response carries, given the request's. A client that sent
/// none receives none.
pub open spec fn edns_reply(request: Option<EdnsView>, our_max_payload: u16) -> Option<EdnsView> {
    match request {
        None => None,
        Some(e) => Some(
            EdnsView {
                max_payload: agreed_payload(e.max_payload, our_max_payload),
                version: 0,
                dnssec_ok: e.dnssec_ok,
                z: 0,
                options: seq![],
            },
        ),
    }
}

/// Builds the OPT record that a response carries: with the size that we can
/// reassemble, and none of the client's options.
pub fn response_edns(request: &Message, our_max_payload: u16) -> (r: Option<Edns>)
    ensures
        message::edns_view(r) == edns_reply(request@.edns, our_max_payload),
{
    match &request.edns {
        None => None,
        Some(e) => {
            let smaller: u16 = if e.max_payload < our_max_payload {
                e.max_payload
            } else {
                our_max_payload
            };
            let options: Vec<u8> = Vec::new();
            assert(options@ =~= seq![]);
            Some(
                Edns {
                    max_payload: if smaller < 512 {
                        512
                    } else {
                        smaller
                    },
                    version: 0,
                    dnssec_ok: e.dnssec_ok,
                    z: 0,
                    options,
                },
            )
        },
    }
}

/// A cache only ever shortens a TTL, whatever the record and whenever it is read.
pub proof fn a_hit_never_extends_a_ttl(e: EntryView, now: u64, i: int)
    ensures
        0 <= i < e.answers.len() ==> answer_of(e, now).answers[i].ttl <= e.answers[i].ttl,
        0 <= i < e.authorities.len() ==> answer_of(e, now).authorities[i].ttl
            <= e.authorities[i].ttl,
        0 <= i < e.additionals.len() ==> answer_of(e, now).additionals[i].ttl
            <= e.additionals[i].ttl,
{
}

/// While an entry lives, each record of its answer and of its authorities has the
/// TTL that the authority granted less the seconds gone by, which is not yet zero.
pub proof fn a_live_record_is_counted_down_exactly(e: EntryView, now: u64, i: int)
    requires
        sound(e),
        e.inserted <= now < e.expires,
    ensures
        0 <= i < e.answers.len() ==> answer_of(e, now).answers[i].ttl == e.answers[i].ttl - seconds(
            e.inserted,
            now,
        ) && answer_of(e, now).answers[i].ttl >= 1,
        0 <= i < e.authorities.len() ==> answer_of(e, now).authorities[i].ttl
            == e.authorities[i].ttl - seconds(e.inserted, now) && answer_of(
            e,
            now,
        ).authorities[i].ttl >= 1,
{
    if 0 <= i < e.answers.len() {
        assert(e.expires <= e.inserted + e.answers[i].ttl * 1000);
        assert(seconds(e.inserted, now) < e.answers[i].ttl);
    }
    if 0 <= i < e.authorities.len() {
        assert(e.expires <= e.inserted + e.authorities[i].ttl * 1000);
        assert(seconds(e.inserted, now) < e.authorities[i].ttl);
    }
}

/// An answer read back within the second in which it was kept is the answer that
/// was kept: its records with their own TTLs, its status, and no OPT record.
pub proof fn a_get_returns_what_was_inserted(m: MessageView, max_ttl: u32, at: u64, now: u64)
    requires
        at <= now < at + 1000,
    ensures
        answer_of(entry_of(m, max_ttl, at), now) == (AnswerView {
            answers: m.answers,
            authorities: m.authorities,
            additionals: without_opt(m.additionals),
            response_code: m.metadata.response_code,
            authoritative: m.metadata.authoritative,
        }),
{
    let a = answer_of(entry_of(m, max_ttl, at), now);
    assert(aged(m.answers, 0) =~= m.answers);
    assert(aged(m.authorities, 0) =~= m.authorities);
    assert(aged(without_opt(m.additionals), 0) =~= without_opt(m.additionals));
}

/// What is kept for one key never changes what is kept for another: an entry under
/// another key is either the one that was there before, or gone to make room.
pub proof fn keys_are_kept_apart(
    before: Map<KeyView, EntryView>,
    room: Map<KeyView, EntryView>,
    key: KeyView,
    entry: EntryView,
    now: u64,
    other: KeyView,
)
    requires
        room == before || made_room(before, room, now),
        other != key,
        room.insert(key, entry).contains_key(other),
    ensures
        before.contains_key(other),
        room.insert(key, entry)[other] == before[other],
{
    assert(room.dom().contains(other));
    if room != before {
        assert(before.dom().contains(other));
    }
}

/// No entry is kept for longer than `max_ttl` seconds.
pub proof fn max_ttl_bounds_every_entry(m: MessageView, max_ttl: u32, now: u64)
    ensures
        entry_of(m, max_ttl, now).expires <= now + max_ttl * 1000,
{
}

/// An answer is kept if and only if it is a success or says that the name does not exist,
/// and it has a record, and none of its answers and authority records has a TTL of zero
/// or below the least that is kept.
pub proof fn what_is_worth_keeping(m: MessageView, min_ttl: u32)
    ensures
        cacheable(m, min_ttl) <==> {
            &&& m.metadata.response_code == 0 || m.metadata.response_code == 3
            &&& m.answers.len() + m.authorities.len() > 0
            &&& forall|i: int|
                0 <= i < m.answers.len() ==> 0 < (#[trigger] m.answers[i]).ttl && min_ttl
                    <= m.answers[i].ttl
            &&& forall|i: int|
                0 <= i < m.authorities.len() ==> 0 < (#[trigger] m.authorities[i]).ttl && min_ttl
                    <= m.authorities[i].ttl
        },
{
    lemma_shortest(m.answers, None);
    lemma_shortest(m.authorities, shortest(m.answers, None));
}

/// An entry holds the answer as it came, but for the OPT record, and lives exactly as long
/// as the shortest of its TTLs, or for `max_ttl` seconds.
pub proof fn an_entry_is_the_answer_as_it_came(m: MessageView, max_ttl: u32, now: u64)
    requires
        m.answers.len() + m.authorities.len() > 0,
    ensures
        ({
            let e = entry_of(m, max_ttl, now);
            let ms = e.expires - now;
            &&& e.answers == m.answers
            &&& e.authorities == m.authorities
            &&& e.additionals == m.additionals.filter(|r: RecordView| r.rtype != 41)
            &&& e.response_code == m.metadata.response_code
            &&& e.authoritative == m.metadata.authoritative
            &&& e.inserted == now
            &&& e.expires >= now
            &&& ms <= 1000 * max_ttl
            &&& forall|i: int|
                0 <= i < m.answers.len() ==> ms <= 1000 * (#[trigger] m.answers[i]).ttl
            &&& forall|i: int|
                0 <= i < m.authorities.len() ==> ms <= 1000 * (#[trigger] m.authorities[i]).ttl
            &&& {
                ||| e.expires == u64::MAX
                ||| ms == 1000 * max_ttl
                ||| exists|i: int|
                    0 <= i < m.answers.len() && ms == 1000 * (#[trigger] m.answers[i]).ttl
                ||| exists|i: int|
                    0 <= i < m.authorities.len() && ms == 1000 * (#[trigger] m.authorities[i]).ttl
            }
        }),
{
    let first = shortest(m.answers, None);
    lemma_shortest(m.answers, None);
    lemma_shortest(m.authorities, first);
    let t = shortest_ttl(m)->0;
    assert forall|i: int| 0 <= i < m.answers.len() implies t <= (#[trigger] m.answers[i]).ttl by {
        assert(first->0 <= m.answers[i].ttl);
    }
    lemma_only_opt_is_dropped(m.additionals);
}

/// What is dropped from the additional records is the OPT record, and nothing else.
pub proof fn lemma_only_opt_is_dropped(rs: Seq<RecordView>)
    ensures
        without_opt(rs) == rs.filter(|r: RecordView| r.rtype != 41),
    decreases rs.len(),
{
    reveal(Seq::filter);
    if rs.len() > 0 {
        lemma_only_opt_is_dropped(rs.drop_last());
    }
}

/// Records without an OPT record among them stay as they are.
pub proof fn lemma_without_opt_keeps(rs: Seq<RecordView>)
    requires
        forall|i: int| 0 <= i < rs.len() ==> (#[trigger] rs[i]).rtype != 41,
    ensures
        without_opt(rs) == rs,
    decreases rs.len(),
{
    if rs.len() > 0 {
        assert forall|i: int| 0 <= i < rs.len() - 1 implies (
        #[trigger] rs.drop_last()[i]).rtype != 41 by {
            assert(rs.drop_last()[i] == rs[i]);
        }
        assert(rs[rs.len() - 1].rtype != 41);
        lemma_without_opt_keeps(rs.drop_last());
        assert(rs.drop_last().push(rs.last()) =~= rs);
    }
}

/// A hit gives every record of the entry, in order and with its own data. Only the TTL is
/// another one: what is left of it after the whole seconds since the entry was made.
pub proof fn a_hit_changes_nothing_but_ttls(e: EntryView, now: u64, i: int)
    ensures
        ({
            let a = answer_of(e, now);
            let gone = if now < e.inserted {
                0
            } else {
                (now - e.inserted) / 1000
            };
            &&& a.response_code == e.response_code
            &&& a.authoritative == e.authoritative
            &&& a.answers.len() == e.answers.len()
            &&& a.authorities.len() == e.authorities.len()
            &&& a.additionals.len() == e.additionals.len()
            &&& 0 <= i < e.answers.len() ==> same_but_older(e.answers[i], a.answers[i], gone)
            &&& 0 <= i < e.authorities.len() ==> same_but_older(
                e.authorities[i],
                a.authorities[i],
                gone,
            )
            &&& 0 <= i < e.additionals.len() ==> same_but_older(
                e.additionals[i],
                a.additionals[i],
                gone,
            )
        }),
{
}

/// `b` is `a` some seconds later.
pub open spec fn same_but_older(a: RecordView, b: RecordView, gone: int) -> bool {
    &&& b.name == a.name
    &&& b.rtype == a.rtype
    &&& b.class == a.class
    &&& b.rdata == a.rdata
    &&& b.ttl == a.ttl - gone || b.ttl == 0 && gone > a.ttl
}

/// Two requests share an entry if and only if they ask for the same name, type and class,
/// and agree on whether they want DNSSEC records and whether they check them.
pub proof fn requests_share_an_entry_when_they_ask_the_same(
    a: MessageView,
    b: MessageView,
    name_a: Seq<char>,
    name_b: Seq<char>,
)
    requires
        a.queries.len() > 0,
        b.queries.len() > 0,
    ensures
        key_of(a, name_a) is Some,
        key_of(a, name_a) == key_of(b, name_b) <==> {
            &&& name_a == name_b
            &&& a.queries[0].qtype == b.queries[0].qtype
            &&& a.queries[0].qclass == b.queries[0].qclass
            &&& a.metadata.checking_disabled == b.metadata.checking_disabled
            &&& (a.edns is Some && a.edns->0.dnssec_ok) == (b.edns is Some && b.edns->0.dnssec_ok)
        },
{
    if name_a == name_b && a.queries[0].qtype == b.queries[0].qtype && a.queries[0].qclass
        == b.queries[0].qclass && a.metadata.checking_disabled == b.metadata.checking_disabled && (
    a.edns is Some && a.edns->0.dnssec_ok) == (b.edns is Some && b.edns->0.dnssec_ok) {
        assert(key_of(a, name_a)->0 =~= key_of(b, name_b)->0);
    }
}

/// After an answer that is worth keeping was kept, its key leads to it, and the cache holds
/// no more than it may. It gave up what had expired, and if nothing had, no more than a
/// tenth and one; what went would have expired no later than what stayed. A cache that is
/// not full gives up nothing.
pub proof fn room_is_made_by_the_oldest(
    before: Map<KeyView, EntryView>,
    after: Map<KeyView, EntryView>,
    limits: Limits,
    key: KeyView,
    m: MessageView,
    now: u64,
)
    requires
        stored(before, after, limits, key, m, now),
        cacheable(m, limits.min_ttl),
        before.dom().finite(),
        before.dom().len() <= limits.max_entries,
        limits.max_entries > 0,
    ensures
        after.contains_key(key),
        after[key] == entry_of(m, limits.max_ttl, now),
        after.dom().finite(),
        after.dom().len() <= limits.max_entries,
        forall|k: KeyView|
            k != key && #[trigger] after.contains_key(k) ==> before.contains_key(k) && after[k]
                == before[k],
        before.dom().len() < limits.max_entries ==> forall|k: KeyView|
            #[trigger] before.contains_key(k) ==> after.contains_key(k),
        before.dom().len() == limits.max_entries ==> {
            ||| forall|k: KeyView|
                k != key ==> (#[trigger] after.contains_key(k) <==> before.contains_key(k)
                    && before[k].expires > now)
            ||| {
                &&& after.dom().len() >= before.dom().len() - before.dom().len() / 10 - 1
                &&& after.dom().len() <= before.dom().len() - before.dom().len() / 10
                &&& forall|gone: KeyView, kept: KeyView|
                    before.contains_key(gone) && !after.contains_key(gone) && kept != key
                        && after.contains_key(kept) ==> (#[trigger] before[gone]).expires <= (
                    #[trigger] before[kept]).expires
            }
        },
{
    let entry = entry_of(m, limits.max_ttl, now);
    let room = choose|room: Map<KeyView, EntryView>|
        {
            &&& if before.dom().len() < limits.max_entries {
                room == before
            } else {
                made_room(before, room, now)
            }
            &&& after == #[trigger] room.insert(key, entry)
        };
    assert(after.dom() =~= room.dom().insert(key));
    assert(room.dom().subset_of(before.dom())) by {
        assert forall|k: KeyView| room.dom().contains(k) implies before.dom().contains(k) by {
            if before.dom().len() == limits.max_entries && live(before, now) == before {
                assert(room.submap_of(before));
            }
        }
    }
    vstd::set_lib::lemma_len_subset(room.dom(), before.dom());
    if before.dom().len() == limits.max_entries {
        if live(before, now) != before {
            if room.dom() =~= before.dom() {
                assert(room =~= before);
            }
            let lost = choose|k: KeyView| before.dom().contains(k) && !room.dom().contains(k);
            assert(before.dom().contains(lost) && !room.dom().contains(lost));
            vstd::set_lib::lemma_len_subset(room.dom(), before.dom().remove(lost));
        }
    }
}

/// What has expired is swept out, and nothing else.
pub proof fn only_what_has_expired_is_swept_out(m: Map<KeyView, EntryView>, now: u64, k: KeyView)
    ensures
        live(m, now).contains_key(k) <==> m.contains_key(k) && now < m[k].expires,
        live(m, now).contains_key(k) ==> live(m, now)[k] == m[k],
{
}

} // verus!
