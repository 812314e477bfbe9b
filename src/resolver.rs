//! Iterative resolution as a state machine: each step takes what came back
//! from the network (or from a sub-resolution) and says what to do next.
use vstd::prelude::*;
use vstd::multiset::Multiset;
use vstd::string::*;

use crate::cache::{lemma_insert_all_keeps_owners, lemma_insert_keeps_owners, lookup, Cache};
use crate::error::DnsError;
use crate::header::{Flags, Header};
use crate::host::{Host, IpAddress};
use crate::message::{parse_message, records_view, Message, MessageView};
use crate::name::{subdomains, Name};
use crate::ns_queue::{pop_result, root_hosts, NsQueue};
use crate::question::Question;
use crate::rdata::{RecordData, RecordDataView};
use crate::record::{RecordView, ResourceRecord};
use crate::record_type::{type_code, RecordType};

verus! {

/// How deep sub-resolutions (of aliases and of nameservers without glue) may nest.
pub const MAX_DEPTH: usize = 16;

/// The port that nameservers answer on.
pub const DNS_PORT: u16 = 53;

/// The position of the first record of type `t` in `rs` from `i` on, or -1.
pub open spec fn first_of_type(rs: Seq<RecordView>, t: u16, i: int) -> int
    decreases rs.len() - i,
{
    if i < 0 || i >= rs.len() {
        -1
    } else if rs[i].1 == t {
        i
    } else {
        first_of_type(rs, t, i + 1)
    }
}

/// The records of `rs` with type `t` and owner `owner`, in order.
pub open spec fn owned_of_type(rs: Seq<RecordView>, t: u16, owner: Seq<char>) -> Seq<RecordView>
    decreases rs.len(),
{
    if rs.len() == 0 {
        seq![]
    } else if rs.last().1 == t && rs.last().0 == owner {
        owned_of_type(rs.drop_last(), t, owner).push(rs.last())
    } else {
        owned_of_type(rs.drop_last(), t, owner)
    }
}

/// Whether `rs` holds a delegation: a record with nameserver data.
pub open spec fn has_delegation(rs: Seq<RecordView>) -> bool {
    exists|i: int| 0 <= i < rs.len() && #[trigger] rs[i].4 is Ns
}

proof fn lemma_first_of_type(rs: Seq<RecordView>, t: u16, i: int)
    requires
        0 <= i,
    ensures
        first_of_type(rs, t, i) == -1 || (i <= first_of_type(rs, t, i) < rs.len() && rs[first_of_type(rs, t, i)].1 == t),
    decreases rs.len() - i,
{
    if i < rs.len() && rs[i].1 != t {
        lemma_first_of_type(rs, t, i + 1);
    }
}

/// The first record of type `t`, if there is one.
pub fn find_first_of_type(rs: &Vec<ResourceRecord>, t: u16) -> (r: Option<usize>)
    ensures
        first_of_type(records_view(rs@), t, 0) < 0 <==> r is None,
        r matches Some(i) ==> i < rs@.len() && rs@[i as int].type_ == t && i as int == first_of_type(
            records_view(rs@),
            t,
            0,
        ),
{
    let ghost rv = records_view(rs@);
    let mut i: usize = 0;
    while i < rs.len()
        invariant
            rv == records_view(rs@),
            i <= rs@.len(),
            first_of_type(rv, t, 0) == first_of_type(rv, t, i as int),
        decreases rs@.len() - i,
    {
        if rs[i].type_ == t {
            return Some(i);
        }
        i = i + 1;
    }
    None
}

proof fn lemma_owned_nonempty(rs: Seq<RecordView>, t: u16, p: int)
    requires
        0 <= p < rs.len(),
        rs[p].1 == t,
    ensures
        owned_of_type(rs, t, rs[p].0).len() >= 1,
    decreases rs.len(),
{
    if p < rs.len() - 1 {
        assert(rs.drop_last()[p] == rs[p]);
        lemma_owned_nonempty(rs.drop_last(), t, p);
    }
}

/// Copies of the records of type `t` whose owner is `owner`, in order.
pub fn records_owned_of_type(rs: &Vec<ResourceRecord>, t: u16, owner: &Name) -> (r: Vec<ResourceRecord>)
    ensures
        records_view(r@) == owned_of_type(records_view(rs@), t, owner@),
{
    let ghost rv = records_view(rs@);
    let mut out: Vec<ResourceRecord> = Vec::new();
    let mut i: usize = 0;
    while i < rs.len()
        invariant
            rv == records_view(rs@),
            i <= rs@.len(),
            records_view(out@) == owned_of_type(rv.subrange(0, i as int), t, owner@),
        decreases rs@.len() - i,
    {
        assert(rv.subrange(0, i + 1).drop_last() =~= rv.subrange(0, i as int));
        if rs[i].type_ == t && rs[i].name == *owner {
            let ghost before = records_view(out@);
            out.push(rs[i].clone());
            assert(records_view(out@) =~= before.push(rv[i as int]));
        }
        i = i + 1;
    }
    assert(rv.subrange(0, i as int) =~= rv);
    out
}

/// The first IPv4 and the first IPv6 address that `rs` gives for `name`.
pub open spec fn addresses_for(rs: Seq<RecordView>, name: Seq<char>) -> (Option<Seq<u8>>, Option<Seq<u8>>)
    decreases rs.len(),
{
    if rs.len() == 0 {
        (None, None)
    } else {
        let rest = addresses_for(rs.drop_first(), name);
        let r = rs[0];
        if r.0 == name {
            match r.4 {
                RecordDataView::A(a) => (Some(a), rest.1),
                RecordDataView::Aaaa(a) => (rest.0, Some(a)),
                _ => rest,
            }
        } else {
            rest
        }
    }
}

/// The addresses that `rs` gives for `name`: its first A and first AAAA record.
pub fn find_addresses(rs: &Vec<ResourceRecord>, name: &Name) -> (r: (Option<[u8; 4]>, Option<[u8; 16]>))
    ensures
        (opt_v4(r.0), opt_v6(r.1)) == addresses_for(records_view(rs@), name@),
{
    let ghost rv = records_view(rs@);
    let mut v4: Option<[u8; 4]> = None;
    let mut v6: Option<[u8; 16]> = None;
    let mut i: usize = rs.len();
    assert(rv.subrange(i as int, rv.len() as int) =~= Seq::<RecordView>::empty());
    while i > 0
        invariant
            rv == records_view(rs@),
            i <= rs@.len(),
            (opt_v4(v4), opt_v6(v6)) == addresses_for(rv.subrange(i as int, rv.len() as int), name@),
        decreases i,
    {
        let ghost tail = rv.subrange(i - 1, rv.len() as int);
        assert(tail.drop_first() =~= rv.subrange(i as int, rv.len() as int));
        assert(tail[0] == rv[i - 1]);
        let rr = &rs[i - 1];
        if rr.name == *name {
            match &rr.data {
                RecordData::A(a) => {
                    v4 = Some(*a);
                },
                RecordData::Aaaa(a) => {
                    v6 = Some(*a);
                },
                _ => {},
            }
        }
        i = i - 1;
    }
    assert(rv.subrange(0, rv.len() as int) =~= rv);
    (v4, v6)
}

pub open spec fn opt_v4(a: Option<[u8; 4]>) -> Option<Seq<u8>> {
    crate::host::opt_v4_view(a)
}

pub open spec fn opt_v6(a: Option<[u8; 16]>) -> Option<Seq<u8>> {
    crate::host::opt_v6_view(a)
}

/// Copies of records, in order.
pub fn copy_records(rs: &Vec<ResourceRecord>) -> (r: Vec<ResourceRecord>)
    ensures
        records_view(r@) == records_view(rs@),
{
    let mut out: Vec<ResourceRecord> = Vec::new();
    let mut i: usize = 0;
    while i < rs.len()
        invariant
            i <= rs@.len(),
            records_view(out@) == records_view(rs@).subrange(0, i as int),
        decreases rs@.len() - i,
    {
        let ghost before = records_view(out@);
        let c = rs[i].clone();
        out.push(c);
        assert(records_view(out@) =~= before.push(c@));
        assert(records_view(out@) =~= records_view(rs@).subrange(0, i + 1));
        i = i + 1;
    }
    assert(records_view(rs@).subrange(0, i as int) =~= records_view(rs@));
    out
}

/// What the driver of a resolution hands to `step`.
pub enum Event {
    /// The resolution begins.
    Start,
    /// A datagram came back from the nameserver last queried.
    Reply(Vec<u8>),
    /// Nothing usable came back in time, or sending failed.
    NoReply,
    /// The outcome of the sub-resolution that `Action::Resolve` asked for.
    Resolved(Result<Vec<ResourceRecord>, DnsError>),
}

/// What the driver of a resolution is to do next.
pub enum Action {
    /// Send `bytes` to `ip` on `port` and report the reply.
    Query { ip: IpAddress, port: u16, bytes: Vec<u8> },
    /// Keep waiting for a reply to the last query.
    Listen,
    /// Resolve this question at one more level of depth and report the outcome.
    Resolve(Question),
    /// The candidate taken cannot be used: step again with `NoReply`.
    Skip,
    /// The resolution is over.
    Done(Result<Vec<ResourceRecord>, DnsError>),
}

enum Pending {
    Nothing,
    Nameserver { name: Name, level: usize },
    Alias,
}

/// One iterative resolution in progress.
pub struct Resolution {
    question: Question,
    id: u16,
    query: Vec<u8>,
    queue: NsQueue,
    response: Vec<ResourceRecord>,
    pending: Pending,
    depth: usize,
}

/// Relies on `rand::random::<u16>`: any 16-bit value.
#[verifier::external_body]
fn random_id() -> u16 {
    rand::random::<u16>()
}

/// The wire form of a query: a header with `id` and default flags, and `question`.
pub open spec fn query_view(id: u16, q: (Seq<char>, RecordType, u16)) -> MessageView {
    (
        Header {
            id,
            flags: Flags(0),
            num_questions: 1,
            num_answers: 0,
            num_authorities: 0,
            num_additionals: 0,
        },
        seq![q],
        seq![],
        seq![],
        seq![],
    )
}

/// Whether a query can be written does not depend on its id.
pub proof fn lemma_query_writable_any_id(a: u16, b: u16, q: (Seq<char>, RecordType, u16))
    ensures
        crate::message::message_wire(query_view(a, q)) is Some <==> crate::message::message_wire(
            query_view(b, q),
        ) is Some,
{
}

impl Resolution {
    pub closed spec fn wf(&self) -> bool {
        self.queue.wf()
    }

    pub closed spec fn id_spec(&self) -> u16 {
        self.id
    }

    pub closed spec fn question_spec(&self) -> (Seq<char>, RecordType, u16) {
        self.question@
    }

    pub closed spec fn query_spec(&self) -> Seq<u8> {
        self.query@
    }

    pub closed spec fn depth_spec(&self) -> usize {
        self.depth
    }

    /// The records gathered so far (the aliases followed).
    pub closed spec fn response_spec(&self) -> Seq<RecordView> {
        records_view(self.response@)
    }

    pub closed spec fn queue_spec(&self) -> NsQueue {
        self.queue
    }

    /// The message a resolution sends to each nameserver.
    pub fn build_query(question: &Question, id: u16) -> (r: Message)
        ensures
            r@ == query_view(id, question@),
    {
        let mut m = Message::new(Header::new(id, Flags::new()));
        m.add_question(question.clone());
        assert(m@.1 =~= seq![question@]);
        m
    }
}

impl Resolution {
    /// A candidate nameserver for the queue: kept when it has an address, or
    /// when it can still be resolved by name at this depth.
    fn add_candidate(&mut self, name: &Name, v4: Option<[u8; 4]>, v6: Option<[u8; 16]>, level: usize)
        requires
            old(self).wf(),
        ensures
            final(self).wf(),
            forall|l: int, res: bool|
                l != level ==> #[trigger] final(self).queue.pool(l, res) == old(self).queue.pool(l, res),
            candidate_added(
                old(self).queue,
                final(self).queue,
                (Some(name@), opt_v4(v4), opt_v6(v6)),
                level as int,
                old(self).depth,
            ),
            final(self).pending == old(self).pending,
            final(self).id_spec() == old(self).id_spec(),
            final(self).question_spec() == old(self).question_spec(),
            final(self).query_spec() == old(self).query_spec(),
            final(self).depth_spec() == old(self).depth_spec(),
            final(self).response_spec() == old(self).response_spec(),
    {
        let short = name.as_str().as_bytes().len() <= 253;
        let n = name.clone();
        match Host::new(Some(n), v4, v6) {
            Some(host) => {
                if host.resolved() || (self.depth < MAX_DEPTH && short) {
                    self.queue.insert(host, level);
                }
            },
            None => {},
        }
    }

    /// Candidates for the zones that the cache knows, from the top-level
    /// domain down to the name itself.
    fn prime(&mut self, cache: &Cache)
        requires
            old(self).wf(),
        ensures
            final(self).wf(),
            forall|res: bool| #[trigger] final(self).queue.pool(0, res) == old(self).queue.pool(0, res),
            offers_applied(
                old(self).queue,
                final(self).queue,
                prime_offers(cache@, subdomains(old(self).question@.0)),
                old(self).depth,
            ),
            final(self).id_spec() == old(self).id_spec(),
            final(self).question_spec() == old(self).question_spec(),
            final(self).query_spec() == old(self).query_spec(),
            final(self).depth_spec() == old(self).depth_spec(),
            final(self).response_spec() == old(self).response_spec(),
    {
        let subs = self.question.name.iter_subdomains();
        let ghost s0 = *self;
        let ghost all = subdomains(s0.question@.0);
        let ghost c = cache@;
        let ghost mut offers: Seq<(crate::host::HostView, int)> = seq![];
        let ghost mut qs: Seq<NsQueue> = seq![self.queue];
        let n = subs.len();
        let mut k: usize = 0;
        assert(all.subrange(0, 0) =~= Seq::<Seq<char>>::empty());
        while k < n
            invariant
                n == subs@.len(),
                k <= subs@.len(),
                all == subdomains(s0.question@.0),
                all.len() == subs@.len(),
                forall|x: int| 0 <= x < subs@.len() ==> #[trigger] subs@[x]@ == all[x],
                c == cache@,
                offers == prime_offers(c, all.subrange(0, k as int)),
                offers_chain(qs, offers, s0.depth),
                qs[0] == s0.queue,
                qs.last() == self.queue,
                self.depth == s0.depth,
                self.question@ == s0.question@,
                self.wf(),
                self.id_spec() == s0.id_spec(),
                self.question_spec() == s0.question_spec(),
                self.query_spec() == s0.query_spec(),
                self.depth_spec() == s0.depth_spec(),
                self.response_spec() == s0.response_spec(),
                forall|res: bool| #[trigger] self.queue.pool(0, res) == s0.queue.pool(0, res),
            decreases subs@.len() - k,
        {
            let zone = Name::new(subs[k].as_str());
            let ns_records = cache.get_records_by_type(&zone, RecordType::Ns);
            let ghost rs = records_view(ns_records@);
            let ghost base = offers;
            assert(rs == zone_ns(c, all[k as int]));
            assert(rs.subrange(0, 0) =~= Seq::<RecordView>::empty());
            assert(base + zone_offers(c, rs.subrange(0, 0), k + 1) =~= base);
            let mut j: usize = 0;
            while j < ns_records.len()
                invariant
                    j <= ns_records@.len(),
                    k < n,
                    rs == records_view(ns_records@),
                    c == cache@,
                    offers == base + zone_offers(c, rs.subrange(0, j as int), k + 1),
                    offers_chain(qs, offers, s0.depth),
                    qs[0] == s0.queue,
                    qs.last() == self.queue,
                    self.depth == s0.depth,
                    self.question@ == s0.question@,
                    self.wf(),
                    self.id_spec() == s0.id_spec(),
                    self.question_spec() == s0.question_spec(),
                    self.query_spec() == s0.query_spec(),
                    self.depth_spec() == s0.depth_spec(),
                    self.response_spec() == s0.response_spec(),
                    forall|res: bool| #[trigger] self.queue.pool(0, res) == s0.queue.pool(0, res),
                decreases ns_records@.len() - j,
            {
                let ghost prev = zone_offers(c, rs.subrange(0, j as int), k + 1);
                assert(rs.subrange(0, j + 1).drop_last() =~= rs.subrange(0, j as int));
                assert(rs[j as int] == ns_records@[j as int]@);
                match &ns_records[j].data {
                    RecordData::Ns(ns_name) => {
                        let (v4, v6) = match cache.get_record_set(ns_name) {
                            Some(set) => find_addresses(set, ns_name),
                            None => (None, None),
                        };
                        let ghost q_before = self.queue;
                        self.add_candidate(ns_name, v4, v6, k + 1);
                        proof {
                            let off = ((Some(ns_name@), opt_v4(v4), opt_v6(v6)), (k + 1) as int);
                            assert(off.0 == (Some(ns_name@), cached_addresses(c, ns_name@).0, cached_addresses(c, ns_name@).1));
                            assert(zone_offers(c, rs.subrange(0, j + 1), k + 1) == prev.push(off));
                            let offers2 = offers.push(off);
                            let qs2 = qs.push(self.queue);
                            assert(base + prev.push(off) =~= offers2);
                            assert forall|i: int| 0 <= i < offers2.len() implies candidate_added(
                                #[trigger] qs2[i],
                                qs2[i + 1],
                                offers2[i].0,
                                offers2[i].1,
                                s0.depth,
                            ) by {
                                if i < offers.len() {
                                    assert(qs2[i] == qs[i] && qs2[i + 1] == qs[i + 1] && offers2[i] == offers[i]);
                                }
                            }
                            offers = offers2;
                            qs = qs2;
                        }
                    },
                    _ => {
                        assert(zone_offers(c, rs.subrange(0, j + 1), k + 1) == prev);
                    },
                }
                j = j + 1;
            }
            proof {
                assert(rs.subrange(0, j as int) =~= rs);
                assert(all.subrange(0, k + 1).drop_last() =~= all.subrange(0, k as int));
                assert(all.subrange(0, k + 1).last() == all[k as int]);
            }
            k = k + 1;
        }
        proof {
            assert(all.subrange(0, k as int) =~= all);
        }
    }

    /// A resolution of `question` at sub-resolution depth `depth`, with
    /// query id `id`, its queue seeded with the root servers and primed
    /// from the cache. Fails when the question cannot be written.
    pub fn new(question: Question, id: u16, depth: usize, cache: &Cache) -> (r: Result<Resolution, DnsError>)
        ensures
            crate::message::message_wire(query_view(id, question@)) matches Some(w) ==> (r matches Ok(x)
                && x.wf() && x.id_spec() == id && x.question_spec() == question@ && x.query_spec()
                == w && x.depth_spec() == depth && x.response_spec() == Seq::<RecordView>::empty()
                && crate::ns_queue::holds_roots(x.queue_spec().pool(0, true)) && x.queue_spec().pool(
                0,
                false,
            ).len() == 0 && primed(x.queue_spec(), cache@, question@.0, depth)),
            crate::message::message_wire(query_view(id, question@)) is None ==> (r matches Err(e) && e
                == DnsError::FormatError),
    {
        let query = match Resolution::build_query(&question, id).to_bytes() {
            Ok(b) => b,
            Err(e) => {
                return Err(e);
            },
        };
        let mut res = Resolution {
            question,
            id,
            query,
            queue: NsQueue::seeded(),
            response: Vec::new(),
            pending: Pending::Nothing,
            depth,
        };
        assert(records_view(res.response@) =~= Seq::<RecordView>::empty());
        let ghost q0 = res.queue;
        res.prime(cache);
        assert(seeded_state(q0) && offers_applied(
            q0,
            res.queue,
            prime_offers(cache@, subdomains(res.question@.0)),
            depth,
        ));
        Ok(res)
    }

    /// A resolution with a fresh random query id. It is made exactly when the
    /// question can be written in a query (whatever the id).
    pub fn start(question: Question, depth: usize, cache: &Cache) -> (r: Result<Resolution, DnsError>)
        ensures
            (r is Ok) <==> crate::message::message_wire(query_view(0, question@)) is Some,
            r matches Ok(x) ==> x.wf() && x.question_spec() == question@ && x.depth_spec() == depth
                && x.response_spec() == Seq::<RecordView>::empty() && crate::message::message_wire(
                query_view(x.id_spec(), question@),
            ) == Some(x.query_spec()) && crate::ns_queue::holds_roots(x.queue_spec().pool(0, true))
                && x.queue_spec().pool(0, false).len() == 0 && primed(x.queue_spec(), cache@, question@.0, depth),
            r matches Err(e) ==> e == DnsError::FormatError,
    {
        let id = random_id();
        proof {
            lemma_query_writable_any_id(id, 0, question@);
        }
        Resolution::new(question, id, depth, cache)
    }

    /// The next candidate to ask: a query to a host with an address, or a
    /// sub-resolution of a host known only by name.
    fn next_hop(&mut self) -> (a: Action)
        requires
            old(self).wf(),
        ensures
            final(self).wf(),
            final(self).id_spec() == old(self).id_spec(),
            final(self).question_spec() == old(self).question_spec(),
            final(self).query_spec() == old(self).query_spec(),
            final(self).depth_spec() == old(self).depth_spec(),
            final(self).response_spec() == old(self).response_spec(),
            next_hop_action(
                old(self).queue_spec(),
                final(self).queue_spec(),
                old(self).query_spec(),
                old(self).depth_spec(),
                a,
            ),
            a matches Action::Resolve(nq) ==> final(self).awaits_nameserver() && final(self).pending_name()
                == nq@.0 && final(self).pending_level() == final(self).queue_spec().top(),
            !(a is Resolve) ==> final(self).pending == old(self).pending,
    {
        match self.queue.pop() {
            None => Action::Done(Err(DnsError::ServerFailure(String::from_str("no nameserver left to ask")))),
            Some(host) => {
                match host.get_ip() {
                    Some(ip) => {
                        Action::Query { ip, port: DNS_PORT, bytes: vstd::slice::slice_to_vec(self.query.as_slice()) }
                    },
                    None => match host.name() {
                        Some(n) => {
                            if self.depth >= MAX_DEPTH {
                                return Action::Skip;
                            }
                            let level = self.queue.top_level();
                            match Question::new(n.clone(), RecordType::A) {
                                Ok(q) => {
                                    self.pending = Pending::Nameserver { name: n.clone(), level };
                                    Action::Resolve(q)
                                },
                                Err(_) => Action::Skip,
                            }
                        },
                        None => Action::Skip,
                    },
                }
            },
        }
    }
}

/// What offering a nameserver to the queue does: a host with an address, or
/// one known by a name of at most 253 octets while sub-resolutions may still
/// nest, is inserted at `level`; any other leaves the queue as it was.
pub open spec fn candidate_added(q: NsQueue, q2: NsQueue, h: crate::host::HostView, level: int, depth: usize) -> bool {
    if crate::host::is_resolved(h) || (depth < MAX_DEPTH && vstd::utf8::encode_utf8(h.0->Some_0).len() <= 253) {
        crate::ns_queue::insert_result(q, q2, h, level)
    } else {
        q2 == q
    }
}

/// The addresses that the cache holds for `t`.
pub open spec fn cached_addresses(c: crate::cache::CacheView, t: Seq<char>) -> (Option<Seq<u8>>, Option<Seq<u8>>) {
    addresses_for(
        match lookup(c, t) {
            Some(s) => s,
            None => seq![],
        },
        t,
    )
}

/// The nameserver records that the cache holds for `zone`.
pub open spec fn zone_ns(c: crate::cache::CacheView, zone: Seq<char>) -> Seq<RecordView> {
    crate::cache::of_type(
        match lookup(c, zone) {
            Some(s) => s,
            None => seq![],
        },
        2,
    )
}

/// The hosts that nameserver records `rs` offer at `level`, with the
/// addresses the cache holds for them.
pub open spec fn zone_offers(c: crate::cache::CacheView, rs: Seq<RecordView>, level: int) -> Seq<
    (crate::host::HostView, int),
>
    decreases rs.len(),
{
    if rs.len() == 0 {
        seq![]
    } else {
        let prev = zone_offers(c, rs.drop_last(), level);
        match rs.last().4 {
            RecordDataView::Ns(t) => prev.push(
                ((Some(t), cached_addresses(c, t).0, cached_addresses(c, t).1), level),
            ),
            _ => prev,
        }
    }
}

/// The hosts the cache offers for the zones `subs`, the zone at position `k`
/// at level `k + 1`, in order.
pub open spec fn prime_offers(c: crate::cache::CacheView, subs: Seq<Seq<char>>) -> Seq<
    (crate::host::HostView, int),
>
    decreases subs.len(),
{
    if subs.len() == 0 {
        seq![]
    } else {
        prime_offers(c, subs.drop_last()) + zone_offers(c, zone_ns(c, subs.last()), subs.len() as int)
    }
}

/// Whether `qs` are the queues after each offer in turn.
pub open spec fn offers_chain(qs: Seq<NsQueue>, offers: Seq<(crate::host::HostView, int)>, depth: usize) -> bool {
    &&& qs.len() == offers.len() + 1
    &&& forall|i: int|
        0 <= i < offers.len() ==> candidate_added(#[trigger] qs[i], qs[i + 1], offers[i].0, offers[i].1, depth)
}

/// Whether `q2` is `q` after each offer in turn.
pub open spec fn offers_applied(q: NsQueue, q2: NsQueue, offers: Seq<(crate::host::HostView, int)>, depth: usize) -> bool {
    exists|qs: Seq<NsQueue>| #[trigger] offers_chain(qs, offers, depth) && qs[0] == q && qs.last() == q2
}

/// Whether `q` is a queue of the root servers at level 0 after the hosts that
/// the cache offers for each zone of `qname` were offered.
pub open spec fn primed(q: NsQueue, c: crate::cache::CacheView, qname: Seq<char>, depth: usize) -> bool {
    exists|q0: NsQueue|
        seeded_state(q0) && #[trigger] offers_applied(q0, q, prime_offers(c, subdomains(qname)), depth)
}

/// Whether `q` holds exactly the root servers, at level 0.
pub open spec fn seeded_state(q: NsQueue) -> bool {
    &&& q.wf()
    &&& q.top() == 0
    &&& crate::ns_queue::holds_roots(q.pool(0, true))
    &&& forall|l: int, res: bool|
        (l != 0 || !res) ==> #[trigger] q.pool(l, res) == Multiset::<crate::host::HostView>::empty()
}

/// The actions that taking the next candidate can give: a query carrying
/// the resolution's query to port 53 of the address of a host popped from
/// the queue, a sub-resolution of the A record of a host popped without an
/// address (only below the depth limit), a skip, or failure once the queue
/// holds no host.
pub open spec fn next_hop_action(q: NsQueue, q2: NsQueue, query: Seq<u8>, depth: usize, a: Action) -> bool {
    match a {
        Action::Query { ip, port, bytes } => port == 53 && bytes@ == query && exists|h: crate::host::HostView|
            pop_result(q, q2, Some(h)) && match ip {
                IpAddress::V4(x) => h.1 == Some(x@),
                IpAddress::V6(x) => h.1 is None && h.2 == Some(x@),
            },
        Action::Resolve(nq) => depth < MAX_DEPTH && nq@.1 == RecordType::A && nq@.2 == 1 && pop_result(
            q,
            q2,
            Some((Some(nq@.0), None, None)),
        ),
        Action::Skip => exists|h: crate::host::HostView| pop_result(q, q2, Some(h)),
        Action::Done(Err(DnsError::ServerFailure(_))) => pop_result(q, q2, None),
        _ => false,
    }
}


/// What a reply decides.
pub enum Decision {
    /// Records of the type asked for: these, all of that type with the owner
    /// of the first one.
    Answer(Seq<RecordView>),
    /// An alias (this record) to follow to its target name.
    Chase(RecordView, Seq<char>),
    /// Answers, none of the type asked for and no alias.
    Unexpected,
    /// No answers, and nameservers to ask further down.
    Delegation,
    /// No answers, no nameservers, and this start of authority: the name or
    /// data does not exist.
    Denial(RecordView),
    /// Nothing to go on.
    Failure,
}

/// The decision that the reply `m` makes for a question of type `qtype`.
pub open spec fn reply_decision(m: MessageView, qtype: u16) -> Decision {
    let ans = m.2;
    if ans.len() > 0 {
        let p = first_of_type(ans, qtype, 0);
        if p >= 0 {
            Decision::Answer(owned_of_type(ans, qtype, ans[p].0))
        } else {
            let c = first_of_type(ans, 5, 0);
            if c >= 0 {
                match ans[c].4 {
                    RecordDataView::Cname(t) => Decision::Chase(ans[c], t),
                    _ => Decision::Unexpected,
                }
            } else {
                Decision::Unexpected
            }
        }
    } else if has_delegation(m.3) {
        Decision::Delegation
    } else {
        let s = first_of_type(m.3, 6, 0);
        if s >= 0 {
            Decision::Denial(m.3[s])
        } else {
            Decision::Failure
        }
    }
}

/// Whether the cache holds records for the owner of the first answer of type `t`.
pub open spec fn answer_cached(ans: Seq<RecordView>, t: u16, c: crate::cache::CacheView) -> bool {
    lookup(c, ans[first_of_type(ans, t, 0)].0) is Some
}

/// Whether the cache holds records for the owner of every nameserver record of `auth`.
pub open spec fn delegations_cached(auth: Seq<RecordView>, c: crate::cache::CacheView) -> bool {
    forall|j: int| 0 <= j < auth.len() && (#[trigger] auth[j]).4 is Ns ==> lookup(c, auth[j].0) is Some
}

/// Whether `add` gives an address for `t`.
pub open spec fn has_glue(add: Seq<RecordView>, t: Seq<char>) -> bool {
    addresses_for(add, t).0 is Some || addresses_for(add, t).1 is Some
}

/// What one authority record does to the queue: a nameserver record offers
/// the host `h` of its target at the level its owner shares with `qname`,
/// with the glue's addresses when `add` has glue for it; any other record
/// leaves the queue as it was.
pub open spec fn delegation_step(
    q: NsQueue,
    q2: NsQueue,
    r: RecordView,
    h: crate::host::HostView,
    qname: Seq<char>,
    add: Seq<RecordView>,
    depth: usize,
) -> bool {
    match r.4 {
        RecordDataView::Ns(t) => h.0 == Some(t) && (has_glue(add, t) ==> (h.1, h.2) == addresses_for(
            add,
            t,
        )) && candidate_added(q, q2, h, crate::name::matching_level_spec(r.0, qname), depth),
        _ => q2 == q,
    }
}

/// Whether `qs` are the queues after each authority record of `auth` in turn,
/// `hs` the hosts offered.
pub open spec fn delegations_queued(
    qs: Seq<NsQueue>,
    hs: Seq<crate::host::HostView>,
    auth: Seq<RecordView>,
    add: Seq<RecordView>,
    qname: Seq<char>,
    depth: usize,
) -> bool {
    &&& qs.len() == auth.len() + 1
    &&& hs.len() == auth.len()
    &&& forall|j: int|
        0 <= j < auth.len() ==> delegation_step(
            #[trigger] qs[j],
            qs[j + 1],
            auth[j],
            hs[j],
            qname,
            add,
            depth,
        )
}

/// Whether `q2` is `q` after the delegations of `auth` were queued.
pub open spec fn delegations_applied(
    q: NsQueue,
    q2: NsQueue,
    auth: Seq<RecordView>,
    add: Seq<RecordView>,
    qname: Seq<char>,
    depth: usize,
) -> bool {
    exists|qs: Seq<NsQueue>, hs: Seq<crate::host::HostView>|
        #[trigger] delegations_queued(qs, hs, auth, add, qname, depth) && qs[0] == q && qs.last() == q2
}

/// What a delegation leads to: its nameservers queued, then the next candidate taken.
pub open spec fn delegation_outcome(
    q: NsQueue,
    q2: NsQueue,
    auth: Seq<RecordView>,
    add: Seq<RecordView>,
    qname: Seq<char>,
    depth: usize,
    query: Seq<u8>,
    a: Action,
) -> bool {
    exists|q1: NsQueue|
        #[trigger] delegations_applied(q, q1, auth, add, qname, depth) && next_hop_action(
            q1,
            q2,
            query,
            depth,
            a,
        )
}

/// What the address of an awaited nameserver leads to: when it came back,
/// the host with it is queued at its level; then the next candidate is taken.
pub open spec fn nameserver_outcome(
    q: NsQueue,
    q2: NsQueue,
    name: Seq<char>,
    level: usize,
    addrs: (Option<Seq<u8>>, Option<Seq<u8>>),
    query: Seq<u8>,
    depth: usize,
    a: Action,
) -> bool {
    if addrs.0 is Some || addrs.1 is Some {
        exists|q1: NsQueue|
            #[trigger] crate::ns_queue::insert_result(q, q1, (Some(name), addrs.0, addrs.1), level as int)
                && next_hop_action(q1, q2, query, depth, a)
    } else {
        next_hop_action(q, q2, query, depth, a)
    }
}

/// Whether `m` is a reply to the query with `id` for question `q`.
pub open spec fn answers_query(m: MessageView, id: u16, q: (Seq<char>, RecordType, u16)) -> bool {
    m.0.id == id && m.1 == seq![q]
}

/// The action a reply leads to, for a resolution at `depth` that has
/// gathered `resp` and whose response afterwards is `resp2`. A delegation
/// leads to the next candidate: its action is one that taking a candidate gives.
pub open spec fn reply_action(
    d: Decision,
    qtype: RecordType,
    depth: usize,
    resp: Seq<RecordView>,
    resp2: Seq<RecordView>,
    a: Action,
) -> bool {
    match d {
        Decision::Answer(rs) => a matches Action::Done(Ok(v)) && records_view(v@) == resp + rs,
        Decision::Chase(c, t) => resp2 == resp.push(c) && if depth >= MAX_DEPTH {
            a matches Action::Done(Err(DnsError::ServerFailure(_)))
        } else if vstd::utf8::encode_utf8(t).len() > 253 {
            a matches Action::Done(Err(e)) && e == DnsError::FormatError
        } else {
            a matches Action::Resolve(nq) && nq@ == (t, qtype, 1u16)
        },
        Decision::Unexpected => a matches Action::Done(Err(e)) && e == DnsError::FormatError,
        Decision::Delegation => a is Query || a is Resolve || a is Skip || a matches Action::Done(Err(DnsError::ServerFailure(_))),
        Decision::Denial(soa) => a matches Action::Done(Ok(v)) && records_view(v@) == resp.push(soa),
        Decision::Failure => a matches Action::Done(Err(DnsError::ServerFailure(_))),
    }
}

/// Whether datagram `b` holds a reply to the query with `id` for question `q`.
pub open spec fn is_reply(b: Seq<u8>, id: u16, q: (Seq<char>, RecordType, u16)) -> bool {
    parse_message(b) is Some && answers_query(parse_message(b)->Some_0, id, q)
}

fn has_ns_record(rs: &Vec<ResourceRecord>) -> (r: bool)
    ensures
        r == has_delegation(records_view(rs@)),
{
    let ghost rv = records_view(rs@);
    let mut i: usize = 0;
    while i < rs.len()
        invariant
            rv == records_view(rs@),
            i <= rs@.len(),
            forall|j: int| 0 <= j < i ==> !(#[trigger] rv[j].4 is Ns),
        decreases rs@.len() - i,
    {
        match &rs[i].data {
            RecordData::Ns(_) => {
                assert(rv[i as int].4 is Ns);
                return true;
            },
            _ => {},
        }
        i = i + 1;
    }
    false
}

impl Resolution {
    fn same_question(&self, q: &Question) -> (r: bool)
        ensures
            r == (q@ == self.question@),
    {
        q.name == self.question.name && q.type_ == self.question.type_ && q.class == self.question.class
    }

    /// Learns the delegations of `authorities`: each nameserver record goes
    /// into the cache and its host into the queue, with its address from the
    /// glue in `additionals`, or else from the cache.
    fn follow_delegations(&mut self, cache: &mut Cache, authorities: &Vec<ResourceRecord>, additionals: &Vec<ResourceRecord>)
        requires
            old(self).wf(),
        ensures
            final(self).wf(),
            forall|j: int|
                0 <= j < authorities@.len() && (#[trigger] authorities@[j]).data@ is Ns ==> lookup(
                    final(cache)@,
                    authorities@[j].name@,
                ) is Some,
            delegations_applied(
                old(self).queue,
                final(self).queue,
                records_view(authorities@),
                records_view(additionals@),
                old(self).question@.0,
                old(self).depth,
            ),
            final(self).pending == old(self).pending,
            final(self).id_spec() == old(self).id_spec(),
            final(self).question_spec() == old(self).question_spec(),
            final(self).query_spec() == old(self).query_spec(),
            final(self).depth_spec() == old(self).depth_spec(),
            final(self).response_spec() == old(self).response_spec(),
    {
        let ghost s0 = *self;
        let ghost auth = records_view(authorities@);
        let ghost add = records_view(additionals@);
        let ghost mut qs: Seq<NsQueue> = seq![self.queue];
        let ghost mut hs: Seq<crate::host::HostView> = seq![];
        let mut i: usize = 0;
        while i < authorities.len()
            invariant
                i <= authorities@.len(),
                auth == records_view(authorities@),
                add == records_view(additionals@),
                qs.len() == i + 1,
                hs.len() == i,
                qs[0] == s0.queue,
                qs.last() == self.queue,
                forall|j: int|
                    0 <= j < i ==> delegation_step(
                        #[trigger] qs[j],
                        qs[j + 1],
                        auth[j],
                        hs[j],
                        s0.question@.0,
                        add,
                        s0.depth,
                    ),
                self.pending == s0.pending,
                self.depth == s0.depth,
                self.wf(),
                self.id_spec() == s0.id_spec(),
                self.question_spec() == s0.question_spec(),
                self.query_spec() == s0.query_spec(),
                self.depth_spec() == s0.depth_spec(),
                self.response_spec() == s0.response_spec(),
                forall|j: int|
                    0 <= j < i && (#[trigger] authorities@[j]).data@ is Ns ==> lookup(
                        cache@,
                        authorities@[j].name@,
                    ) is Some,
            decreases authorities@.len() - i,
        {
            let rr = &authorities[i];
            let ghost q_before = self.queue;
            let ghost mut h: crate::host::HostView = (None, None, None);
            assert(auth[i as int] == rr@);
            match &rr.data {
                RecordData::Ns(ns_name) => {
                    let level = rr.name.matching_level(&self.question.name);
                    let (mut v4, mut v6) = find_addresses(additionals, ns_name);
                    if v4.is_none() && v6.is_none() {
                        match cache.get_record_set(ns_name) {
                            Some(set) => {
                                let found = find_addresses(set, ns_name);
                                v4 = found.0;
                                v6 = found.1;
                            },
                            None => {},
                        }
                    } else {
                        let glue4 = records_owned_of_type(additionals, 1, ns_name);
                        let glue6 = records_owned_of_type(additionals, 28, ns_name);
                        let ghost c0 = cache@;
                        let ghost g4 = records_view(glue4@);
                        let ghost g6 = records_view(glue6@);
                        cache.insert_records(ns_name.clone(), glue4);
                        let ghost c1 = cache@;
                        cache.insert_records(ns_name.clone(), glue6);
                        proof {
                            assert forall|j: int|
                                0 <= j < i && (#[trigger] authorities@[j]).data@ is Ns implies lookup(
                                    cache@,
                                    authorities@[j].name@,
                                ) is Some by {
                                lemma_insert_all_keeps_owners(c0, ns_name@, g4, authorities@[j].name@);
                                lemma_insert_all_keeps_owners(c1, ns_name@, g6, authorities@[j].name@);
                            }
                        }
                    }
                    let ghost c2 = cache@;
                    let owner = rr.name.clone();
                    let ghost ov = owner@;
                    cache.insert_record(owner, rr.clone());
                    proof {
                        assert forall|j: int|
                            0 <= j <= i && (#[trigger] authorities@[j]).data@ is Ns implies lookup(
                                cache@,
                                authorities@[j].name@,
                            ) is Some by {
                            lemma_insert_keeps_owners(c2, ov, authorities@[i as int]@, authorities@[j].name@);
                        }
                    }
                    self.add_candidate(ns_name, v4, v6, level);
                    proof {
                        h = (Some(ns_name@), opt_v4(v4), opt_v6(v6));
                    }
                },
                _ => {},
            }
            proof {
                assert(delegation_step(q_before, self.queue, auth[i as int], h, s0.question@.0, add, s0.depth));
                let qs2 = qs.push(self.queue);
                let hs2 = hs.push(h);
                assert forall|j: int| 0 <= j < i + 1 implies delegation_step(
                    #[trigger] qs2[j],
                    qs2[j + 1],
                    auth[j],
                    hs2[j],
                    s0.question@.0,
                    add,
                    s0.depth,
                ) by {
                    if j < i {
                        assert(qs2[j] == qs[j] && qs2[j + 1] == qs[j + 1] && hs2[j] == hs[j]);
                    }
                }
                qs = qs2;
                hs = hs2;
            }
            i = i + 1;
        }
        assert(delegations_queued(qs, hs, auth, add, s0.question@.0, s0.depth));
    }

    fn finish_with(&mut self, extra: Vec<ResourceRecord>) -> (a: Action)
        ensures
            a matches Action::Done(Ok(v)) && records_view(v@) == old(self).response_spec() + records_view(extra@),
            final(self).response_spec() == old(self).response_spec() + records_view(extra@),
            final(self).queue == old(self).queue,
            final(self).id == old(self).id,
            final(self).question == old(self).question,
            final(self).query == old(self).query,
            final(self).depth == old(self).depth,
    {
        let mut i: usize = 0;
        let ghost r0 = records_view(self.response@);
        let ghost ev = records_view(extra@);
        while i < extra.len()
            invariant
                i <= extra@.len(),
                ev == records_view(extra@),
                records_view(self.response@) == r0 + ev.subrange(0, i as int),
                self.queue == old(self).queue,
                self.id == old(self).id,
                self.question == old(self).question,
                self.query == old(self).query,
                self.depth == old(self).depth,
            decreases extra@.len() - i,
        {
            let c = extra[i].clone();
            let ghost before = records_view(self.response@);
            self.response.push(c);
            assert(records_view(self.response@) =~= before.push(c@));
            assert(r0 + ev.subrange(0, i + 1) =~= (r0 + ev.subrange(0, i as int)).push(ev[i as int]));
            i = i + 1;
        }
        assert(ev.subrange(0, i as int) =~= ev);
        Action::Done(Ok(copy_records(&self.response)))
    }
}


impl Resolution {
    /// Whether the resolution waits on the outcome of following an alias.
    pub closed spec fn awaits_alias(&self) -> bool {
        self.pending is Alias
    }

    /// Whether the resolution waits on the address of a nameserver.
    pub closed spec fn awaits_nameserver(&self) -> bool {
        self.pending is Nameserver
    }

    /// The nameserver whose address the resolution waits on.
    pub closed spec fn pending_name(&self) -> Seq<char> {
        match self.pending {
            Pending::Nameserver { name, .. } => name@,
            _ => Seq::empty(),
        }
    }

    /// The level that nameserver is to be queued at again.
    pub closed spec fn pending_level(&self) -> usize {
        match self.pending {
            Pending::Nameserver { level, .. } => level,
            _ => 0,
        }
    }

    fn on_reply(&mut self, cache: &mut Cache, bytes: &[u8]) -> (a: Action)
        requires
            old(self).wf(),
        ensures
            final(self).wf(),
            final(self).id_spec() == old(self).id_spec(),
            final(self).question_spec() == old(self).question_spec(),
            final(self).query_spec() == old(self).query_spec(),
            final(self).depth_spec() == old(self).depth_spec(),
            is_reply(bytes@, old(self).id_spec(), old(self).question_spec()) ==> reply_action(
                reply_decision(parse_message(bytes@)->Some_0, type_code(old(self).question_spec().1)),
                old(self).question_spec().1,
                old(self).depth_spec(),
                old(self).response_spec(),
                final(self).response_spec(),
                a,
            ),
            is_reply(bytes@, old(self).id_spec(), old(self).question_spec()) && reply_decision(
                parse_message(bytes@)->Some_0,
                type_code(old(self).question_spec().1),
            ) is Answer ==> answer_cached(
                parse_message(bytes@)->Some_0.2,
                type_code(old(self).question_spec().1),
                final(cache)@,
            ),
            is_reply(bytes@, old(self).id_spec(), old(self).question_spec()) && a is Resolve && reply_decision(
                parse_message(bytes@)->Some_0,
                type_code(old(self).question_spec().1),
            ) is Chase ==> final(self).awaits_alias(),
            !is_reply(bytes@, old(self).id_spec(), old(self).question_spec()) ==> a is Listen
                && final(self).response_spec() == old(self).response_spec(),
            is_reply(bytes@, old(self).id_spec(), old(self).question_spec()) && reply_decision(
                parse_message(bytes@)->Some_0,
                type_code(old(self).question_spec().1),
            ) is Delegation ==> delegations_cached(parse_message(bytes@)->Some_0.3, final(cache)@)
                && delegation_outcome(
                old(self).queue_spec(),
                final(self).queue_spec(),
                parse_message(bytes@)->Some_0.3,
                parse_message(bytes@)->Some_0.4,
                old(self).question_spec().0,
                old(self).depth_spec(),
                old(self).query_spec(),
                a,
            ) && (a matches Action::Resolve(nq) ==> final(self).awaits_nameserver()
                && final(self).pending_name() == nq@.0),
    {
        let msg = match Message::from_bytes(bytes) {
            Ok(m) => m,
            Err(_) => {
                return Action::Listen;
            },
        };
        if msg.header.id != self.id || msg.questions.len() != 1 || !self.same_question(&msg.questions[0]) {
            proof {
                if msg@.1 == seq![self.question@] {
                    assert(msg@.1.len() == 1);
                    assert(msg@.1[0] == msg.questions@[0]@);
                    assert(msg@.1[0] == self.question@);
                }
            }
            return Action::Listen;
        }
        proof {
            assert(msg@.1 =~= seq![self.question@]);
        }
        let ghost m = msg@;
        let qt = self.question.type_.to_int();
        if msg.answers.len() > 0 {
            match find_first_of_type(&msg.answers, qt) {
                Some(p) => {
                    assert(m.2[p as int] == msg.answers@[p as int]@);
                    assert(first_of_type(m.2, type_code(self.question@.1), 0) == p);
                    let owner = msg.answers[p].name.clone();
                    let rs = records_owned_of_type(&msg.answers, qt, &owner);
                    let ghost c0 = cache@;
                    let ghost ov = owner@;
                    let cached = copy_records(&rs);
                    let ghost cv = records_view(cached@);
                    cache.insert_records(owner, cached);
                    proof {
                        lemma_owned_nonempty(m.2, qt, p as int);
                        lemma_insert_keeps_owners(
                            crate::cache::cache_insert_all(c0, ov, cv.drop_last()),
                            ov,
                            cv.last(),
                            ov,
                        );
                    }
                    return self.finish_with(rs);
                },
                None => match find_first_of_type(&msg.answers, 5) {
                    Some(c) => {
                        assert(m.2[c as int] == msg.answers@[c as int]@);
                        assert(first_of_type(m.2, type_code(self.question@.1), 0) < 0);
                        let rr = &msg.answers[c];
                        match &rr.data {
                            RecordData::Cname(target) => {
                                let ghost before = records_view(self.response@);
                                let alias = rr.clone();
                                self.response.push(alias);
                                assert(records_view(self.response@) =~= before.push(m.2[c as int]));
                                if self.depth >= MAX_DEPTH {
                                    return Action::Done(Err(DnsError::ServerFailure(String::from_str("alias chain too deep"))));
                                }
                                match Question::new(target.clone(), self.question.type_) {
                                    Ok(nq) => {
                                        self.pending = Pending::Alias;
                                        return Action::Resolve(nq);
                                    },
                                    Err(e) => {
                                        return Action::Done(Err(e));
                                    },
                                }
                            },
                            _ => {
                                return Action::Done(Err(DnsError::FormatError));
                            },
                        }
                    },
                    None => {
                        return Action::Done(Err(DnsError::FormatError));
                    },
                },
            }
        }
        if has_ns_record(&msg.authorities) {
            let ghost q0 = self.queue;
            self.follow_delegations(cache, &msg.authorities, &msg.additionals);
            let ghost q1 = self.queue;
            proof {
                assert forall|j: int| 0 <= j < m.3.len() && (#[trigger] m.3[j]).4 is Ns implies lookup(
                    cache@,
                    m.3[j].0,
                ) is Some by {
                    assert(m.3[j] == msg.authorities@[j]@);
                }
            }
            let a = self.next_hop();
            assert(delegations_applied(q0, q1, m.3, m.4, self.question@.0, self.depth) && next_hop_action(
                q1,
                self.queue,
                self.query@,
                self.depth,
                a,
            ));
            return a;
        }
        match find_first_of_type(&msg.authorities, 6) {
            Some(i) => {
                let mut extra: Vec<ResourceRecord> = Vec::new();
                extra.push(msg.authorities[i].clone());
                assert(m.3[i as int] == msg.authorities@[i as int]@);
                assert(records_view(extra@) =~= seq![m.3[i as int]]);
                let ghost r0 = self.response_spec();
                let a = self.finish_with(extra);
                assert(r0 + seq![m.3[i as int]] =~= r0.push(m.3[i as int]));
                a
            },
            None => Action::Done(Err(DnsError::ServerFailure(String::from_str("no answer, delegation or authority")))),
        }
    }

    /// Takes what came back and says what to do next.
    pub fn step(&mut self, cache: &mut Cache, event: Event) -> (a: Action)
        requires
            old(self).wf(),
        ensures
            final(self).wf(),
            final(self).id_spec() == old(self).id_spec(),
            final(self).question_spec() == old(self).question_spec(),
            final(self).query_spec() == old(self).query_spec(),
            final(self).depth_spec() == old(self).depth_spec(),
            (event is Start || event is NoReply) ==> next_hop_action(
                old(self).queue_spec(),
                final(self).queue_spec(),
                old(self).query_spec(),
                old(self).depth_spec(),
                a,
            ) && final(self).response_spec() == old(self).response_spec(),
            event matches Event::Reply(b) ==> {
                &&& is_reply(b@, old(self).id_spec(), old(self).question_spec()) ==> reply_action(
                    reply_decision(parse_message(b@)->Some_0, type_code(old(self).question_spec().1)),
                    old(self).question_spec().1,
                    old(self).depth_spec(),
                    old(self).response_spec(),
                    final(self).response_spec(),
                    a,
                )
                &&& !is_reply(b@, old(self).id_spec(), old(self).question_spec()) ==> a is Listen
                &&& is_reply(b@, old(self).id_spec(), old(self).question_spec()) && reply_decision(
                    parse_message(b@)->Some_0,
                    type_code(old(self).question_spec().1),
                ) is Chase && a is Resolve ==> final(self).awaits_alias()
                &&& is_reply(b@, old(self).id_spec(), old(self).question_spec()) && reply_decision(
                    parse_message(b@)->Some_0,
                    type_code(old(self).question_spec().1),
                ) is Answer ==> answer_cached(
                    parse_message(b@)->Some_0.2,
                    type_code(old(self).question_spec().1),
                    final(cache)@,
                )
                &&& is_reply(b@, old(self).id_spec(), old(self).question_spec()) && reply_decision(
                    parse_message(b@)->Some_0,
                    type_code(old(self).question_spec().1),
                ) is Delegation ==> delegations_cached(parse_message(b@)->Some_0.3, final(cache)@)
                    && delegation_outcome(
                    old(self).queue_spec(),
                    final(self).queue_spec(),
                    parse_message(b@)->Some_0.3,
                    parse_message(b@)->Some_0.4,
                    old(self).question_spec().0,
                    old(self).depth_spec(),
                    old(self).query_spec(),
                    a,
                )
            },
            event matches Event::Resolved(r) ==> {
                &&& old(self).awaits_alias() ==> match r {
                    Ok(v) => a matches Action::Done(Ok(w)) && records_view(w@) == old(self).response_spec()
                        + records_view(v@),
                    Err(e) => a matches Action::Done(Err(e2)) && e2 == e,
                }
                &&& old(self).awaits_nameserver() ==> nameserver_outcome(
                    old(self).queue_spec(),
                    final(self).queue_spec(),
                    old(self).pending_name(),
                    old(self).pending_level(),
                    match r {
                        Ok(v) => addresses_for(records_view(v@), old(self).pending_name()),
                        Err(_) => (None, None),
                    },
                    old(self).query_spec(),
                    old(self).depth_spec(),
                    a,
                )
                &&& !old(self).awaits_alias() && !old(self).awaits_nameserver() ==> a matches Action::Done(Err(DnsError::ServerFailure(_)))
            },
            a is Resolve && !(event matches Event::Reply(b) && is_reply(
                b@,
                old(self).id_spec(),
                old(self).question_spec(),
            ) && reply_decision(parse_message(b@)->Some_0, type_code(old(self).question_spec().1)) is Chase)
                ==> final(self).awaits_nameserver() && final(self).pending_name() == (a->Resolve_0)@.0,
    {
        match event {
            Event::Start => self.next_hop(),
            Event::NoReply => self.next_hop(),
            Event::Reply(bytes) => self.on_reply(cache, bytes.as_slice()),
            Event::Resolved(result) => {
                let alias = match &self.pending {
                    Pending::Alias => true,
                    _ => false,
                };
                let waiting = match &self.pending {
                    Pending::Nameserver { name, level } => Some((name.clone(), *level)),
                    _ => None,
                };
                self.pending = Pending::Nothing;
                if alias {
                    match result {
                        Ok(records) => self.finish_with(records),
                        Err(e) => Action::Done(Err(e)),
                    }
                } else {
                    match waiting {
                        Some((name, level)) => {
                            match result {
                                Ok(records) => {
                                    let (v4, v6) = find_addresses(&records, &name);
                                    if v4.is_some() || v6.is_some() {
                                        let ghost q0 = self.queue;
                                        self.add_candidate(&name, v4, v6, level);
                                        let ghost q1 = self.queue;
                                        let a = self.next_hop();
                                        assert(crate::ns_queue::insert_result(
                                            q0,
                                            q1,
                                            (Some(name@), opt_v4(v4), opt_v6(v6)),
                                            level as int,
                                        ) && next_hop_action(q1, self.queue, self.query@, self.depth, a));
                                        return a;
                                    }
                                },
                                Err(_) => {},
                            }
                            self.next_hop()
                        },
                        None => Action::Done(Err(DnsError::ServerFailure(String::from_str("no sub-resolution was asked for")))),
                    }
                }
            },
        }
    }
}


} // verus!
