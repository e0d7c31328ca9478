//! Flow correlation: endpoints, packet events, per-flow buffers and the
//! store that routes packets to flows by their unordered endpoint pair.

use vstd::prelude::*;

use crate::http::{
    parse_request, parse_response, spec_parse_request, spec_parse_response, ParseError, Req, Resp,
};
use crate::Args;

verus! {

/// A network address, v4 or v6, held as its integer value.
#[derive(Clone, Copy, PartialEq, Eq, Structural, Debug)]
pub enum IpAddress {
    V4(u32),
    V6(u128),
}

/// One side of a connection. Two endpoints are equal exactly when address
/// and port both match.
#[derive(Clone, Copy, PartialEq, Eq, Structural, Debug)]
pub struct Endpoint {
    pub address: IpAddress,
    pub port: u16,
}

/// One decoded packet event: the transport payload bytes, the two endpoints,
/// and whether the packet terminates its sender's side of the connection.
pub struct EnrichedPacket {
    pub ts: i64,
    pub payload: Vec<u8>,
    pub source: Endpoint,
    pub dest: Endpoint,
    pub fin: bool,
}

/// One bidirectional flow: fixed endpoints, the packets in arrival order,
/// the two termination flags and the parsed messages once decoding succeeds.
pub struct HttpStream {
    pub id: i32,
    pub source: Endpoint,
    pub dest: Endpoint,
    pub packets: Vec<EnrichedPacket>,
    pub source_fin: bool,
    pub dest_fin: bool,
    pub request: Option<Req>,
    pub response: Option<Resp>,
}

/// The correlation table: all active flows, and the next unused identifier.
pub struct Store {
    pub streams: Vec<HttpStream>,
    pub next_id: i32,
}

// ---------------------------------------------------------------------------
// Direction buffers
// ---------------------------------------------------------------------------

/// The bytes sent by `ep`, from packet `i` on: each payload in arrival order.
pub open spec fn direction_bytes_from(ps: Seq<EnrichedPacket>, ep: Endpoint, i: int) -> Seq<u8>
    decreases ps.len() - i,
{
    if i < 0 || i >= ps.len() {
        Seq::empty()
    } else {
        (if ps[i].source == ep {
            ps[i].payload@
        } else {
            Seq::empty()
        }) + direction_bytes_from(ps, ep, i + 1)
    }
}

/// The whole of one direction's accumulated bytes.
pub open spec fn direction_bytes(ps: Seq<EnrichedPacket>, ep: Endpoint) -> Seq<u8> {
    direction_bytes_from(ps, ep, 0)
}

/// A flow is complete exactly when both sides have signalled termination.
pub open spec fn spec_complete(source_fin: bool, dest_fin: bool) -> bool {
    source_fin && dest_fin
}

/// The value of a termination flag after a sequence of same-direction
/// packets has been appended, each OR-ing its own flag in.
pub open spec fn fin_after(f: bool, ps: Seq<EnrichedPacket>) -> bool
    decreases ps.len(),
{
    if ps.len() == 0 {
        f
    } else {
        fin_after(f || ps[0].fin, ps.skip(1))
    }
}

impl HttpStream {
    pub fn new(id: i32, source: Endpoint, dest: Endpoint) -> (r: HttpStream)
        ensures
            r.id == id,
            r.source == source,
            r.dest == dest,
            r.packets@ == Seq::<EnrichedPacket>::empty(),
            !r.source_fin,
            !r.dest_fin,
            r.request is None,
            r.response is None,
    {
        HttpStream {
            id,
            source,
            dest,
            packets: Vec::new(),
            source_fin: false,
            dest_fin: false,
            request: None,
            response: None,
        }
    }

    /// Append a packet sent by the flow's initiator, OR-ing its termination
    /// flag into the initiator's flag.
    pub fn append_request_packet(&mut self, packet: EnrichedPacket)
        ensures
            final(self).packets@ == old(self).packets@.push(packet),
            final(self).source_fin == (old(self).source_fin || packet.fin),
            final(self).dest_fin == old(self).dest_fin,
            final(self).id == old(self).id,
            final(self).source == old(self).source,
            final(self).dest == old(self).dest,
            final(self).request == old(self).request,
            final(self).response == old(self).response,
    {
        if packet.fin {
            self.source_fin = true;
        }
        self.packets.push(packet);
    }

    /// Append a packet sent by the flow's responder, OR-ing its termination
    /// flag into the responder's flag.
    pub fn append_response_packet(&mut self, packet: EnrichedPacket)
        ensures
            final(self).packets@ == old(self).packets@.push(packet),
            final(self).dest_fin == (old(self).dest_fin || packet.fin),
            final(self).source_fin == old(self).source_fin,
            final(self).id == old(self).id,
            final(self).source == old(self).source,
            final(self).dest == old(self).dest,
            final(self).request == old(self).request,
            final(self).response == old(self).response,
    {
        if packet.fin {
            self.dest_fin = true;
        }
        self.packets.push(packet);
    }

    pub fn is_complete(&self) -> (r: bool)
        ensures
            r == spec_complete(self.source_fin, self.dest_fin),
    {
        self.source_fin && self.dest_fin
    }

    /// The initiator's accumulated payload bytes, in arrival order.
    pub fn collect_request(&self) -> (r: Vec<u8>)
        ensures
            r@ == direction_bytes(self.packets@, self.source),
    {
        self.collect_direction(&self.source)
    }

    /// The responder's accumulated payload bytes, in arrival order.
    pub fn collect_response(&self) -> (r: Vec<u8>)
        ensures
            r@ == direction_bytes(self.packets@, self.dest),
    {
        self.collect_direction(&self.dest)
    }

    fn collect_direction(&self, ep: &Endpoint) -> (r: Vec<u8>)
        ensures
            r@ == direction_bytes(self.packets@, *ep),
    {
        let mut buf: Vec<u8> = Vec::new();
        let mut i: usize = 0;
        while i < self.packets.len()
            invariant
                i <= self.packets@.len(),
                direction_bytes(self.packets@, *ep) == buf@ + direction_bytes_from(
                    self.packets@,
                    *ep,
                    i as int,
                ),
            decreases self.packets@.len() - i,
        {
            if self.packets[i].source == *ep {
                let ghost snap = buf@;
                let mut j: usize = 0;
                while j < self.packets[i].payload.len()
                    invariant
                        i < self.packets@.len(),
                        j <= self.packets@[i as int].payload@.len(),
                        buf@ == snap + self.packets@[i as int].payload@.subrange(0, j as int),
                    decreases self.packets@[i as int].payload@.len() - j,
                {
                    buf.push(self.packets[i].payload[j]);
                    proof {
                        assert(self.packets@[i as int].payload@.subrange(0, j + 1)
                            =~= self.packets@[i as int].payload@.subrange(0, j as int).push(
                            self.packets@[i as int].payload@[j as int],
                        ));
                        assert(buf@ =~= snap + self.packets@[i as int].payload@.subrange(
                            0,
                            j + 1,
                        ));
                    }
                    j += 1;
                }
                proof {
                    assert(self.packets@[i as int].payload@.subrange(
                        0,
                        self.packets@[i as int].payload@.len() as int,
                    ) =~= self.packets@[i as int].payload@);
                    assert((snap + self.packets@[i as int].payload@) + direction_bytes_from(
                        self.packets@,
                        *ep,
                        i + 1,
                    ) =~= snap + (self.packets@[i as int].payload@ + direction_bytes_from(
                        self.packets@,
                        *ep,
                        i + 1,
                    )));
                }
            } else {
                proof {
                    assert(buf@ + (Seq::<u8>::empty() + direction_bytes_from(
                        self.packets@,
                        *ep,
                        i + 1,
                    )) =~= buf@ + direction_bytes_from(self.packets@, *ep, i + 1));
                }
            }
            i += 1;
        }
        proof {
            assert(buf@ + direction_bytes_from(self.packets@, *ep, i as int) =~= buf@);
        }
        buf
    }

    /// Parse both accumulated direction buffers: the initiator's bytes as the
    /// request, then the responder's bytes as the response. A request parse
    /// error leaves both slots as they were; a response parse error leaves
    /// the freshly parsed request in place.
    pub fn parse(&mut self) -> (r: Result<(), ParseError>)
        ensures
            final(self).id == old(self).id,
            final(self).source == old(self).source,
            final(self).dest == old(self).dest,
            final(self).packets@ == old(self).packets@,
            final(self).source_fin == old(self).source_fin,
            final(self).dest_fin == old(self).dest_fin,
            ({
                let rq = spec_parse_request(direction_bytes(old(self).packets@, old(self).source));
                let rs = spec_parse_response(direction_bytes(old(self).packets@, old(self).dest));
                let req1 = final(self).request;
                let resp1 = final(self).response;
                match r {
                    Ok(()) => rq is Ok && rs is Ok
                        && (req1 matches Some(q) && Ok::<_, crate::http::ParseErrorView>(q@) == rq)
                        && (resp1 matches Some(p) && Ok::<_, crate::http::ParseErrorView>(p@) == rs),
                    Err(e) => ((rq matches Err(me) && me == e@)
                            && req1 == old(self).request && resp1 == old(self).response)
                        || (rq is Ok && (rs matches Err(me) && me == e@)
                            && (req1 matches Some(q)
                                && Ok::<_, crate::http::ParseErrorView>(q@) == rq)
                            && resp1 == old(self).response),
                }
            }),
    {
        let req_buf = self.collect_request();
        match parse_request(&req_buf) {
            Ok(q) => {
                self.request = Some(q);
            },
            Err(e) => {
                return Err(e);
            },
        }
        let resp_buf = self.collect_response();
        match parse_response(&resp_buf) {
            Ok(p) => {
                self.response = Some(p);
            },
            Err(e) => {
                return Err(e);
            },
        }
        Ok(())
    }

    /// The filter predicate: a parsed request is present and, when a filter
    /// is configured, its path contains the filter as a literal substring.
    pub fn is_matching(&self, args: &Args) -> (r: bool)
        ensures
            r == spec_is_matching(*self, *args),
    {
        match &self.request {
            Some(q) => match &args.path {
                Some(p) => str_contains(q.path.as_str(), p.as_str()),
                None => true,
            },
            None => false,
        }
    }
}

pub open spec fn spec_is_matching(s: HttpStream, args: Args) -> bool {
    match s.request {
        Some(q) => match args.path {
            Some(p) => contains_sub(q.path@, p@),
            None => true,
        },
        None => false,
    }
}

/// `n` occurs as a contiguous substring of `h`.
pub open spec fn contains_sub(h: Seq<char>, n: Seq<char>) -> bool {
    exists|i: int|
        0 <= i && i + n.len() <= h.len() && #[trigger] h.subrange(i, i + n.len() as int) == n
}

/// Relies on std's `str::contains`: true exactly when the needle occurs as a
/// contiguous substring of the haystack.
#[verifier::external_body]
fn str_contains(h: &str, n: &str) -> (r: bool)
    ensures
        r == contains_sub(h@, n@),
{
    h.contains(n)
}

// ---------------------------------------------------------------------------
// Correlation, as mathematics
// ---------------------------------------------------------------------------

/// What correlation reads of a flow: its identifier and its endpoint pair.
pub struct FlowModel {
    pub id: int,
    pub source: Endpoint,
    pub dest: Endpoint,
}

pub open spec fn flow_model(s: HttpStream) -> FlowModel {
    FlowModel { id: s.id as int, source: s.source, dest: s.dest }
}

pub open spec fn flow_models(ss: Seq<HttpStream>) -> Seq<FlowModel> {
    ss.map_values(|s: HttpStream| flow_model(s))
}

/// The unordered pair {source, dest} of `f` equals {a, b}.
pub open spec fn pair_matches(f: FlowModel, a: Endpoint, b: Endpoint) -> bool {
    (f.source == a && f.dest == b) || (f.source == b && f.dest == a)
}

/// Index of the first flow at or after `i` whose unordered pair is {a, b}.
pub open spec fn find_flow(fs: Seq<FlowModel>, a: Endpoint, b: Endpoint, i: int) -> Option<int>
    decreases fs.len() - i,
{
    if i >= fs.len() {
        None
    } else if pair_matches(fs[i], a, b) {
        Some(i)
    } else {
        find_flow(fs, a, b, i + 1)
    }
}

/// The identifier of the first flow whose unordered pair is {a, b}.
pub open spec fn lookup_id(fs: Seq<FlowModel>, a: Endpoint, b: Endpoint) -> Option<int> {
    match find_flow(fs, a, b, 0) {
        Some(j) => Some(fs[j].id),
        None => None,
    }
}

/// What `Store::correlate` does: the flows and next identifier afterwards,
/// and the identifier handed back.
pub open spec fn model_correlate(fs: Seq<FlowModel>, next: int, a: Endpoint, b: Endpoint) -> (
    Seq<FlowModel>,
    int,
    int,
) {
    match lookup_id(fs, a, b) {
        Some(id) => (fs, next, id),
        None => (fs.push(FlowModel { id: next, source: a, dest: b }), next + 1, next),
    }
}

// ---------------------------------------------------------------------------
// The store
// ---------------------------------------------------------------------------

fn find_stream_index(streams: &Vec<HttpStream>, a: &Endpoint, b: &Endpoint) -> (r: Option<usize>)
    ensures
        match r {
            Some(j) => find_flow(flow_models(streams@), *a, *b, 0) == Some(j as int) && j
                < streams@.len(),
            None => find_flow(flow_models(streams@), *a, *b, 0) is None,
        },
{
    let ghost fm = flow_models(streams@);
    let mut j: usize = 0;
    while j < streams.len()
        invariant
            j <= streams@.len(),
            fm == flow_models(streams@),
            find_flow(fm, *a, *b, 0) == find_flow(fm, *a, *b, j as int),
        decreases streams@.len() - j,
    {
        proof {
            assert(fm[j as int] == flow_model(streams@[j as int]));
        }
        if (streams[j].source == *a && streams[j].dest == *b) || (streams[j].source == *b
            && streams[j].dest == *a) {
            return Some(j);
        }
        j += 1;
    }
    None
}

impl Store {
    pub fn new() -> (r: Store)
        ensures
            r.streams@ == Seq::<HttpStream>::empty(),
            r.next_id == 0,
    {
        Store { streams: Vec::new(), next_id: 0 }
    }

    /// The identifier of the existing flow whose unordered endpoint pair is
    /// {source, dest}, in either orientation, if there is one.
    pub fn lookup_stream_id(&self, source: &Endpoint, dest: &Endpoint) -> (r: Option<i32>)
        ensures
            match r {
                Some(id) => lookup_id(flow_models(self.streams@), *source, *dest) == Some(
                    id as int,
                ),
                None => lookup_id(flow_models(self.streams@), *source, *dest) is None,
            },
    {
        match find_stream_index(&self.streams, source, dest) {
            Some(j) => Some(self.streams[j].id),
            None => None,
        }
    }

    pub fn add_stream(&mut self, stream: HttpStream)
        ensures
            final(self).streams@ == old(self).streams@.push(stream),
            final(self).next_id == old(self).next_id,
    {
        self.streams.push(stream);
    }

    /// Hand out the next unused identifier; identifiers are strictly
    /// increasing and never reused.
    pub fn get_next_id(&mut self) -> (r: i32)
        requires
            old(self).next_id < i32::MAX,
        ensures
            r == old(self).next_id,
            final(self).next_id == old(self).next_id + 1,
            final(self).streams == old(self).streams,
    {
        let id = self.next_id;
        self.next_id = self.next_id + 1;
        id
    }

    /// Return the identifier of the flow whose unordered pair is
    /// {source, dest}, creating the flow — initiator `source`, responder
    /// `dest`, next unused identifier — when no orientation of the pair is
    /// present.
    pub fn correlate(&mut self, source: &Endpoint, dest: &Endpoint) -> (r: i32)
        requires
            old(self).next_id < i32::MAX,
        ensures
            ({
                let m = model_correlate(
                    flow_models(old(self).streams@),
                    old(self).next_id as int,
                    *source,
                    *dest,
                );
                flow_models(final(self).streams@) == m.0 && final(self).next_id as int == m.1
                    && r as int == m.2
            }),
            lookup_id(flow_models(old(self).streams@), *source, *dest) is Some ==> *final(self)
                == *old(self),
            lookup_id(flow_models(old(self).streams@), *source, *dest) is None ==> ({
                let st = final(self).streams@.last();
                final(self).streams@ == old(self).streams@.push(st) && st.id == r && st.source
                    == *source && st.dest == *dest && st.packets@
                    == Seq::<EnrichedPacket>::empty() && !st.source_fin && !st.dest_fin
                    && st.request is None && st.response is None
            }),
    {
        match self.lookup_stream_id(source, dest) {
            Some(id) => id,
            None => {
                let id = self.get_next_id();
                let st = HttpStream::new(id, *source, *dest);
                self.add_stream(st);
                proof {
                    let old_fm = flow_models(old(self).streams@);
                    assert(flow_models(self.streams@) =~= old_fm.push(
                        FlowModel { id: id as int, source: *source, dest: *dest },
                    ));
                }
                id
            },
        }
    }

    /// Route a packet to the flow whose unordered pair matches its
    /// endpoints: initiator packets feed the request side, responder packets
    /// the response side, each OR-ing its termination flag in. Hands back
    /// the flow's identifier and whether the flow is now complete; `None`
    /// when no flow matches the pair.
    pub fn append_packet(&mut self, packet: EnrichedPacket) -> (r: Option<(i32, bool)>)
        ensures
            match r {
                None => find_flow(flow_models(old(self).streams@), packet.source, packet.dest, 0)
                    is None && *final(self) == *old(self),
                Some(pair) => ({
                    let fj = find_flow(
                        flow_models(old(self).streams@),
                        packet.source,
                        packet.dest,
                        0,
                    );
                    fj matches Some(j) && {
                        let s0 = old(self).streams@[j];
                        let s1 = final(self).streams@[j];
                        pair.0 == s0.id && final(self).next_id == old(self).next_id
                            && final(self).streams@ == old(self).streams@.update(j, s1) && s1.id == s0.id
                            && s1.source == s0.source && s1.dest == s0.dest && s1.request
                            == s0.request && s1.response == s0.response && s1.packets@
                            == s0.packets@.push(packet) && (if s0.source == packet.source {
                            s1.source_fin == (s0.source_fin || packet.fin) && s1.dest_fin
                                == s0.dest_fin
                        } else {
                            s1.dest_fin == (s0.dest_fin || packet.fin) && s1.source_fin
                                == s0.source_fin
                        }) && pair.1 == spec_complete(s1.source_fin, s1.dest_fin)
                    }
                }),
            },
    {
        match find_stream_index(&self.streams, &packet.source, &packet.dest) {
            None => None,
            Some(j) => {
                let ghost before = self.streams@;
                let mut st = self.streams.remove(j);
                let id = st.id;
                if st.source == packet.source {
                    st.append_request_packet(packet);
                } else {
                    st.append_response_packet(packet);
                }
                let complete = st.is_complete();
                self.streams.insert(j, st);
                proof {
                    assert(self.streams@ =~= before.update(j as int, self.streams@[j as int]));
                }
                Some((id, complete))
            },
        }
    }
}

// ---------------------------------------------------------------------------
// Laws of correlation and completion
// ---------------------------------------------------------------------------

proof fn lemma_find_flow_symmetric(fs: Seq<FlowModel>, a: Endpoint, b: Endpoint, i: int)
    ensures
        find_flow(fs, a, b, i) == find_flow(fs, b, a, i),
    decreases fs.len() - i,
{
    if i < fs.len() && !pair_matches(fs[i], a, b) {
        lemma_find_flow_symmetric(fs, a, b, i + 1);
    }
}

proof fn lemma_find_flow_push_none(fs: Seq<FlowModel>, f: FlowModel, a: Endpoint, b: Endpoint, i: int)
    requires
        0 <= i <= fs.len(),
        find_flow(fs, a, b, i) is None,
    ensures
        find_flow(fs.push(f), a, b, i) == if pair_matches(f, a, b) {
            Some(fs.len() as int)
        } else {
            None::<int>
        },
    decreases fs.len() - i,
{
    assert(fs.push(f)[fs.len() as int] == f);
    if i < fs.len() {
        assert(fs.push(f)[i] == fs[i]);
        lemma_find_flow_push_none(fs, f, a, b, i + 1);
    }
}

proof fn lemma_find_flow_push_some(fs: Seq<FlowModel>, f: FlowModel, a: Endpoint, b: Endpoint, i: int, j: int)
    requires
        0 <= i <= fs.len(),
        find_flow(fs, a, b, i) == Some(j),
    ensures
        0 <= j < fs.len(),
        find_flow(fs.push(f), a, b, i) == Some(j),
    decreases fs.len() - i,
{
    if i < fs.len() {
        assert(fs.push(f)[i] == fs[i]);
        if !pair_matches(fs[i], a, b) {
            lemma_find_flow_push_some(fs, f, a, b, i + 1, j);
        }
    }
}

/// Correlation is direction-agnostic: after `correlate` has answered for the
/// pair {a, b}, a later `correlate` of the swapped pair {b, a} hands back
/// the same flow identifier and changes nothing.
pub proof fn lemma_correlate_direction_agnostic(
    fs: Seq<FlowModel>,
    next: int,
    a: Endpoint,
    b: Endpoint,
)
    ensures
        ({
            let m1 = model_correlate(fs, next, a, b);
            let m2 = model_correlate(m1.0, m1.1, b, a);
            m2.2 == m1.2 && m2.0 == m1.0 && m2.1 == m1.1
        }),
{
    lemma_find_flow_symmetric(fs, a, b, 0);
    match find_flow(fs, a, b, 0) {
        Some(j) => {
        },
        None => {
            let f = FlowModel { id: next, source: a, dest: b };
            lemma_find_flow_push_none(fs, f, b, a, 0);
        },
    }
}

/// A flow, once known under some identifier, keeps that identifier: a later
/// `correlate` of any other pair leaves every earlier lookup unchanged.
pub proof fn lemma_correlate_keeps_earlier_flows(
    fs: Seq<FlowModel>,
    next: int,
    a: Endpoint,
    b: Endpoint,
    c: Endpoint,
    d: Endpoint,
)
    requires
        lookup_id(fs, a, b) is Some,
    ensures
        lookup_id(model_correlate(fs, next, c, d).0, a, b) == lookup_id(fs, a, b),
{
    match find_flow(fs, c, d, 0) {
        Some(_) => {
        },
        None => {
            let f = FlowModel { id: next, source: c, dest: d };
            let j = find_flow(fs, a, b, 0)->Some_0;
            lemma_find_flow_push_some(fs, f, a, b, 0, j);
            assert(fs.push(f)[j] == fs[j]);
        },
    }
}

proof fn lemma_fin_after_no_fin(f: bool, ps: Seq<EnrichedPacket>)
    requires
        forall|i: int| 0 <= i < ps.len() ==> !(#[trigger] ps[i]).fin,
    ensures
        fin_after(f, ps) == f,
    decreases ps.len(),
{
    if ps.len() > 0 {
        assert(!ps[0].fin);
        assert(forall|i: int| 0 <= i < ps.skip(1).len() ==> ps.skip(1)[i] == #[trigger] ps[i + 1]);
        lemma_fin_after_no_fin(f, ps.skip(1));
    }
}

proof fn lemma_fin_after_push(f: bool, ps: Seq<EnrichedPacket>, p: EnrichedPacket)
    ensures
        fin_after(f, ps.push(p)) == (fin_after(f, ps) || p.fin),
    decreases ps.len(),
{
    if ps.len() == 0 {
        assert(ps.push(p)[0] == p);
        assert(ps.push(p).skip(1) =~= Seq::<EnrichedPacket>::empty());
        assert(fin_after(f, ps.push(p)) == fin_after(f || p.fin, ps.push(p).skip(1)));
        assert(fin_after(f || p.fin, Seq::<EnrichedPacket>::empty()) == (f || p.fin));
    } else {
        assert(ps.push(p)[0] == ps[0]);
        assert(ps.push(p).skip(1) =~= ps.skip(1).push(p));
        assert(fin_after(f, ps.push(p)) == fin_after(f || ps[0].fin, ps.skip(1).push(p)));
        lemma_fin_after_push(f || ps[0].fin, ps.skip(1), p);
    }
}

/// Completion requires both sides. A flow on which only the initiator has
/// signalled termination stays incomplete under any number of additional
/// non-terminating responder packets, and becomes complete exactly on a
/// responder packet that carries the termination flag; `fin_after` folds the
/// responder flag exactly as repeated `append_response_packet` calls do.
pub proof fn lemma_completion_requires_both_sides(
    s: HttpStream,
    ps: Seq<EnrichedPacket>,
    p: EnrichedPacket,
)
    requires
        s.source_fin,
        !s.dest_fin,
        forall|i: int| 0 <= i < ps.len() ==> !(#[trigger] ps[i]).fin,
    ensures
        !spec_complete(s.source_fin, fin_after(s.dest_fin, ps)),
        spec_complete(s.source_fin, fin_after(s.dest_fin, ps.push(p))) == p.fin,
{
    lemma_fin_after_no_fin(s.dest_fin, ps);
    lemma_fin_after_push(s.dest_fin, ps, p);
}

/// The symmetric reading of the same law: only the responder has signalled
/// termination, and non-terminating initiator packets keep the flow
/// incomplete until an initiator packet carries the termination flag.
pub proof fn lemma_completion_requires_both_sides_rev(
    s: HttpStream,
    ps: Seq<EnrichedPacket>,
    p: EnrichedPacket,
)
    requires
        s.dest_fin,
        !s.source_fin,
        forall|i: int| 0 <= i < ps.len() ==> !(#[trigger] ps[i]).fin,
    ensures
        !spec_complete(fin_after(s.source_fin, ps), s.dest_fin),
        spec_complete(fin_after(s.source_fin, ps.push(p)), s.dest_fin) == p.fin,
{
    lemma_fin_after_no_fin(s.source_fin, ps);
    lemma_fin_after_push(s.source_fin, ps, p);
}

} // verus!

