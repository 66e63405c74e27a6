//! Tickets: what a receiver needs to know of a sender.
use vstd::prelude::*;
use vstd::utf8::*;
use crate::addr;
use crate::addr::{AddrView, SocketAddr};
use crate::beacon;
use crate::beacon::{DiscoveredSender, SenderView};
use crate::options::AddrInfoOptions;
use crate::digits;
use crate::outside;
use crate::text;

verus! {

broadcast use vstd::seq::group_seq_axioms;

/// One way to reach an endpoint.
#[derive(Debug)]
pub enum TransportAddr {
    /// Through a relay, by its URL.
    Relay(String),
    /// Directly.
    Ip(SocketAddr),
    /// In some other way.
    Custom(String),
}

/// What a [`TransportAddr`] holds.
pub enum TransportView {
    /// Through a relay, by its URL.
    Relay(Seq<char>),
    /// Directly.
    Ip(AddrView),
    /// In some other way.
    Custom(Seq<char>),
}

impl View for TransportAddr {
    type V = TransportView;

    open spec fn view(&self) -> TransportView {
        match self {
            TransportAddr::Relay(url) => TransportView::Relay(url@),
            TransportAddr::Ip(a) => TransportView::Ip(a@),
            TransportAddr::Custom(s) => TransportView::Custom(s@),
        }
    }
}

/// The views of a sequence of addresses.
pub open spec fn transport_views(v: Seq<TransportAddr>) -> Seq<TransportView> {
    v.map_values(|a: TransportAddr| a@)
}

/// An endpoint and the ways to reach it.
#[derive(Debug)]
pub struct EndpointAddr {
    /// The id of the endpoint.
    pub id: [u8; 32],
    /// The ways to reach it.
    pub addrs: Vec<TransportAddr>,
}

/// What an [`EndpointAddr`] holds.
#[verifier::ext_equal]
pub struct EndpointView {
    /// The id of the endpoint.
    pub id: Seq<u8>,
    /// The ways to reach it.
    pub addrs: Seq<TransportView>,
}

impl View for EndpointAddr {
    type V = EndpointView;

    open spec fn view(&self) -> EndpointView {
        EndpointView { id: self.id@, addrs: transport_views(self.addrs@) }
    }
}

/// Whether a type of ticket keeps an address.
pub open spec fn keeps(opts: AddrInfoOptions, a: TransportView) -> bool {
    match opts {
        AddrInfoOptions::Id => false,
        AddrInfoOptions::RelayAndAddresses => true,
        AddrInfoOptions::Relay => a is Relay,
        AddrInfoOptions::Addresses => a is Ip,
    }
}

/// The addresses that a type of ticket keeps.
pub open spec fn kept(opts: AddrInfoOptions, addrs: Seq<TransportView>) -> Seq<TransportView> {
    addrs.filter(|a: TransportView| keeps(opts, a))
}

fn keeps_addr(opts: AddrInfoOptions, a: &TransportAddr) -> (r: bool)
    ensures
        r == keeps(opts, a@),
{
    match opts {
        AddrInfoOptions::Id => false,
        AddrInfoOptions::RelayAndAddresses => true,
        AddrInfoOptions::Relay => matches!(a, TransportAddr::Relay(_)),
        AddrInfoOptions::Addresses => matches!(a, TransportAddr::Ip(_)),
    }
}

fn copy_addr(a: &TransportAddr) -> (r: TransportAddr)
    ensures
        r@ == a@,
{
    match a {
        TransportAddr::Relay(url) => TransportAddr::Relay(url.as_str().to_string()),
        TransportAddr::Ip(ip) => TransportAddr::Ip(*ip),
        TransportAddr::Custom(s) => TransportAddr::Custom(s.as_str().to_string()),
    }
}

/// Leaves the addresses that the type of ticket keeps.
pub fn apply_options(addr: &mut EndpointAddr, opts: AddrInfoOptions)
    ensures
        final(addr)@ == (EndpointView { addrs: kept(opts, old(addr)@.addrs), ..old(addr)@ }),
{
    let ghost all = transport_views(addr.addrs@);
    let ghost p = |a: TransportView| keeps(opts, a);
    let mut left: Vec<TransportAddr> = Vec::new();
    proof {
        reveal(Seq::filter);
    }
    assert(transport_views(left@) =~= all.take(0).filter(p));
    for i in 0..addr.addrs.len()
        invariant
            addr.addrs@ == old(addr).addrs@,
            all == transport_views(addr.addrs@),
            p == (|a: TransportView| keeps(opts, a)),
            transport_views(left@) == all.take(i as int).filter(p),
    {
        let ghost before = left@;
        proof {
            reveal(Seq::filter);
        }
        assert(all.take(i + 1).drop_last() =~= all.take(i as int));
        assert(all.take(i + 1).last() == addr.addrs@[i as int]@);
        if keeps_addr(opts, &addr.addrs[i]) {
            left.push(copy_addr(&addr.addrs[i]));
            assert(transport_views(left@) =~= transport_views(before).push(
                addr.addrs@[i as int]@,
            ));
        }
    }
    assert(all.take(all.len() as int) =~= all);
    addr.addrs = left;
}

/// A type of ticket keeps what it kept: applying it again changes nothing.
pub proof fn law_options_idempotent(opts: AddrInfoOptions, addrs: Seq<TransportView>)
    ensures
        kept(opts, kept(opts, addrs)) == kept(opts, addrs),
    decreases addrs.len(),
{
    let p = |a: TransportView| keeps(opts, a);
    reveal(Seq::filter);
    if addrs.len() > 0 {
        law_options_idempotent(opts, addrs.drop_last());
        let front = addrs.drop_last().filter(p);
        if p(addrs.last()) {
            assert(front.push(addrs.last()).drop_last() =~= front);
        }
    } else {
        assert(addrs.filter(p).filter(p) =~= addrs.filter(p));
    }
}

/// A type of ticket keeps every address of its kind and no other.
pub proof fn law_options_keep(
    opts: AddrInfoOptions,
    addrs: Seq<TransportView>,
    a: TransportView,
)
    ensures
        kept(opts, addrs).contains(a) <==> addrs.contains(a) && keeps(opts, a),
    decreases addrs.len(),
{
    let p = |a: TransportView| keeps(opts, a);
    reveal(Seq::filter);
    if addrs.len() > 0 {
        let front = addrs.drop_last();
        law_options_keep(opts, front, a);
        let before = front.filter(p);
        assert(addrs =~= front.push(addrs.last()));
        assert(addrs.contains(a) <==> front.contains(a) || addrs.last() == a) by {
            if front.contains(a) {
                let k = choose|k: int| 0 <= k < front.len() && front[k] == a;
                assert(addrs[k] == a);
            }
            assert(addrs[addrs.len() - 1] == addrs.last());
        }
        if p(addrs.last()) {
            let all = before.push(addrs.last());
            assert(all.contains(a) <==> before.contains(a) || addrs.last() == a) by {
                if before.contains(a) {
                    let k = choose|k: int| 0 <= k < before.len() && before[k] == a;
                    assert(all[k] == a);
                }
                assert(all[all.len() - 1] == addrs.last());
            }
        }
    }
}

/// Whether there is a relay or a direct address among the ways to reach an endpoint.
pub open spec fn reachable(addrs: Seq<TransportView>) -> bool {
    exists|i: int| 0 <= i < addrs.len() && (#[trigger] addrs[i] is Relay || addrs[i] is Ip)
}

/// Whether the receiver has to look the endpoint's addresses up: its ticket holds neither a relay
/// nor a direct address.
pub fn needs_lookup(addr: &EndpointAddr) -> (r: bool)
    ensures
        r == !reachable(addr@.addrs),
{
    let ghost all = addr@.addrs;
    for i in 0..addr.addrs.len()
        invariant
            all == transport_views(addr.addrs@),
            forall|j: int| 0 <= j < i ==> !((#[trigger] all[j]) is Relay) && !(all[j] is Ip),
    {
        assert(all[i as int] == addr.addrs@[i as int]@);
        match addr.addrs[i] {
            TransportAddr::Relay(_) => {
                return false;
            },
            TransportAddr::Ip(_) => {
                return false;
            },
            TransportAddr::Custom(_) => {},
        }
    }
    true
}

/// The receiver of a ticket with the endpoint id alone looks the addresses up.
pub proof fn law_id_ticket_needs_lookup(addrs: Seq<TransportView>)
    ensures
        !reachable(kept(AddrInfoOptions::Id, addrs)),
{
    let left = kept(AddrInfoOptions::Id, addrs);
    assert forall|i: int| 0 <= i < left.len() implies !(#[trigger] left[i] is Relay) && !(left[i]
        is Ip) by {
        law_options_keep(AddrInfoOptions::Id, addrs, left[i]);
        assert(left.contains(left[i]));
    }
}

// ---------------------------------------------------------------------------------------
// Tickets
// ---------------------------------------------------------------------------------------

/// What a receiver needs: the sender, and the hash of what it shares.
#[derive(Debug)]
pub struct Ticket {
    /// The sender.
    pub addr: EndpointAddr,
    /// The hash of what it shares.
    pub hash: [u8; 32],
    /// Whether the hash is that of a hash sequence.
    pub hash_seq: bool,
}

/// What a [`Ticket`] holds.
#[verifier::ext_equal]
pub struct TicketView {
    /// The sender.
    pub addr: EndpointView,
    /// The hash of what it shares.
    pub hash: Seq<u8>,
    /// Whether the hash is that of a hash sequence.
    pub hash_seq: bool,
}

impl View for Ticket {
    type V = TicketView;

    open spec fn view(&self) -> TicketView {
        TicketView { addr: self.addr@, hash: self.hash@, hash_seq: self.hash_seq }
    }
}

/// Why there is no ticket.
#[derive(Debug)]
pub enum TicketError {
    /// The id in a beacon is not a key.
    EndpointId,
    /// The hash in a beacon is not a hash.
    Hash,
    /// A text is not a ticket.
    Text,
}

impl TicketError {
    /// The message of the error.
    pub fn message(&self) -> (s: String)
        ensures
            s@ == match *self {
                TicketError::EndpointId => "invalid endpoint id in beacon"@,
                TicketError::Hash => "invalid hash in beacon"@,
                TicketError::Text => "invalid ticket"@,
            },
    {
        match self {
            TicketError::EndpointId => "invalid endpoint id in beacon".to_string(),
            TicketError::Hash => "invalid hash in beacon".to_string(),
            TicketError::Text => "invalid ticket".to_string(),
        }
    }
}

/// Direct addresses as ways to reach an endpoint.
pub open spec fn direct(addrs: Seq<AddrView>) -> Seq<TransportView> {
    addrs.map_values(|a: AddrView| TransportView::Ip(a))
}

/// The ticket for a sender, given what reading its id and its hash gives.
pub open spec fn sender_ticket(
    s: SenderView,
    id: Option<Seq<u8>>,
    hash: Option<Seq<u8>>,
) -> Result<TicketView, TicketError> {
    match (id, hash) {
        (None, _) => Err(TicketError::EndpointId),
        (Some(_), None) => Err(TicketError::Hash),
        (Some(id), Some(hash)) => Ok(
            TicketView {
                addr: EndpointView { id, addrs: direct(s.addrs) },
                hash,
                hash_seq: s.hash_seq,
            },
        ),
    }
}

/// A result of a ticket or an error, the ticket by its view.
pub open spec fn ticket_result(r: Result<Ticket, TicketError>) -> Result<TicketView, TicketError> {
    match r {
        Ok(t) => Ok(t@),
        Err(e) => Err(e),
    }
}

fn direct_addrs(addrs: &[SocketAddr]) -> (r: Vec<TransportAddr>)
    ensures
        transport_views(r@) == direct(beacon::addr_views(addrs@)),
{
    let mut r: Vec<TransportAddr> = Vec::new();
    for i in 0..addrs.len()
        invariant
            transport_views(r@) == direct(beacon::addr_views(addrs@.take(i as int))),
    {
        let ghost before = r@;
        r.push(TransportAddr::Ip(addrs[i]));
        assert(transport_views(r@) =~= transport_views(before).push(
            TransportView::Ip(addrs@[i as int]@),
        ));
        assert(transport_views(r@) =~= direct(beacon::addr_views(addrs@.take(i + 1))));
    }
    assert(addrs@.take(addrs@.len() as int) =~= addrs@);
    r
}

/// The ticket for a sender, where `id` and `hash` are what reading its id and its hash gave.
pub fn ticket_from_parts(
    sender: &DiscoveredSender,
    id: Option<[u8; 32]>,
    hash: Option<[u8; 32]>,
) -> (r: Result<Ticket, TicketError>)
    ensures
        ticket_result(r) == sender_ticket(
            sender@,
            match id {
                Some(b) => Some(b@),
                None => None,
            },
            match hash {
                Some(b) => Some(b@),
                None => None,
            },
        ),
{
    let id = match id {
        Some(b) => b,
        None => {
            return Err(TicketError::EndpointId);
        },
    };
    let hash = match hash {
        Some(b) => b,
        None => {
            return Err(TicketError::Hash);
        },
    };
    let addrs = direct_addrs(sender.addrs.as_slice());
    Ok(Ticket { addr: EndpointAddr { id, addrs }, hash, hash_seq: sender.hash_seq })
}

/// Makes a ticket from what a sender's beacons say.
pub fn build_ticket(sender: &DiscoveredSender) -> (r: Result<Ticket, TicketError>)
    ensures
        ticket_result(r) == sender_ticket(
            sender@,
            digits::endpoint_of_text(sender@.endpoint_id),
            digits::key_of_text(sender@.hash),
        ),
{
    let id = match outside::parse_endpoint_id(sender.endpoint_id.as_str()) {
        Ok(b) => Some(b),
        Err(_) => None,
    };
    let hash = outside::parse_hash(sender.hash.as_str());
    proof {
        if id is Some {
            digits::lemma_key_of_text(sender@.endpoint_id, id->Some_0@);
        }
        if hash is Some {
            digits::lemma_key_of_text(sender@.hash, hash->Some_0@);
        }
    }
    ticket_from_parts(sender, id, hash)
}

/// The URLs of the relays among the ways to reach an endpoint.
pub open spec fn relay_texts(addrs: Seq<TransportView>) -> Seq<Seq<char>>
    decreases addrs.len(),
{
    if addrs.len() == 0 {
        Seq::empty()
    } else {
        match addrs.last() {
            TransportView::Relay(url) => relay_texts(addrs.drop_last()).push(url),
            _ => relay_texts(addrs.drop_last()),
        }
    }
}

/// The texts of the direct addresses among the ways to reach an endpoint.
pub open spec fn ip_texts(addrs: Seq<TransportView>) -> Seq<Seq<char>>
    decreases addrs.len(),
{
    if addrs.len() == 0 {
        Seq::empty()
    } else {
        match addrs.last() {
            TransportView::Ip(a) => ip_texts(addrs.drop_last()).push(addr::addr_text(a)),
            _ => ip_texts(addrs.drop_last()),
        }
    }
}

/// The direct addresses among the ways to reach an endpoint.
pub open spec fn ip_addrs(addrs: Seq<TransportView>) -> Seq<AddrView>
    decreases addrs.len(),
{
    if addrs.len() == 0 {
        Seq::empty()
    } else {
        match addrs.last() {
            TransportView::Ip(a) => ip_addrs(addrs.drop_last()).push(a),
            _ => ip_addrs(addrs.drop_last()),
        }
    }
}

/// Whether every direct address has as many octets or groups as its kind.
pub open spec fn well_formed(addrs: Seq<TransportView>) -> bool {
    forall|i: int|
        0 <= i < addrs.len() ==> (#[trigger] addrs[i] matches TransportView::Ip(a) ==> a.wf())
}

/// The texts of direct addresses read back as those addresses.
proof fn lemma_ip_texts(addrs: Seq<TransportView>)
    requires
        well_formed(addrs),
    ensures
        beacon::read_addrs(ip_texts(addrs)) == ip_addrs(addrs),
        forall|i: int|
            0 <= i < ip_texts(addrs).len() ==> addr::socket_addr(#[trigger] ip_texts(addrs)[i])
                is Some,
    decreases addrs.len(),
{
    if addrs.len() > 0 {
        let front = addrs.drop_last();
        assert(forall|i: int| 0 <= i < front.len() ==> front[i] == addrs[i]);
        lemma_ip_texts(front);
        assert(addrs[addrs.len() - 1] == addrs.last());
        match addrs.last() {
            TransportView::Ip(a) => {
                addr::law_addr_round_trip(a);
                let all = ip_texts(front).push(addr::addr_text(a));
                assert(all.drop_last() =~= ip_texts(front));
                assert(all.last() == addr::addr_text(a));
            },
            _ => {},
        }
    }
}

/// Among relays and direct addresses, the direct addresses are those.
proof fn lemma_ip_addrs_of_parts(relays: Seq<Seq<char>>, addrs: Seq<AddrView>)
    ensures
        ({
            let all = relays.map_values(|u: Seq<char>| TransportView::Relay(u)) + direct(addrs);
            &&& ip_addrs(all) == addrs
            &&& relay_texts(all) == relays
        }),
    decreases relays.len() + addrs.len(),
{
    let urls = relays.map_values(|u: Seq<char>| TransportView::Relay(u));
    let all = urls + direct(addrs);
    if addrs.len() > 0 {
        lemma_ip_addrs_of_parts(relays, addrs.drop_last());
        assert(all.drop_last() =~= urls + direct(addrs.drop_last()));
        assert(all.last() == TransportView::Ip(addrs.last()));
        assert(ip_addrs(all) =~= addrs);
    } else if relays.len() > 0 {
        lemma_ip_addrs_of_parts(relays.drop_last(), addrs);
        assert(all.drop_last() =~= relays.drop_last().map_values(
            |u: Seq<char>| TransportView::Relay(u),
        ) + direct(addrs));
        assert(all.last() == TransportView::Relay(relays.last()));
        assert(relay_texts(all) =~= relays);
        assert(ip_addrs(all) =~= addrs);
    } else {
        assert(ip_addrs(all) =~= addrs);
        assert(relay_texts(all) =~= relays);
    }
}

/// The ticket that a text writes, given what reading it gives.
pub open spec fn ticket_of_parts(
    parts: (Seq<u8>, Seq<Seq<char>>, Seq<Seq<char>>, Seq<u8>, bool),
) -> TicketView {
    TicketView {
        addr: EndpointView {
            id: parts.0,
            addrs: parts.1.map_values(|u: Seq<char>| TransportView::Relay(u)) + direct(
                beacon::read_addrs(parts.2),
            ),
        },
        hash: parts.3,
        hash_seq: parts.4,
    }
}

impl TicketView {
    /// The text of the ticket, where its parts make one.
    pub open spec fn text(self) -> Option<Seq<char>> {
        outside::blob_ticket_text(
            self.addr.id,
            relay_texts(self.addr.addrs),
            ip_texts(self.addr.addrs),
            self.hash,
            self.hash_seq,
        )
    }
}

impl Ticket {
    /// The text of the ticket, where its parts make one. What is read from the text is a ticket
    /// for the same content of the same sender, with the same direct addresses but for the scope of
    /// those of IPv6, and with the first of the relays where there are any.
    pub fn to_text(&self) -> (r: Option<String>)
        ensures
            r matches Some(t) ==> self@.text() == Some(t@),
            r is None ==> self@.text() is None,
            !outside::is_endpoint_key(self@.addr.id) ==> r is None,
            outside::is_endpoint_key(self@.addr.id) && (forall|i: int|
                0 <= i < relay_texts(self@.addr.addrs).len() ==> outside::relay_url_of_text(
                    #[trigger] relay_texts(self@.addr.addrs)[i],
                ) is Some) ==> r is Some,
            r matches Some(t) ==> exists|data: Seq<u8>|
                t@ == "blob"@ + #[trigger] digits::base32_lower(data),
            r matches Some(t) ==> text::is_trimmed(t@),
            r matches Some(t) ==> (forall|i: int|
                0 <= i < relay_texts(self@.addr.addrs).len() ==> outside::is_stable_url(
                    #[trigger] relay_texts(self@.addr.addrs)[i],
                )) ==> (outside::blob_ticket_of_text(t@) matches Some(parts) && (relay_texts(
                self@.addr.addrs,
            ).len() > 0 ==> outside::is_first_url(
                relay_texts(self@.addr.addrs),
                relay_texts(ticket_of_parts(parts).addr.addrs)[0],
            ))),
            r matches Some(t) ==> (outside::blob_ticket_of_text(t@) matches Some(parts) ==> {
                let back = ticket_of_parts(parts);
                &&& back.addr.id == self@.addr.id
                &&& back.hash == self@.hash
                &&& back.hash_seq == self@.hash_seq
                &&& ip_addrs(back.addr.addrs).to_set() == ip_addrs(self@.addr.addrs).map_values(
                    |a: AddrView| a.unscoped(),
                ).to_set()
                &&& relay_texts(back.addr.addrs).len() == (if relay_texts(self@.addr.addrs).len()
                    == 0 {
                    0int
                } else {
                    1int
                })
            }),
    {
        let ghost all = self.addr@.addrs;
        let mut relays: Vec<String> = Vec::new();
        let mut ips: Vec<String> = Vec::new();
        assert(text::texts(relays@) =~= relay_texts(all.take(0)));
        assert(text::texts(ips@) =~= ip_texts(all.take(0)));
        for i in 0..self.addr.addrs.len()
            invariant
                all == transport_views(self.addr.addrs@),
                well_formed(all.take(i as int)),
                text::texts(relays@) == relay_texts(all.take(i as int)),
                text::texts(ips@) == ip_texts(all.take(i as int)),
        {
            let ghost r0 = relays@;
            let ghost i0 = ips@;
            assert(all.take(i + 1).drop_last() =~= all.take(i as int));
            assert(all.take(i + 1).last() == self.addr.addrs@[i as int]@);
            assert(forall|j: int| 0 <= j < i ==> all.take(i + 1)[j] == all.take(i as int)[j]);
            match &self.addr.addrs[i] {
                TransportAddr::Relay(url) => {
                    relays.push(url.as_str().to_string());
                    assert(text::texts(relays@) =~= text::texts(r0).push(url@));
                },
                TransportAddr::Ip(a) => {
                    ips.push(a.to_text());
                    assert(text::texts(ips@) =~= text::texts(i0).push(addr::addr_text(a@)));
                },
                TransportAddr::Custom(_) => {},
            }
        }
        assert(all.take(all.len() as int) =~= all);
        assert(text::texts(relays@).len() == relays@.len());
        assert(text::texts(ips@).len() == ips@.len());
        proof {
            lemma_ip_texts(all);
            assert(forall|i: int|
                0 <= i < ips@.len() ==> (#[trigger] ips@[i])@ == text::texts(ips@)[i]);
            assert(forall|i: int|
                0 <= i < relays@.len() ==> (#[trigger] relays@[i])@ == text::texts(relays@)[i]);
        }
        let r = outside::write_blob_ticket(self.addr.id, &relays, &ips, self.hash, self.hash_seq);
        proof {
            if r is Some {
                let t = r->Some_0@;
                let data = choose|data: Seq<u8>|
                    t == "blob"@ + #[trigger] digits::base32_lower(data);
                reveal_strlit("blob");
                digits::lemma_base32_trimmed("blob"@, data);
                if let Some(parts) = outside::blob_ticket_of_text(t) {
                    lemma_ip_addrs_of_parts(parts.1, beacon::read_addrs(parts.2));
                }
            }
        }
        r
    }

    /// Reads a ticket.
    pub fn parse(s: &str) -> (r: Result<Ticket, TicketError>)
        ensures
            r matches Ok(t) ==> (outside::blob_ticket_of_text(s@) matches Some(parts) && t@
                == ticket_of_parts(parts)),
            r matches Err(e) ==> outside::blob_ticket_of_text(s@) is None && e is Text,
    {
        let parts = match outside::read_blob_ticket(s) {
            Some(p) => p,
            None => {
                return Err(TicketError::Text);
            },
        };
        let ghost urls = text::texts(parts.relays@).map_values(
            |u: Seq<char>| TransportView::Relay(u),
        );
        let mut addrs: Vec<TransportAddr> = Vec::new();
        for i in 0..parts.relays.len()
            invariant
                urls == text::texts(parts.relays@).map_values(
                    |u: Seq<char>| TransportView::Relay(u),
                ),
                transport_views(addrs@) == urls.take(i as int),
        {
            let ghost before = addrs@;
            addrs.push(TransportAddr::Relay(parts.relays[i].as_str().to_string()));
            assert(transport_views(addrs@) =~= transport_views(before).push(urls[i as int]));
            assert(urls.take(i + 1) =~= urls.take(i as int).push(urls[i as int]));
        }
        assert(urls.take(urls.len() as int) =~= urls);
        let ghost list = text::texts(parts.addrs@);
        assert(direct(beacon::read_addrs(list.take(0))) =~= Seq::<TransportView>::empty());
        assert(transport_views(addrs@) =~= urls + direct(beacon::read_addrs(list.take(0))));
        for i in 0..parts.addrs.len()
            invariant
                list == text::texts(parts.addrs@),
                transport_views(addrs@) == urls + direct(beacon::read_addrs(list.take(i as int))),
        {
            let ghost before = addrs@;
            assert(list.take(i + 1).drop_last() =~= list.take(i as int));
            assert(list.take(i + 1).last() == parts.addrs@[i as int]@);
            match SocketAddr::parse(parts.addrs[i].as_str()) {
                Some(a) => {
                    addrs.push(TransportAddr::Ip(a));
                    assert(transport_views(addrs@) =~= transport_views(before).push(
                        TransportView::Ip(a@),
                    ));
                    assert(direct(beacon::read_addrs(list.take(i + 1))) =~= direct(
                        beacon::read_addrs(list.take(i as int)),
                    ).push(TransportView::Ip(a@)));
                    assert(transport_views(addrs@) =~= urls + direct(
                        beacon::read_addrs(list.take(i + 1)),
                    ));
                },
                None => {},
            }
        }
        assert(list.take(list.len() as int) =~= list);
        Ok(
            Ticket {
                addr: EndpointAddr { id: parts.id, addrs },
                hash: parts.hash,
                hash_seq: parts.hash_seq,
            },
        )
    }
}

/// The ticket for what a sender shares, which is a collection: the endpoint with the addresses that
/// the type of ticket keeps, and the hash.
pub fn share_ticket(addr: EndpointAddr, opts: AddrInfoOptions, hash: [u8; 32]) -> (r: Ticket)
    ensures
        r@ == (TicketView {
            addr: EndpointView { addrs: kept(opts, addr@.addrs), ..addr@ },
            hash: hash@,
            hash_seq: true,
        }),
{
    let mut addr = addr;
    apply_options(&mut addr, opts);
    Ticket { addr, hash, hash_seq: true }
}

// ---------------------------------------------------------------------------------------
// The receive command
// ---------------------------------------------------------------------------------------

/// The command that receives what a ticket is for.
pub open spec fn receive_command(ticket: Seq<char>) -> Seq<char> {
    "dshe receive "@ + ticket
}

/// The command that receives what a ticket is for.
pub fn write_receive_command(ticket: &str) -> (s: String)
    ensures
        s@ == receive_command(ticket@),
{
    let mut s = "dshe receive ".to_string();
    s.append(ticket);
    s
}

/// Why a command is not shown as a QR code.
#[derive(Debug)]
pub struct QrFailure {
    /// What the encoder says.
    pub cause: qrcode::types::QrError,
}

/// The receive command as a QR code. It fails where no code holds the command.
pub fn ticket_qr(ticket: &str) -> (r: Result<String, QrFailure>)
    ensures
        r matches Ok(s) ==> outside::qr_text(receive_command(ticket@)) == Some(s@),
        r is Err ==> outside::qr_text(receive_command(ticket@)) is None,
{
    let command = write_receive_command(ticket);
    match outside::draw_qr(command.as_str()) {
        Ok(s) => Ok(s),
        Err(cause) => Err(QrFailure { cause }),
    }
}

/// A receiver hears a sender's announcement as it was made, and the ticket that is built from it is
/// one for the sender and the content that were meant.
pub proof fn law_announcement_makes_ticket(
    id: Seq<u8>,
    addrs: Seq<AddrView>,
    hash: Seq<u8>,
    hash_seq: bool,
    size: u64,
    name: Seq<char>,
)
    requires
        id.len() == 32,
        outside::is_endpoint_key(id),
        hash.len() == 32,
        forall|i: int| 0 <= i < addrs.len() ==> (#[trigger] addrs[i]).wf(),
    ensures
        ({
            let s = beacon::announced(id, addrs, hash, hash_seq, size, name);
            &&& beacon::beacon_of(encode_utf8(beacon::beacon_text(s))) == Some(s)
            &&& sender_ticket(
                s,
                digits::endpoint_of_text(s.endpoint_id),
                digits::key_of_text(s.hash),
            ) == Ok::<TicketView, TicketError>(
                TicketView {
                    addr: EndpointView { id, addrs: direct(addrs) },
                    hash,
                    hash_seq,
                },
            )
        }),
{
    let s = beacon::announced(id, addrs, hash, hash_seq, size, name);
    assert(digits::writes_key(s.endpoint_id, id));
    assert(digits::writes_key(s.hash, hash));
    digits::lemma_key_of_text(s.endpoint_id, id);
    digits::lemma_key_of_text(s.hash, hash);
    digits::lemma_hex_lacks_bar(id);
    digits::lemma_hex_lacks_bar(hash);
    beacon::law_beacon_round_trip(s);
}

// ---------------------------------------------------------------------------------------
// What holds of tickets
// ---------------------------------------------------------------------------------------

/// A ticket with the id alone holds no address, one with the relay and the addresses holds all, and
/// the other two hold every relay or every direct address, and nothing else.
pub proof fn law_ticket_types(addrs: Seq<TransportView>, a: TransportView)
    ensures
        kept(AddrInfoOptions::Id, addrs).len() == 0,
        kept(AddrInfoOptions::RelayAndAddresses, addrs) == addrs,
        kept(AddrInfoOptions::Relay, addrs).contains(a) <==> addrs.contains(a) && a is Relay,
        kept(AddrInfoOptions::Addresses, addrs).contains(a) <==> addrs.contains(a) && a is Ip,
{
    law_options_keep(AddrInfoOptions::Relay, addrs, a);
    law_options_keep(AddrInfoOptions::Addresses, addrs, a);
    let none = kept(AddrInfoOptions::Id, addrs);
    if none.len() > 0 {
        law_options_keep(AddrInfoOptions::Id, addrs, none[0]);
        assert(none.contains(none[0]));
    }
    lemma_kept_all(addrs);
}

proof fn lemma_kept_all(addrs: Seq<TransportView>)
    ensures
        kept(AddrInfoOptions::RelayAndAddresses, addrs) == addrs,
    decreases addrs.len(),
{
    let p = |a: TransportView| keeps(AddrInfoOptions::RelayAndAddresses, a);
    reveal(Seq::filter);
    if addrs.len() > 0 {
        lemma_kept_all(addrs.drop_last());
        assert(p(addrs.last()));
        assert(addrs.drop_last().push(addrs.last()) =~= addrs);
    } else {
        assert(addrs.filter(p) =~= addrs);
    }
}

/// What a ticket keeps stays in order: keeping the addresses of two runs keeps those of the first,
/// and then those of the second.
pub proof fn law_kept_in_order(
    opts: AddrInfoOptions,
    a: Seq<TransportView>,
    b: Seq<TransportView>,
)
    ensures
        kept(opts, a + b) == kept(opts, a) + kept(opts, b),
    decreases b.len(),
{
    let p = |a: TransportView| keeps(opts, a);
    reveal(Seq::filter);
    if b.len() == 0 {
        assert(a + b =~= a);
        assert(kept(opts, a) + kept(opts, b) =~= kept(opts, a));
    } else {
        law_kept_in_order(opts, a, b.drop_last());
        assert((a + b).drop_last() =~= a + b.drop_last());
        assert((a + b).last() == b.last());
        assert(kept(opts, a + b) =~= kept(opts, a) + kept(opts, b));
    }
}

/// One relay or one direct address is enough to reach an endpoint; other ways are not.
pub proof fn law_reachable(addrs: Seq<TransportView>, url: Seq<char>, ip: AddrView)
    ensures
        addrs.contains(TransportView::Relay(url)) ==> reachable(addrs),
        addrs.contains(TransportView::Ip(ip)) ==> reachable(addrs),
        (forall|i: int| 0 <= i < addrs.len() ==> (#[trigger] addrs[i]) is Custom) ==> !reachable(
            addrs,
        ),
{
    if addrs.contains(TransportView::Relay(url)) {
        let i = choose|i: int| 0 <= i < addrs.len() && addrs[i] == TransportView::Relay(url);
        assert(addrs[i] is Relay);
    }
    if addrs.contains(TransportView::Ip(ip)) {
        let i = choose|i: int| 0 <= i < addrs.len() && addrs[i] == TransportView::Ip(ip);
        assert(addrs[i] is Ip);
    }
}

/// The ticket for a sender is for its own id, its own hash and all its addresses, in order. There is
/// none where the id or the hash cannot be read, and the id is looked at first.
pub proof fn law_sender_ticket(s: SenderView, id: Seq<u8>, hash: Seq<u8>)
    ensures
        sender_ticket(s, Some(id), Some(hash)) matches Ok(t) && {
            &&& t.addr.id == id
            &&& t.hash == hash
            &&& t.hash_seq == s.hash_seq
            &&& ip_addrs(t.addr.addrs) == s.addrs
            &&& relay_texts(t.addr.addrs).len() == 0
            &&& t.addr.addrs.len() == s.addrs.len()
        },
        forall|h: Option<Seq<u8>>|
            #[trigger] sender_ticket(s, None, h) == Err::<TicketView, TicketError>(
                TicketError::EndpointId,
            ),
        sender_ticket(s, Some(id), None) == Err::<TicketView, TicketError>(TicketError::Hash),
{
    let none = Seq::<Seq<char>>::empty();
    lemma_ip_addrs_of_parts(none, s.addrs);
    assert(none.map_values(|u: Seq<char>| TransportView::Relay(u)) + direct(s.addrs) =~= direct(
        s.addrs,
    ));
}

/// A ticket that is read has what its text holds: the endpoint, its relays and its addresses, the
/// hash and its kind.
pub proof fn law_ticket_of_parts(
    parts: (Seq<u8>, Seq<Seq<char>>, Seq<Seq<char>>, Seq<u8>, bool),
)
    ensures
        ticket_of_parts(parts).addr.id == parts.0,
        relay_texts(ticket_of_parts(parts).addr.addrs) == parts.1,
        ip_addrs(ticket_of_parts(parts).addr.addrs) == beacon::read_addrs(parts.2),
        ticket_of_parts(parts).addr.addrs.len() == parts.1.len() + beacon::read_addrs(
            parts.2,
        ).len(),
        ticket_of_parts(parts).hash == parts.3,
        ticket_of_parts(parts).hash_seq == parts.4,
{
    lemma_ip_addrs_of_parts(parts.1, beacon::read_addrs(parts.2));
}

/// Every relay and every direct address of an endpoint goes into the text of its ticket, and nothing
/// else does.
pub proof fn law_ticket_text_holds_addresses(
    addrs: Seq<TransportView>,
    url: Seq<char>,
    ip: AddrView,
)
    ensures
        relay_texts(addrs).contains(url) <==> addrs.contains(TransportView::Relay(url)),
        ip_addrs(addrs).contains(ip) <==> addrs.contains(TransportView::Ip(ip)),
        addrs.contains(TransportView::Ip(ip)) ==> ip_texts(addrs).contains(addr::addr_text(ip)),
        ip_texts(addrs).len() == ip_addrs(addrs).len(),
        relay_texts(addrs).len() + ip_texts(addrs).len() <= addrs.len(),
    decreases addrs.len(),
{
    if addrs.len() > 0 {
        let front = addrs.drop_last();
        let last = addrs.last();
        law_ticket_text_holds_addresses(front, url, ip);
        assert(addrs =~= front.push(last));
        lemma_push_contains(front, last, TransportView::Relay(url));
        lemma_push_contains(front, last, TransportView::Ip(ip));
        match last {
            TransportView::Relay(u) => {
                lemma_push_contains(relay_texts(front), u, url);
            },
            TransportView::Ip(a) => {
                lemma_push_contains(ip_addrs(front), a, ip);
                lemma_push_contains(
                    ip_texts(front),
                    addr::addr_text(a),
                    addr::addr_text(ip),
                );
            },
            TransportView::Custom(_) => {},
        }
    }
}

proof fn lemma_push_contains<T>(front: Seq<T>, last: T, x: T)
    ensures
        front.push(last).contains(x) <==> front.contains(x) || last == x,
{
    let all = front.push(last);
    if front.contains(x) {
        let i = choose|i: int| 0 <= i < front.len() && front[i] == x;
        assert(all[i] == x);
    }
    assert(all[all.len() - 1] == last);
    if all.contains(x) {
        let i = choose|i: int| 0 <= i < all.len() && all[i] == x;
        if i < front.len() {
            assert(front[i] == x);
        }
    }
}

/// Whatever packets come, the ticket for a sender that is found is one for the sender and the
/// content that were announced first, with every address that was.
pub proof fn law_found_sender_makes_ticket(
    packets: Seq<Seq<u8>>,
    at: int,
    id: Seq<u8>,
    addrs: Seq<AddrView>,
    hash: Seq<u8>,
    hash_seq: bool,
    size: u64,
    name: Seq<char>,
    a: AddrView,
)
    requires
        0 <= at < packets.len(),
        packets[at] == encode_utf8(
            beacon::beacon_text(beacon::announced(id, addrs, hash, hash_seq, size, name)),
        ),
        forall|i: int|
            0 <= i < at ==> !beacon::announces(#[trigger] packets[i], digits::hex_lower(id)),
        id.len() == 32,
        outside::is_endpoint_key(id),
        hash.len() == 32,
        forall|i: int| 0 <= i < addrs.len() ==> (#[trigger] addrs[i]).wf(),
    ensures
        beacon::find(beacon::heard(packets), digits::hex_lower(id)) matches Some(s) && {
            &&& s.name == name
            &&& s.size == size
            &&& sender_ticket(
                s,
                digits::endpoint_of_text(s.endpoint_id),
                digits::key_of_text(s.hash),
            ) matches Ok(t) && {
                &&& t.addr.id == id
                &&& t.hash == hash
                &&& t.hash_seq == hash_seq
                &&& addrs.contains(a) ==> t.addr.addrs.contains(TransportView::Ip(a))
            }
        },
{
    beacon::law_announced(id, addrs, hash, hash_seq, size, name);
    let b = beacon::beacon_of(packets[at]).unwrap();
    beacon::law_first_beacon_describes_sender(packets, at, b);
    beacon::law_announced_sender_is_found(packets, at, b);
    let s = beacon::find(beacon::heard(packets), digits::hex_lower(id)).unwrap();
    assert(digits::writes_key(s.endpoint_id, id));
    assert(digits::writes_key(s.hash, hash));
    digits::lemma_key_of_text(s.endpoint_id, id);
    digits::lemma_key_of_text(s.hash, hash);
    if addrs.contains(a) {
        assert(s.addrs.contains(a));
        let i = choose|i: int| 0 <= i < s.addrs.len() && s.addrs[i] == a;
        assert(direct(s.addrs)[i] == TransportView::Ip(a));
    }
}

/// An endpoint and a ticket are looked at with all that they hold, the addresses one by one: none is
/// left out, added or moved.
pub proof fn law_ticket_view(t: Ticket, i: int)
    ensures
        t@.hash == t.hash@,
        t@.hash_seq == t.hash_seq,
        t@.addr == t.addr@,
        t@.addr.id == t.addr.id@,
        t@.addr.addrs == transport_views(t.addr.addrs@),
        t@.addr.addrs.len() == t.addr.addrs@.len(),
        0 <= i < t.addr.addrs@.len() ==> {
            let a = t@.addr.addrs[i];
            &&& t.addr.addrs@[i] matches TransportAddr::Relay(url) ==> a == TransportView::Relay(
                url@,
            )
            &&& t.addr.addrs@[i] matches TransportAddr::Ip(ip) ==> a == TransportView::Ip(ip@)
            &&& t.addr.addrs@[i] matches TransportAddr::Custom(s) ==> a == TransportView::Custom(
                s@,
            )
        },
        ticket_result(Ok(t)) == Ok::<TicketView, TicketError>(t@),
{
}

/// Direct addresses are ways to reach an endpoint, one by one and in order.
pub proof fn law_direct(addrs: Seq<AddrView>, i: int)
    ensures
        direct(addrs).len() == addrs.len(),
        0 <= i < addrs.len() ==> direct(addrs)[i] == TransportView::Ip(addrs[i]),
{
}

}
