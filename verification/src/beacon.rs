//! The packets by which a sender announces its share on the local network, and what a receiver
//! learns from them.
use vstd::prelude::*;
use vstd::utf8::*;
use crate::addr;
use crate::addr::{AddrView, SocketAddr};
use crate::digits;
use crate::outside;
use crate::text;

verus! {

broadcast use vstd::seq::group_seq_axioms;

/// The UDP port of the beacons.
pub const BEACON_PORT: u16 = 51510;

/// The multicast group of the beacons; they go to the broadcast address too.
pub fn beacon_multicast() -> (r: [u8; 4])
    ensures
        r@ == seq![239u8, 255, 43, 211],
{
    [239, 255, 43, 211]
}

/// A sender, as its beacons describe it.
#[derive(Debug)]
pub struct DiscoveredSender {
    /// The id of the sender's endpoint.
    pub endpoint_id: String,
    /// The hash of what it shares.
    pub hash: String,
    /// Whether the hash is that of a hash sequence.
    pub hash_seq: bool,
    /// The name of what it shares.
    pub name: String,
    /// The size of what it shares, in bytes.
    pub size: u64,
    /// Where the sender can be reached.
    pub addrs: Vec<SocketAddr>,
}

/// What a [`DiscoveredSender`] holds.
#[verifier::ext_equal]
pub struct SenderView {
    /// The id of the sender's endpoint.
    pub endpoint_id: Seq<char>,
    /// The hash of what it shares.
    pub hash: Seq<char>,
    /// Whether the hash is that of a hash sequence.
    pub hash_seq: bool,
    /// The name of what it shares.
    pub name: Seq<char>,
    /// The size of what it shares, in bytes.
    pub size: u64,
    /// Where the sender can be reached.
    pub addrs: Seq<AddrView>,
}

/// The views of a sequence of addresses.
pub open spec fn addr_views(v: Seq<SocketAddr>) -> Seq<AddrView> {
    v.map_values(|a: SocketAddr| a@)
}

impl View for DiscoveredSender {
    type V = SenderView;

    open spec fn view(&self) -> SenderView {
        SenderView {
            endpoint_id: self.endpoint_id@,
            hash: self.hash@,
            hash_seq: self.hash_seq,
            name: self.name@,
            size: self.size,
            addrs: addr_views(self.addrs@),
        }
    }
}

// ---------------------------------------------------------------------------------------
// Writing
// ---------------------------------------------------------------------------------------

/// The texts of the addresses with commas between them.
pub open spec fn addr_list_text(addrs: Seq<AddrView>) -> Seq<char> {
    text::join(addrs.map_values(|a: AddrView| addr::addr_text(a)), ',')
}

/// The digit for a share of a hash sequence or of a single blob.
pub open spec fn hash_seq_text(hash_seq: bool) -> Seq<char> {
    if hash_seq {
        "1"@
    } else {
        "0"@
    }
}

/// The text of a beacon: a tag and six fields with bars between them, the name last.
pub open spec fn beacon_text(s: SenderView) -> Seq<char> {
    "DSHE1|"@ + text::join(
        seq![
            s.endpoint_id,
            s.hash,
            hash_seq_text(s.hash_seq),
            text::decimal(s.size as nat),
            addr_list_text(s.addrs),
            s.name,
        ],
        '|',
    )
}

/// Writes the beacon of a share.
pub fn beacon_packet(
    endpoint_id: &str,
    addrs: &[SocketAddr],
    hash: &str,
    hash_seq: bool,
    size: u64,
    name: &str,
) -> (packet: String)
    ensures
        packet@ == beacon_text(
            SenderView {
                endpoint_id: endpoint_id@,
                hash: hash@,
                hash_seq,
                name: name@,
                size,
                addrs: addr_views(addrs@),
            },
        ),
{
    let mut list: Vec<String> = Vec::new();
    for i in 0..addrs.len()
        invariant
            text::texts(list@) == addr_views(addrs@.take(i as int)).map_values(
                |a: AddrView| addr::addr_text(a),
            ),
    {
        let ghost before = list@;
        list.push(addrs[i].to_text());
        assert(text::texts(list@) =~= text::texts(before).push(addr::addr_text(addrs@[i as int]@)));
        assert(addr_views(addrs@.take(i + 1)) =~= addr_views(addrs@.take(i as int)).push(
            addrs@[i as int]@,
        ));
        assert(text::texts(list@) =~= addr_views(addrs@.take(i + 1)).map_values(
            |a: AddrView| addr::addr_text(a),
        ));
    }
    assert(addrs@.take(addrs@.len() as int) =~= addrs@);
    let mut fields: Vec<String> = Vec::new();
    fields.push(endpoint_id.to_string());
    fields.push(hash.to_string());
    fields.push(
        if hash_seq {
            "1".to_string()
        } else {
            "0".to_string()
        },
    );
    fields.push(text::decimal_string(size));
    fields.push(text::join_strings(list.as_slice(), ','));
    fields.push(name.to_string());
    assert(text::texts(fields@) =~= seq![
        endpoint_id@,
        hash@,
        hash_seq_text(hash_seq),
        text::decimal(size as nat),
        addr_list_text(addr_views(addrs@)),
        name@,
    ]);
    let mut packet = "DSHE1|".to_string();
    packet.append(text::join_strings(fields.as_slice(), '|').as_str());
    packet
}

/// What a sender announces of its share: the id and the hash go out in hexadecimal.
pub open spec fn announced(
    id: Seq<u8>,
    addrs: Seq<AddrView>,
    hash: Seq<u8>,
    hash_seq: bool,
    size: u64,
    name: Seq<char>,
) -> SenderView {
    SenderView {
        endpoint_id: digits::hex_lower(id),
        hash: digits::hex_lower(hash),
        hash_seq,
        name,
        size,
        addrs,
    }
}

/// Writes the beacon of a share, given the bytes of the endpoint's id and of the hash.
pub fn announcement(
    id: &[u8; 32],
    addrs: &[SocketAddr],
    hash: &[u8; 32],
    hash_seq: bool,
    size: u64,
    name: &str,
) -> (packet: String)
    ensures
        packet@ == beacon_text(announced(id@, addr_views(addrs@), hash@, hash_seq, size, name@)),
{
    let endpoint_id = outside::hex_encode(id.as_slice());
    let hash = outside::hash_to_hex(*hash);
    beacon_packet(endpoint_id.as_str(), addrs, hash.as_str(), hash_seq, size, name)
}

// ---------------------------------------------------------------------------------------
// Reading
// ---------------------------------------------------------------------------------------

/// The addresses among the texts, in order; the others are passed over.
pub open spec fn read_addrs(parts: Seq<Seq<char>>) -> Seq<AddrView>
    decreases parts.len(),
{
    if parts.len() == 0 {
        Seq::empty()
    } else {
        match addr::socket_addr(parts.last()) {
            Some(a) => read_addrs(parts.drop_last()).push(a),
            None => read_addrs(parts.drop_last()),
        }
    }
}

/// What the fields of a beacon say.
pub open spec fn beacon_fields(parts: Seq<Seq<char>>) -> SenderView {
    SenderView {
        endpoint_id: parts[0],
        hash: parts[1],
        hash_seq: parts[2] == "1"@,
        name: text::join(parts.skip(5), '|'),
        size: match text::unsigned(parts[3], u64::MAX as nat) {
            Some(n) => n as u64,
            None => 0,
        },
        addrs: read_addrs(text::split(parts[4], ',')),
    }
}

/// What a packet says, where it is a beacon: text that starts with the tag and has at least six
/// fields. Bars after the fifth field belong to the name.
pub open spec fn beacon_of(packet: Seq<u8>) -> Option<SenderView> {
    if !valid_utf8(packet) {
        None
    } else {
        match text::after_prefix(decode_utf8(packet), "DSHE1|"@) {
            Some(rest) => {
                let parts = text::split(rest, '|');
                if parts.len() >= 6 {
                    Some(beacon_fields(parts))
                } else {
                    None
                }
            },
            None => None,
        }
    }
}

fn parse_addrs(list: &[char]) -> (r: Vec<SocketAddr>)
    ensures
        addr_views(r@) == read_addrs(text::split(list@, ',')),
{
    let parts = text::split_chars(list, ',');
    let ghost all = text::views(parts@);
    let mut r: Vec<SocketAddr> = Vec::new();
    assert(addr_views(r@) =~= read_addrs(all.take(0)));
    for i in 0..parts.len()
        invariant
            all == text::views(parts@),
            addr_views(r@) == read_addrs(all.take(i as int)),
    {
        let ghost before = r@;
        assert(all.take(i + 1).drop_last() =~= all.take(i as int));
        assert(all.take(i + 1).last() == parts@[i as int]@);
        let s = text::string_of(parts[i].as_slice());
        match SocketAddr::parse(s.as_str()) {
            Some(a) => {
                r.push(a);
                assert(addr_views(r@) =~= addr_views(before).push(a@));
            },
            None => {},
        }
    }
    assert(all.take(all.len() as int) =~= all);
    r
}

fn read_fields(parts: &[Vec<char>]) -> (r: DiscoveredSender)
    requires
        parts@.len() >= 6,
    ensures
        r@ == beacon_fields(text::views(parts@)),
{
    let ghost all = text::views(parts@);
    let mut name: Vec<String> = Vec::new();
    for i in 5..parts.len()
        invariant
            all == text::views(parts@),
            5 <= parts@.len(),
            text::texts(name@) == all.subrange(5, i as int),
    {
        let ghost before = name@;
        name.push(text::string_of(parts[i].as_slice()));
        assert(text::texts(name@) =~= text::texts(before).push(all[i as int]));
        assert(all.subrange(5, i + 1) =~= all.subrange(5, i as int).push(all[i as int]));
    }
    assert(all.subrange(5, all.len() as int) =~= all.skip(5));
    let format = text::string_of(parts[2].as_slice());
    let size = match text::read_unsigned(parts[3].as_slice(), u64::MAX) {
        Some(n) => n,
        None => 0,
    };
    assert(all[0] == parts@[0]@ && all[1] == parts@[1]@ && all[2] == parts@[2]@ && all[3]
        == parts@[3]@ && all[4] == parts@[4]@);
    DiscoveredSender {
        endpoint_id: text::string_of(parts[0].as_slice()),
        hash: text::string_of(parts[1].as_slice()),
        hash_seq: text::same_text(format.as_str(), "1"),
        name: text::join_strings(name.as_slice(), '|'),
        size,
        addrs: parse_addrs(parts[4].as_slice()),
    }
}

/// Reads a packet, where it is a beacon.
pub fn read_beacon(packet: &[u8]) -> (r: Option<DiscoveredSender>)
    ensures
        r matches Some(s) ==> beacon_of(packet@) == Some(s@),
        r is None ==> beacon_of(packet@) is None,
{
    let s = match outside::utf8_string(packet) {
        Some(s) => s,
        None => {
            return None;
        },
    };
    let chars = text::chars_of(s.as_str());
    let tag = text::chars_of("DSHE1|");
    if !text::has_prefix(chars.as_slice(), tag.as_slice()) {
        return None;
    }
    let rest = text::slice_chars(chars.as_slice(), tag.len(), chars.len());
    assert(rest@ =~= chars@.skip(tag@.len() as int));
    let parts = text::split_chars(rest.as_slice(), '|');
    assert(text::views(parts@).len() == parts@.len());
    if parts.len() < 6 {
        return None;
    }
    Some(read_fields(parts.as_slice()))
}

proof fn lemma_read_addrs(addrs: Seq<AddrView>)
    requires
        forall|i: int| 0 <= i < addrs.len() ==> (#[trigger] addrs[i]).wf(),
    ensures
        read_addrs(addrs.map_values(|a: AddrView| addr::addr_text(a))) == addrs,
    decreases addrs.len(),
{
    let parts = addrs.map_values(|a: AddrView| addr::addr_text(a));
    if addrs.len() == 0 {
        assert(read_addrs(parts) =~= addrs);
    } else {
        let front = addrs.drop_last();
        assert(forall|i: int| 0 <= i < front.len() ==> front[i] == addrs[i]);
        lemma_read_addrs(front);
        assert(parts.drop_last() =~= front.map_values(|a: AddrView| addr::addr_text(a)));
        assert(addrs[addrs.len() - 1].wf());
        addr::law_addr_round_trip(addrs.last());
        assert(read_addrs(parts) =~= addrs);
    }
}

proof fn lemma_addr_list(addrs: Seq<AddrView>)
    requires
        forall|i: int| 0 <= i < addrs.len() ==> (#[trigger] addrs[i]).wf(),
    ensures
        read_addrs(text::split(addr_list_text(addrs), ',')) == addrs,
        !addr_list_text(addrs).contains('|'),
{
    let parts = addrs.map_values(|a: AddrView| addr::addr_text(a));
    assert forall|i: int| 0 <= i < parts.len() implies !(#[trigger] parts[i]).contains(',')
        && !parts[i].contains('|') by {
        assert(addrs[i].wf());
        addr::lemma_addr_text_chars(addrs[i]);
    }
    addr::lemma_join_lacks(parts, ',', '|');
    if addrs.len() == 0 {
        let none = Seq::<char>::empty();
        assert(text::join(parts, ',') =~= none);
        assert(text::split(none, ',') =~= seq![none]);
        assert(text::split(none, ':') =~= seq![none]);
        assert(addr::socket_addr(none) is None);
        reveal_with_fuel(read_addrs, 2);
        assert(seq![none].drop_last() =~= Seq::<Seq<char>>::empty());
        assert(read_addrs(seq![none]) =~= addrs);
    } else {
        text::lemma_split_join(parts, ',');
        lemma_read_addrs(addrs);
    }
}

/// A beacon reads back as the share that it announces, whatever the share is called: the id and
/// the hash, which are hexadecimal digits, hold no bar.
pub proof fn law_beacon_round_trip(s: SenderView)
    requires
        !s.endpoint_id.contains('|'),
        !s.hash.contains('|'),
        forall|i: int| 0 <= i < s.addrs.len() ==> (#[trigger] s.addrs[i]).wf(),
    ensures
        beacon_of(encode_utf8(beacon_text(s))) == Some(s),
{
    let t = beacon_text(s);
    encode_utf8_valid_utf8(t);
    encode_utf8_decode_utf8(t);
    let size = text::decimal(s.size as nat);
    let front = seq![
        s.endpoint_id,
        s.hash,
        hash_seq_text(s.hash_seq),
        size,
        addr_list_text(s.addrs),
    ];
    let rest = text::join(front, '|').push('|') + s.name;
    assert(seq![
        s.endpoint_id,
        s.hash,
        hash_seq_text(s.hash_seq),
        size,
        addr_list_text(s.addrs),
        s.name,
    ] =~= front.push(s.name));
    assert(front.push(s.name).drop_last() =~= front);
    assert(t =~= "DSHE1|"@ + rest);
    assert("DSHE1|"@ =~= t.subrange(0, "DSHE1|"@.len() as int));
    assert(t.skip("DSHE1|"@.len() as int) =~= rest);
    reveal_strlit("0");
    reveal_strlit("1");
    text::lemma_number_text(s.size as nat, 10);
    assert(!size.contains('|'));
    lemma_addr_list(s.addrs);
    text::lemma_split_join(front, '|');
    text::lemma_split_concat(text::join(front, '|'), s.name, '|');
    text::lemma_split_nonempty(s.name, '|');
    text::lemma_join_split(s.name, '|');
    let parts = text::split(rest, '|');
    assert(parts =~= front + text::split(s.name, '|'));
    assert(parts.skip(5) =~= text::split(s.name, '|'));
    assert("0"@[0] != "1"@[0]);
    assert(text::digit(size[0], 10) is Some);
    assert(beacon_fields(parts) =~= s);
}

// ---------------------------------------------------------------------------------------
// The senders heard so far
// ---------------------------------------------------------------------------------------

/// The known addresses and those of the new ones that are not among them.
pub open spec fn merged(known: Seq<AddrView>, new: Seq<AddrView>) -> Seq<AddrView>
    decreases new.len(),
{
    if new.len() == 0 {
        known
    } else {
        let front = merged(known, new.drop_last());
        if front.contains(new.last()) {
            front
        } else {
            front.push(new.last())
        }
    }
}

/// The sender with the addresses of a beacon added.
pub open spec fn with_addrs(s: SenderView, new: Seq<AddrView>) -> SenderView {
    SenderView { addrs: merged(s.addrs, new), ..s }
}

/// What is known of a sender after its first beacon.
pub open spec fn first_heard(b: SenderView) -> SenderView {
    with_addrs(SenderView { addrs: Seq::empty(), ..b }, b.addrs)
}

/// The senders, in the order of their ids, after one more beacon. The first beacon of a sender
/// describes it; a later one adds the addresses that were not known.
pub open spec fn observed(senders: Seq<SenderView>, b: SenderView) -> Seq<SenderView>
    decreases senders.len(),
{
    if senders.len() == 0 {
        seq![first_heard(b)]
    } else if senders[0].endpoint_id == b.endpoint_id {
        seq![with_addrs(senders[0], b.addrs)] + senders.skip(1)
    } else if text::precedes(b.endpoint_id, senders[0].endpoint_id) {
        seq![first_heard(b)] + senders
    } else {
        seq![senders[0]] + observed(senders.skip(1), b)
    }
}

/// The senders heard of in a run of packets. A packet that is no beacon says nothing.
pub open spec fn heard(packets: Seq<Seq<u8>>) -> Seq<SenderView>
    decreases packets.len(),
{
    if packets.len() == 0 {
        Seq::empty()
    } else {
        match beacon_of(packets.last()) {
            Some(b) => observed(heard(packets.drop_last()), b),
            None => heard(packets.drop_last()),
        }
    }
}

/// Each id comes before those that follow it.
pub open spec fn in_order(senders: Seq<SenderView>) -> bool {
    forall|i: int, j: int|
        0 <= i < j < senders.len() ==> text::precedes(
            (#[trigger] senders[i]).endpoint_id,
            (#[trigger] senders[j]).endpoint_id,
        )
}

/// The sender with the given id.
pub open spec fn find(senders: Seq<SenderView>, id: Seq<char>) -> Option<SenderView>
    decreases senders.len(),
{
    if senders.len() == 0 {
        None
    } else if senders[0].endpoint_id == id {
        Some(senders[0])
    } else {
        find(senders.skip(1), id)
    }
}

/// The views of a sequence of senders.
pub open spec fn sender_views(v: Seq<DiscoveredSender>) -> Seq<SenderView> {
    v.map_values(|s: DiscoveredSender| s@)
}

fn merge_addrs(known: &mut Vec<SocketAddr>, new: &[SocketAddr])
    ensures
        addr_views(final(known)@) == merged(addr_views(old(known)@), addr_views(new@)),
{
    let ghost start = addr_views(known@);
    let ghost fresh = addr_views(new@);
    assert(fresh.take(0) =~= Seq::<AddrView>::empty());
    for i in 0..new.len()
        invariant
            fresh == addr_views(new@),
            addr_views(known@) == merged(start, fresh.take(i as int)),
    {
        let ghost before = known@;
        assert(fresh.take(i + 1).drop_last() =~= fresh.take(i as int));
        assert(fresh.take(i + 1).last() == new@[i as int]@);
        let mut found = false;
        for j in 0..known.len()
            invariant
                i < new.len(),
                known@ == before,
                found == exists|k: int| 0 <= k < j && #[trigger] before[k]@ == new@[i as int]@,
        {
            if known[j].same(&new[i]) {
                found = true;
                assert(before[j as int]@ == new@[i as int]@);
            }
        }
        assert(found == addr_views(before).contains(new@[i as int]@)) by {
            if found {
                let k = choose|k: int|
                    0 <= k < before.len() && #[trigger] before[k]@ == new@[i as int]@;
                assert(addr_views(before)[k] == new@[i as int]@);
            }
            if addr_views(before).contains(new@[i as int]@) {
                let k = choose|k: int|
                    0 <= k < before.len() && addr_views(before)[k] == new@[i as int]@;
                assert(before[k]@ == new@[i as int]@);
            }
        }
        if !found {
            known.push(new[i]);
            assert(addr_views(known@) =~= addr_views(before).push(new@[i as int]@));
        }
    }
    assert(fresh.take(fresh.len() as int) =~= fresh);
}

/// The senders heard so far, in the order of their ids.
#[derive(Debug)]
pub struct SenderTable {
    senders: Vec<DiscoveredSender>,
}

impl View for SenderTable {
    type V = Seq<SenderView>;

    closed spec fn view(&self) -> Seq<SenderView> {
        sender_views(self.senders@)
    }
}

impl SenderTable {
    /// No sender was heard yet.
    pub fn new() -> (r: SenderTable)
        ensures
            r@ == heard(Seq::empty()),
    {
        let r = SenderTable { senders: Vec::new() };
        assert(r@ =~= Seq::<SenderView>::empty());
        r
    }

    fn add(&mut self, b: DiscoveredSender)
        ensures
            final(self)@ == observed(old(self)@, b@),
    {
        let ghost all = self@;
        let ghost v = b@;
        let mut i: usize = 0;
        assert(all.take(0) + observed(all.skip(0), v) =~= observed(all, v)) by {
            assert(all.skip(0) =~= all);
        }
        while i < self.senders.len() && !text::same_text(
            self.senders[i].endpoint_id.as_str(),
            b.endpoint_id.as_str(),
        ) && !text::text_precedes(
            b.endpoint_id.as_str(),
            self.senders[i].endpoint_id.as_str(),
        )
            invariant
                i <= self.senders.len(),
                all == sender_views(self.senders@),
                v == b@,
                observed(all, v) == all.take(i as int) + observed(all.skip(i as int), v),
            decreases self.senders.len() - i,
        {
            assert(all[i as int] == self.senders@[i as int]@);
            assert(all.skip(i as int)[0] == all[i as int]);
            assert(all.skip(i as int).skip(1) =~= all.skip(i + 1));
            assert(all.take(i + 1) =~= all.take(i as int).push(all[i as int]));
            assert(all.take(i as int) + (seq![all[i as int]] + observed(all.skip(i + 1), v))
                =~= all.take(i + 1) + observed(all.skip(i + 1), v));
            i = i + 1;
        }
        let ghost start = self.senders@;
        assert(i < all.len() ==> all[i as int] == start[i as int]@ && all.skip(i as int)[0]
            == all[i as int]);
        if i < self.senders.len() && text::same_text(
            self.senders[i].endpoint_id.as_str(),
            b.endpoint_id.as_str(),
        ) {
            let mut s = self.senders.remove(i);
            merge_addrs(&mut s.addrs, b.addrs.as_slice());
            let ghost sv = s@;
            self.senders.insert(i, s);
            assert(all.skip(i as int).skip(1) =~= all.skip(i + 1));
            assert(sv =~= with_addrs(all[i as int], v.addrs));
            assert(sender_views(self.senders@) =~= all.take(i as int) + (seq![sv] + all.skip(
                i + 1,
            )));
        } else {
            let mut s = DiscoveredSender { addrs: Vec::new(), ..b };
            assert(addr_views(s.addrs@) =~= Seq::<AddrView>::empty());
            merge_addrs(&mut s.addrs, b.addrs.as_slice());
            let ghost sv = s@;
            assert(sv =~= first_heard(v));
            self.senders.insert(i, s);
            assert(sender_views(self.senders@) =~= all.take(i as int) + (seq![sv] + all.skip(
                i as int,
            )));
            assert(i == all.len() ==> seq![sv] + all.skip(i as int) =~= seq![sv]);
        }
    }

    /// Takes note of a packet.
    pub fn observe(&mut self, packet: &[u8])
        ensures
            match beacon_of(packet@) {
                Some(b) => final(self)@ == observed(old(self)@, b),
                None => final(self)@ == old(self)@,
            },
    {
        match read_beacon(packet) {
            Some(b) => {
                self.add(b);
            },
            None => {},
        }
    }

    /// The senders, in the order of their ids.
    pub fn into_values(self) -> (r: Vec<DiscoveredSender>)
        ensures
            sender_views(r@) == self@,
    {
        self.senders
    }
}

// ---------------------------------------------------------------------------------------
// What holds of the senders heard
// ---------------------------------------------------------------------------------------

/// The first sender's id precedes those that a beacon leaves behind it.
proof fn lemma_observed_ids(senders: Seq<SenderView>, b: SenderView, id: Seq<char>)
    requires
        in_order(senders),
        text::precedes(id, b.endpoint_id),
        forall|i: int| 0 <= i < senders.len() ==> text::precedes(id, (#[trigger] senders[i]).endpoint_id),
    ensures
        forall|i: int|
            0 <= i < observed(senders, b).len() ==> text::precedes(
                id,
                (#[trigger] observed(senders, b)[i]).endpoint_id,
            ),
    decreases senders.len(),
{
    let all = observed(senders, b);
    if senders.len() > 0 {
        let rest = senders.skip(1);
        assert(forall|i: int| 0 <= i < rest.len() ==> rest[i] == senders[i + 1]);
        assert(text::precedes(id, senders[0].endpoint_id));
        if senders[0].endpoint_id == b.endpoint_id {
            assert(forall|i: int| 0 < i < all.len() ==> all[i] == senders[i]);
        } else if text::precedes(b.endpoint_id, senders[0].endpoint_id) {
            assert(forall|i: int| 0 < i < all.len() ==> all[i] == senders[i - 1]);
        } else {
            lemma_observed_ids(rest, b, id);
            assert forall|i: int| 0 <= i < all.len() implies text::precedes(
                id,
                (#[trigger] all[i]).endpoint_id,
            ) by {
                if i > 0 {
                    assert(all[i] == observed(rest, b)[i - 1]);
                }
            }
        }
    }
}

/// A beacon keeps the senders in the order of their ids, no two with the same.
pub proof fn law_observed_in_order(senders: Seq<SenderView>, b: SenderView)
    requires
        in_order(senders),
    ensures
        in_order(observed(senders, b)),
    decreases senders.len(),
{
    if senders.len() > 0 {
        let head = senders[0].endpoint_id;
        let rest = senders.skip(1);
        let all = observed(senders, b);
        text::lemma_precedes_total(head, b.endpoint_id);
        if head == b.endpoint_id {
            assert(forall|i: int| 0 < i < all.len() ==> all[i] == senders[i]);
        } else if text::precedes(b.endpoint_id, head) {
            assert forall|i: int, j: int| 0 <= i < j < all.len() implies text::precedes(
                (#[trigger] all[i]).endpoint_id,
                (#[trigger] all[j]).endpoint_id,
            ) by {
                assert(all[j] == senders[j - 1]);
                if i == 0 {
                    if j > 1 {
                        assert(text::precedes(head, senders[j - 1].endpoint_id));
                        text::lemma_precedes_transitive(
                            b.endpoint_id,
                            head,
                            senders[j - 1].endpoint_id,
                        );
                    }
                } else {
                    assert(all[i] == senders[i - 1]);
                }
            }
        } else {
            law_observed_in_order(rest, b);
            assert forall|i: int| 0 <= i < rest.len() implies text::precedes(
                head,
                (#[trigger] rest[i]).endpoint_id,
            ) by {
                assert(rest[i] == senders[i + 1]);
            }
            lemma_observed_ids(rest, b, head);
            let tail = observed(rest, b);
            assert forall|i: int, j: int| 0 <= i < j < all.len() implies text::precedes(
                (#[trigger] all[i]).endpoint_id,
                (#[trigger] all[j]).endpoint_id,
            ) by {
                assert(all[j] == tail[j - 1]);
                if i > 0 {
                    assert(all[i] == tail[i - 1]);
                }
            }
        }
    }
}

/// A beacon changes what is known of its own sender and of no other.
pub proof fn law_observed_find(senders: Seq<SenderView>, b: SenderView, id: Seq<char>)
    requires
        in_order(senders),
    ensures
        find(observed(senders, b), id) == if id == b.endpoint_id {
            match find(senders, id) {
                Some(s) => Some(with_addrs(s, b.addrs)),
                None => Some(first_heard(b)),
            }
        } else {
            find(senders, id)
        },
    decreases senders.len(),
{
    let all = observed(senders, b);
    if senders.len() == 0 {
        assert(all.skip(1) =~= Seq::<SenderView>::empty());
        assert(find(all.skip(1), id) is None);
    } else if senders[0].endpoint_id == b.endpoint_id {
        assert(all.skip(1) =~= senders.skip(1));
    } else if text::precedes(b.endpoint_id, senders[0].endpoint_id) {
        assert(all.skip(1) =~= senders);
        if find(senders, b.endpoint_id) is Some {
            lemma_find_member(senders, b.endpoint_id);
            let k = choose|k: int|
                0 <= k < senders.len() && (#[trigger] senders[k]).endpoint_id == b.endpoint_id;
            text::lemma_precedes_total(b.endpoint_id, senders[0].endpoint_id);
            if k > 0 {
                assert(text::precedes(senders[0].endpoint_id, senders[k].endpoint_id));
            }
        }
    } else {
        law_observed_find(senders.skip(1), b, id);
        assert(all.skip(1) =~= observed(senders.skip(1), b));
    }
}

proof fn lemma_find_member(senders: Seq<SenderView>, id: Seq<char>)
    requires
        find(senders, id) is Some,
    ensures
        exists|k: int| 0 <= k < senders.len() && (#[trigger] senders[k]).endpoint_id == id,
    decreases senders.len(),
{
    if senders[0].endpoint_id != id {
        lemma_find_member(senders.skip(1), id);
        let k = choose|k: int|
            0 <= k < senders.skip(1).len() && (#[trigger] senders.skip(1)[k]).endpoint_id == id;
        assert(senders[k + 1].endpoint_id == id);
    }
}

/// Whatever packets came, the senders stand in the order of their ids, no two with the same.
pub proof fn law_heard_in_order(packets: Seq<Seq<u8>>)
    ensures
        in_order(heard(packets)),
    decreases packets.len(),
{
    if packets.len() > 0 {
        law_heard_in_order(packets.drop_last());
        match beacon_of(packets.last()) {
            Some(b) => {
                law_observed_in_order(heard(packets.drop_last()), b);
            },
            None => {},
        }
    }
}

/// Merging keeps the known addresses in front, holds every address of both and no other, and
/// brings in none twice.
pub proof fn law_merged(known: Seq<AddrView>, new: Seq<AddrView>)
    ensures
        known.is_prefix_of(merged(known, new)),
        forall|a: AddrView|
            #![trigger merged(known, new).contains(a)]
            merged(known, new).contains(a) <==> known.contains(a) || new.contains(a),
        known.no_duplicates() ==> merged(known, new).no_duplicates(),
    decreases new.len(),
{
    let m = merged(known, new);
    if new.len() == 0 {
        assert(known =~= known.subrange(0, known.len() as int));
    } else {
        let front = merged(known, new.drop_last());
        law_merged(known, new.drop_last());
        assert(known =~= m.subrange(0, known.len() as int)) by {
            assert(known =~= front.subrange(0, known.len() as int));
        }
        assert(new =~= new.drop_last().push(new.last()));
        assert forall|a: AddrView| #![trigger m.contains(a)] m.contains(a) <==> known.contains(a)
            || new.contains(a) by {
            assert(front.contains(a) <==> known.contains(a) || new.drop_last().contains(a));
            if new.contains(a) {
                let k = choose|k: int| 0 <= k < new.len() && new[k] == a;
                if k < new.len() - 1 {
                    assert(new.drop_last()[k] == a);
                }
            }
            if new.drop_last().contains(a) {
                let k = choose|k: int| 0 <= k < new.drop_last().len() && new.drop_last()[k] == a;
                assert(new[k] == a);
            }
            assert(new[new.len() - 1] == new.last());
            if m.contains(a) && m != front {
                let k = choose|k: int| 0 <= k < m.len() && m[k] == a;
                if k < front.len() {
                    assert(front[k] == a);
                }
            }
            if front.contains(a) {
                let k = choose|k: int| 0 <= k < front.len() && front[k] == a;
                assert(m[k] == a);
            }
            if m != front {
                assert(m[m.len() - 1] == new.last());
            }
        }
    }
}

/// A sender keeps the description that its first beacon gave: another packet at most adds
/// addresses to those already known.
pub proof fn law_later_packets_add_addresses(
    packets: Seq<Seq<u8>>,
    packet: Seq<u8>,
    id: Seq<char>,
)
    requires
        find(heard(packets), id) is Some,
    ensures
        find(heard(packets.push(packet)), id) matches Some(after) && {
            let before = find(heard(packets), id).unwrap();
            &&& after == SenderView { addrs: after.addrs, ..before }
            &&& before.addrs.is_prefix_of(after.addrs)
        },
{
    assert(packets.push(packet).drop_last() =~= packets);
    let before = find(heard(packets), id).unwrap();
    assert(before.addrs =~= before.addrs.subrange(0, before.addrs.len() as int));
    law_heard_in_order(packets);
    match beacon_of(packet) {
        Some(b) => {
            law_observed_find(heard(packets), b, id);
            law_merged(before.addrs, b.addrs);
        },
        None => {},
    }
}

/// Whoever was announced is found, with every address that was announced.
pub proof fn law_announced_sender_is_found(packets: Seq<Seq<u8>>, i: int, b: SenderView)
    requires
        0 <= i < packets.len(),
        beacon_of(packets[i]) == Some(b),
    ensures
        find(heard(packets), b.endpoint_id) matches Some(s) && forall|a: AddrView|
            b.addrs.contains(a) ==> #[trigger] s.addrs.contains(a),
    decreases packets.len(),
{
    let front = packets.drop_last();
    let id = b.endpoint_id;
    law_heard_in_order(front);
    if i == packets.len() - 1 {
        law_observed_find(heard(front), b, id);
        match find(heard(front), id) {
            Some(s) => {
                law_merged(s.addrs, b.addrs);
            },
            None => {
                law_merged(Seq::empty(), b.addrs);
            },
        }
    } else {
        assert(front[i] == packets[i]);
        law_announced_sender_is_found(front, i, b);
        let before = find(heard(front), id).unwrap();
        match beacon_of(packets.last()) {
            Some(last) => {
                law_observed_find(heard(front), last, id);
                law_merged(before.addrs, last.addrs);
            },
            None => {},
        }
    }
}

/// Whether the packet is a beacon of the sender with the given id.
pub open spec fn announces(packet: Seq<u8>, id: Seq<char>) -> bool {
    beacon_of(packet) matches Some(b) && b.endpoint_id == id
}

/// A sender is found exactly where one of the packets announced it.
pub proof fn law_found_where_announced(packets: Seq<Seq<u8>>, id: Seq<char>)
    ensures
        find(heard(packets), id) is Some <==> exists|i: int|
            0 <= i < packets.len() && announces(#[trigger] packets[i], id),
    decreases packets.len(),
{
    if packets.len() > 0 {
        let front = packets.drop_last();
        law_found_where_announced(front, id);
        law_heard_in_order(front);
        assert(packets[packets.len() - 1] == packets.last());
        if exists|i: int| 0 <= i < front.len() && announces(#[trigger] front[i], id) {
            let i = choose|i: int| 0 <= i < front.len() && announces(#[trigger] front[i], id);
            assert(announces(packets[i], id));
        }
        if exists|i: int| 0 <= i < packets.len() && announces(#[trigger] packets[i], id) {
            let i = choose|i: int| 0 <= i < packets.len() && announces(#[trigger] packets[i], id);
            if i < front.len() {
                assert(announces(front[i], id));
            }
        }
        match beacon_of(packets.last()) {
            Some(b) => {
                law_observed_find(heard(front), b, id);
                if b.endpoint_id == id {
                    assert(announces(packets[packets.len() - 1], id));
                }
            },
            None => {},
        }
    } else {
        assert(find(heard(packets), id) is None);
    }
}

/// The first beacon of a sender describes it, whatever packets come after: what is found under its
/// id has the whole hash, the kind of the hash, the name and the size that were announced first, and
/// its first address first.
pub proof fn law_first_beacon_describes_sender(packets: Seq<Seq<u8>>, at: int, b: SenderView)
    requires
        0 <= at < packets.len(),
        beacon_of(packets[at]) == Some(b),
        forall|i: int| 0 <= i < at ==> !announces(#[trigger] packets[i], b.endpoint_id),
    ensures
        find(heard(packets), b.endpoint_id) matches Some(s) && {
            &&& s.endpoint_id == b.endpoint_id
            &&& s.hash == b.hash
            &&& s.hash_seq == b.hash_seq
            &&& s.name == b.name
            &&& s.size == b.size
            &&& b.addrs.len() > 0 ==> s.addrs.len() > 0 && s.addrs[0] == b.addrs[0]
        },
    decreases packets.len(),
{
    let front = packets.drop_last();
    let id = b.endpoint_id;
    assert(forall|i: int| 0 <= i < front.len() ==> front[i] == packets[i]);
    if at == packets.len() - 1 {
        law_found_where_announced(front, id);
        law_heard_in_order(front);
        law_observed_find(heard(front), b, id);
        lemma_merged_first(b.addrs);
    } else {
        law_first_beacon_describes_sender(front, at, b);
        law_later_packets_add_addresses(front, packets.last(), id);
        assert(front.push(packets.last()) =~= packets);
        let before = find(heard(front), id).unwrap();
        let after = find(heard(packets), id).unwrap();
        assert(before.addrs =~= after.addrs.subrange(0, before.addrs.len() as int));
        if b.addrs.len() > 0 {
            assert(after.addrs[0] == after.addrs.subrange(0, before.addrs.len() as int)[0]);
        }
    }
}

proof fn lemma_merged_first(new: Seq<AddrView>)
    ensures
        new.len() > 0 ==> merged(Seq::empty(), new).len() > 0 && merged(Seq::empty(), new)[0]
            == new[0],
    decreases new.len(),
{
    if new.len() > 1 {
        lemma_merged_first(new.drop_last());
    } else if new.len() == 1 {
        assert(new.drop_last() =~= Seq::<AddrView>::empty());
        reveal_with_fuel(merged, 2);
        assert(merged(Seq::<AddrView>::empty(), new) =~= seq![new[0]]);
    }
}

/// The addresses of a sender are those that its beacons announced, and no others, none twice.
pub proof fn law_sender_has_announced_addresses(
    packets: Seq<Seq<u8>>,
    id: Seq<char>,
    a: AddrView,
)
    requires
        find(heard(packets), id) is Some,
    ensures
        find(heard(packets), id).unwrap().addrs.no_duplicates(),
        find(heard(packets), id).unwrap().addrs.contains(a) <==> exists|i: int|
            0 <= i < packets.len() && announces(#[trigger] packets[i], id) && beacon_of(
                packets[i],
            ).unwrap().addrs.contains(a),
    decreases packets.len(),
{
    let front = packets.drop_last();
    let last = packets.len() - 1;
    law_heard_in_order(front);
    assert(packets[last] == packets.last());
    assert(forall|i: int| 0 <= i < front.len() ==> front[i] == packets[i]);
    match find(heard(front), id) {
        Some(s) => {
            law_sender_has_announced_addresses(front, id, a);
            match beacon_of(packets.last()) {
                Some(b) => {
                    law_observed_find(heard(front), b, id);
                    law_merged(s.addrs, b.addrs);
                },
                None => {},
            }
        },
        None => {
            law_found_where_announced(front, id);
            match beacon_of(packets.last()) {
                Some(b) => {
                    law_observed_find(heard(front), b, id);
                    law_merged(Seq::empty(), b.addrs);
                },
                None => {},
            }
        },
    }
    let s = find(heard(packets), id).unwrap();
    if s.addrs.contains(a) {
        if find(heard(front), id) is Some && find(heard(front), id).unwrap().addrs.contains(a) {
            let i = choose|i: int|
                0 <= i < front.len() && announces(#[trigger] front[i], id) && beacon_of(
                    front[i],
                ).unwrap().addrs.contains(a);
            assert(announces(packets[i], id));
        } else {
            assert(announces(packets[last], id));
        }
    }
    if exists|i: int|
        0 <= i < packets.len() && announces(#[trigger] packets[i], id) && beacon_of(
            packets[i],
        ).unwrap().addrs.contains(a) {
        let i = choose|i: int|
            0 <= i < packets.len() && announces(#[trigger] packets[i], id) && beacon_of(
                packets[i],
            ).unwrap().addrs.contains(a);
        if i < front.len() {
            assert(announces(front[i], id));
        }
    }
}

/// Each sender that is listed is the one that is found under its id.
pub proof fn law_listed_senders_are_found(packets: Seq<Seq<u8>>, k: int)
    requires
        0 <= k < heard(packets).len(),
    ensures
        find(heard(packets), heard(packets)[k].endpoint_id) == Some(heard(packets)[k]),
{
    law_heard_in_order(packets);
    lemma_find_listed(heard(packets), k);
}

proof fn lemma_find_listed(senders: Seq<SenderView>, k: int)
    requires
        in_order(senders),
        0 <= k < senders.len(),
    ensures
        find(senders, senders[k].endpoint_id) == Some(senders[k]),
    decreases senders.len(),
{
    if k > 0 {
        text::lemma_precedes_total(senders[0].endpoint_id, senders[k].endpoint_id);
        assert(text::precedes(senders[0].endpoint_id, senders[k].endpoint_id));
        let rest = senders.skip(1);
        assert(forall|i: int| 0 <= i < rest.len() ==> rest[i] == senders[i + 1]);
        lemma_find_listed(rest, k - 1);
    }
}

/// The texts of addresses are read one by one: those that are no address are passed over, and what
/// is left keeps its order.
pub proof fn law_read_addrs(a: Seq<Seq<char>>, b: Seq<Seq<char>>, t: Seq<char>)
    ensures
        read_addrs(a + b) == read_addrs(a) + read_addrs(b),
        addr::socket_addr(t) is None ==> read_addrs(seq![t]) == Seq::<AddrView>::empty(),
        addr::socket_addr(t) is Some ==> read_addrs(seq![t]) == seq![
            addr::socket_addr(t).unwrap(),
        ],
    decreases b.len(),
{
    reveal_with_fuel(read_addrs, 2);
    assert(seq![t].drop_last() =~= Seq::<Seq<char>>::empty());
    if addr::socket_addr(t) is Some {
        assert(read_addrs(seq![t]) =~= seq![addr::socket_addr(t).unwrap()]);
    } else {
        assert(read_addrs(seq![t]) =~= Seq::<AddrView>::empty());
    }
    if b.len() == 0 {
        assert(a + b =~= a);
        assert(read_addrs(a) + read_addrs(b) =~= read_addrs(a));
    } else {
        law_read_addrs(a, b.drop_last(), t);
        assert((a + b).drop_last() =~= a + b.drop_last());
        assert((a + b).last() == b.last());
        assert(read_addrs(a + b) =~= read_addrs(a) + read_addrs(b));
    }
}

/// The fields of a beacon in front of the name.
pub open spec fn written_fields(
    id: Seq<char>,
    hash: Seq<char>,
    flag: Seq<char>,
    size: Seq<char>,
    list: Seq<char>,
) -> Seq<char> {
    "DSHE1|"@ + id + "|"@ + hash + "|"@ + flag + "|"@ + size + "|"@ + list + "|"@
}

/// A packet is read field by field, whoever wrote it: the id and the hash as they stand, a `1` for a
/// hash sequence, the size where it is a number and zero where it is none, the addresses that are
/// some, and the name with all that it holds.
pub proof fn law_beacon_is_read_by_fields(
    id: Seq<char>,
    hash: Seq<char>,
    flag: Seq<char>,
    size: Seq<char>,
    list: Seq<char>,
    name: Seq<char>,
)
    requires
        !id.contains('|'),
        !hash.contains('|'),
        !flag.contains('|'),
        !size.contains('|'),
        !list.contains('|'),
    ensures
        beacon_of(encode_utf8(written_fields(id, hash, flag, size, list) + name)) matches Some(s)
            && {
            &&& s.endpoint_id == id
            &&& s.hash == hash
            &&& s.hash_seq == (flag == "1"@)
            &&& s.name == name
            &&& text::unsigned(size, u64::MAX as nat) is None ==> s.size == 0
            &&& text::unsigned(size, u64::MAX as nat) matches Some(n) ==> s.size == n
            &&& s.addrs == read_addrs(text::split(list, ','))
        },
{
    let t = written_fields(id, hash, flag, size, list) + name;
    encode_utf8_valid_utf8(t);
    encode_utf8_decode_utf8(t);
    reveal_strlit("|");
    let front = seq![id, hash, flag, size, list];
    let joined = text::join(front, '|');
    lemma_join_five(id, hash, flag, size, list);
    let rest = joined.push('|') + name;
    assert(t =~= "DSHE1|"@ + rest);
    assert("DSHE1|"@ =~= t.subrange(0, "DSHE1|"@.len() as int));
    assert(t.skip("DSHE1|"@.len() as int) =~= rest);
    text::lemma_split_join(front, '|');
    text::lemma_split_concat(joined, name, '|');
    text::lemma_split_nonempty(name, '|');
    text::lemma_join_split(name, '|');
    let parts = text::split(rest, '|');
    assert(parts =~= front + text::split(name, '|'));
    assert(parts.skip(5) =~= text::split(name, '|'));
    lemma_unsigned_bound(size);
}

proof fn lemma_unsigned_bound(size: Seq<char>)
    ensures
        text::unsigned(size, u64::MAX as nat) matches Some(n) ==> n <= u64::MAX,
{
}

proof fn lemma_join_five(
    a: Seq<char>,
    b: Seq<char>,
    c: Seq<char>,
    d: Seq<char>,
    e: Seq<char>,
)
    ensures
        text::join(seq![a, b, c, d, e], '|') == a + "|"@ + b + "|"@ + c + "|"@ + d + "|"@ + e,
{
    reveal_strlit("|");
    let s2 = seq![a, b];
    let s3 = seq![a, b, c];
    let s4 = seq![a, b, c, d];
    let s5 = seq![a, b, c, d, e];
    assert(s5.drop_last() =~= s4);
    assert(s4.drop_last() =~= s3);
    assert(s3.drop_last() =~= s2);
    assert(s2.drop_last() =~= seq![a]);
    assert(text::join(seq![a], '|') == a);
    assert(text::join(s2, '|') =~= a + "|"@ + b);
    assert(text::join(s3, '|') =~= a + "|"@ + b + "|"@ + c);
    assert(text::join(s4, '|') =~= a + "|"@ + b + "|"@ + c + "|"@ + d);
    assert(text::join(s5, '|') =~= a + "|"@ + b + "|"@ + c + "|"@ + d + "|"@ + e);
}

/// A packet that is read has the fields that were read from it; so one without the tag, with too few
/// fields or that is no text says nothing.
pub proof fn law_read_beacon_was_written(packet: Seq<u8>)
    requires
        beacon_of(packet) is Some,
    ensures
        valid_utf8(packet),
        exists|flag: Seq<char>, size: Seq<char>, list: Seq<char>|
            decode_utf8(packet) == #[trigger] written_fields(
                beacon_of(packet).unwrap().endpoint_id,
                beacon_of(packet).unwrap().hash,
                flag,
                size,
                list,
            ) + beacon_of(packet).unwrap().name,
{
    let t = decode_utf8(packet);
    let rest = t.skip("DSHE1|"@.len() as int);
    let parts = text::split(rest, '|');
    let s = beacon_of(packet).unwrap();
    assert("DSHE1|"@ =~= t.subrange(0, "DSHE1|"@.len() as int));
    assert(t =~= "DSHE1|"@ + rest);
    reveal_strlit("|");
    text::lemma_join_split(rest, '|');
    let front = parts.take(5);
    let back = parts.skip(5);
    assert(parts =~= front + back);
    lemma_join_concat(front, back);
    assert(front =~= seq![parts[0], parts[1], parts[2], parts[3], parts[4]]);
    lemma_join_five(parts[0], parts[1], parts[2], parts[3], parts[4]);
    assert(t =~= written_fields(s.endpoint_id, s.hash, parts[2], parts[3], parts[4]) + s.name);
}

proof fn lemma_join_concat(a: Seq<Seq<char>>, b: Seq<Seq<char>>)
    requires
        a.len() > 0,
        b.len() > 0,
    ensures
        text::join(a + b, '|') == text::join(a, '|').push('|') + text::join(b, '|'),
    decreases b.len(),
{
    let all = a + b;
    assert(all.drop_last() =~= a + b.drop_last());
    assert(all.last() == b.last());
    if b.len() == 1 {
        assert(all.drop_last() =~= a);
        assert(b[0] == b.last());
    } else {
        lemma_join_concat(a, b.drop_last());
        assert(text::join(all, '|') =~= text::join(a, '|').push('|') + text::join(b, '|'));
    }
}

/// What a sender announces is what it shares: the whole id and the whole hash in hexadecimal, and
/// the rest as it is.
pub proof fn law_announced(
    id: Seq<u8>,
    addrs: Seq<AddrView>,
    hash: Seq<u8>,
    hash_seq: bool,
    size: u64,
    name: Seq<char>,
)
    requires
        forall|i: int| 0 <= i < addrs.len() ==> (#[trigger] addrs[i]).wf(),
    ensures
        beacon_of(
            encode_utf8(beacon_text(announced(id, addrs, hash, hash_seq, size, name))),
        ) matches Some(s) && {
            &&& s.endpoint_id == digits::hex_lower(id)
            &&& s.hash == digits::hex_lower(hash)
            &&& s.hash_seq == hash_seq
            &&& s.size == size
            &&& s.name == name
            &&& s.addrs == addrs
        },
{
    digits::lemma_hex_lacks_bar(id);
    digits::lemma_hex_lacks_bar(hash);
    law_beacon_round_trip(announced(id, addrs, hash, hash_seq, size, name));
}

/// Senders and addresses are looked at one by one, each with all that it holds: none is left out,
/// added or moved.
pub proof fn law_sender_views(v: Seq<DiscoveredSender>, a: Seq<SocketAddr>, i: int)
    ensures
        sender_views(v).len() == v.len(),
        addr_views(a).len() == a.len(),
        0 <= i < a.len() ==> addr_views(a)[i] == a[i]@,
        0 <= i < v.len() ==> {
            let s = sender_views(v)[i];
            &&& s.endpoint_id == v[i].endpoint_id@
            &&& s.hash == v[i].hash@
            &&& s.hash_seq == v[i].hash_seq
            &&& s.name == v[i].name@
            &&& s.size == v[i].size
            &&& s.addrs == addr_views(v[i].addrs@)
        },
{
}

}
