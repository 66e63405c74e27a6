//! The calls into outside crates, and what is relied on of each.
//!
//! A result that is a function of its arguments but takes long to describe has a name here: the
//! contracts of the callers are exact over these names.
use vstd::prelude::*;
use vstd::utf8::*;
use crate::addr;
use crate::addr::AddrView;
use crate::beacon;
use crate::digits;
use crate::text;

verus! {

broadcast use vstd::seq::group_seq_axioms;

/// The error of a key that does not parse.
#[verifier::external_type_specification]
#[verifier::external_body]
pub struct ExKeyParsingError(iroh::KeyParsingError);

/// The error of a relay URL that does not parse.
#[verifier::external_type_specification]
#[verifier::external_body]
pub struct ExRelayUrlParseError(iroh::RelayUrlParseError);

/// The error of a text that no QR code holds.
#[verifier::external_type_specification]
#[verifier::external_body]
pub struct ExQrError(qrcode::types::QrError);

/// Whether thirty-two bytes are a public key: what `iroh::EndpointId::from_bytes` accepts.
pub uninterp spec fn is_endpoint_key(key: Seq<u8>) -> bool;

/// The relay URL that `iroh::RelayUrl::from_str` reads from a text, in its normal form.
pub uninterp spec fn relay_url_of_text(s: Seq<char>) -> Option<Seq<char>>;

/// Whether a text is a relay URL whose normal form is one: reading and writing that leaves it as it
/// is.
pub open spec fn is_stable_url(s: Seq<char>) -> bool {
    relay_url_of_text(s) matches Some(u) && relay_url_of_text(u) == Some(u)
}

/// Whether a text is the first, in the order of code points, of the normal forms of some URLs.
pub open spec fn is_first_url(urls: Seq<Seq<char>>, u: Seq<char>) -> bool {
    &&& exists|i: int| 0 <= i < urls.len() && relay_url_of_text(#[trigger] urls[i]) == Some(u)
    &&& forall|i: int|
        0 <= i < urls.len() ==> (relay_url_of_text(#[trigger] urls[i]) matches Some(v)
            ==> !text::precedes(v, u))
}

/// The text of the `iroh_blobs::ticket::BlobTicket` for an endpoint, its relay URLs and socket
/// addresses, a hash, and whether the hash is that of a hash sequence. `None` where the endpoint
/// is not a key, or an address does not parse.
pub uninterp spec fn blob_ticket_text(
    id: Seq<u8>,
    relays: Seq<Seq<char>>,
    addrs: Seq<Seq<char>>,
    hash: Seq<u8>,
    hash_seq: bool,
) -> Option<Seq<char>>;

/// What `iroh_blobs::ticket::BlobTicket::from_str` reads from a text: the endpoint, its relay
/// URLs and socket addresses, the hash, and whether it is that of a hash sequence.
pub uninterp spec fn blob_ticket_of_text(s: Seq<char>) -> Option<
    (Seq<u8>, Seq<Seq<char>>, Seq<Seq<char>>, Seq<u8>, bool),
>;

/// A size as `indicatif::HumanBytes` shows it.
pub uninterp spec fn human_bytes_text(size: u64) -> Seq<char>;

/// A duration as `indicatif::HumanDuration` shows it.
pub uninterp spec fn human_duration_text(secs: u64, nanos: u32) -> Seq<char>;

/// A duration in the short form of `indicatif::HumanDuration`.
pub uninterp spec fn short_duration_text(secs: u64, nanos: u32) -> Seq<char>;

/// The QR code of a text in block characters with light and dark exchanged, as `qrcode` draws it;
/// `None` where the text is too long for one.
pub uninterp spec fn qr_text(s: Seq<char>) -> Option<Seq<char>>;

/// A text as `Debug` of `str` writes it: in quotes, with its special characters escaped.
pub uninterp spec fn debug_text(s: Seq<char>) -> Seq<char>;

/// `hex::encode` writes each byte as two lower-case hexadecimal digits.
#[verifier::external_body]
pub(crate) fn hex_encode(data: &[u8]) -> (r: String)
    ensures
        r@ == digits::hex_lower(data@),
{
    hex::encode(data)
}

/// `iroh_blobs::Hash::to_hex` writes the thirty-two bytes of a hash in lower-case hexadecimal.
#[verifier::external_body]
pub(crate) fn hash_to_hex(hash: [u8; 32]) -> (r: String)
    ensures
        r@ == digits::hex_lower(hash@),
{
    iroh_blobs::Hash::from_bytes(hash).to_hex()
}

/// `Display` of `iroh_blobs::Hash` writes the same digits as `to_hex`.
#[verifier::external_body]
pub(crate) fn hash_to_string(hash: [u8; 32]) -> (r: String)
    ensures
        r@ == digits::hex_lower(hash@),
{
    iroh_blobs::Hash::from_bytes(hash).to_string()
}

/// `iroh_blobs::Hash::fmt_short` writes the first five bytes of a hash in lower-case hexadecimal.
#[verifier::external_body]
pub(crate) fn hash_short(hash: [u8; 32]) -> (r: String)
    ensures
        r@ == digits::hex_lower(hash@.take(5)),
{
    iroh_blobs::Hash::from_bytes(hash).fmt_short().to_string()
}

/// `iroh_blobs::Hash::from_str` reads a hash that is written in lower-case hexadecimal, or in base
/// 32 in either letter case, and nothing else.
#[verifier::external_body]
pub(crate) fn parse_hash(s: &str) -> (r: Option<[u8; 32]>)
    ensures
        r matches Some(h) ==> digits::writes_key(s@, h@),
        r is None ==> forall|h: Seq<u8>| !digits::writes_key(s@, h),
{
    s.parse::<iroh_blobs::Hash>().ok().map(|h| *h.as_bytes())
}

/// `iroh::EndpointId::from_str` reads a public key that is written in the same ways as a hash. It
/// refuses bytes that are no public key.
#[verifier::external_body]
pub(crate) fn parse_endpoint_id(s: &str) -> (r: Result<[u8; 32], iroh::KeyParsingError>)
    ensures
        r matches Ok(k) ==> digits::writes_key(s@, k@) && is_endpoint_key(k@),
        r is Err ==> forall|k: Seq<u8>| digits::writes_key(s@, k) ==> !is_endpoint_key(k),
{
    s.parse::<iroh::EndpointId>().map(|k| *k.as_bytes())
}

/// `iroh::SecretKey::from_str` reads a secret key that is written in the same ways as a hash. Any
/// thirty-two bytes are one.
#[verifier::external_body]
pub(crate) fn parse_secret(s: &str) -> (r: Result<[u8; 32], iroh::KeyParsingError>)
    ensures
        r matches Ok(k) ==> digits::writes_key(s@, k@),
        r is Err ==> forall|k: Seq<u8>| !digits::writes_key(s@, k),
{
    s.parse::<iroh::SecretKey>().map(|k| k.to_bytes())
}

/// `iroh::SecretKey::generate` draws thirty-two random bytes. Nothing more is said of them.
#[verifier::external_body]
pub(crate) fn generate_secret() -> (r: [u8; 32]) {
    iroh::SecretKey::generate().to_bytes()
}

/// `iroh::RelayUrl::from_str` reads a URL, and its `Display` writes it in normal form.
#[verifier::external_body]
pub(crate) fn parse_relay_url(s: &str) -> (r: Result<String, iroh::RelayUrlParseError>)
    ensures
        r matches Ok(u) ==> relay_url_of_text(s@) == Some(u@),
        r is Err ==> relay_url_of_text(s@) is None,
{
    s.parse::<iroh::RelayUrl>().map(|u| u.to_string())
}

/// `Display` of `iroh_blobs::ticket::BlobTicket`, for the ticket made of the given parts. There is
/// none where the endpoint is no public key, and there is one where it is and every relay URL and
/// every address parses. The text is `blob`, then bytes in base 32, in lower case, without padding.
///
/// What is read back from the text has the same endpoint, hash and format, one relay where there is
/// any, and the same set of addresses but for the scope of those of IPv6, which the text leaves
/// out. Where the normal form of every relay URL reads as itself, the text is read back, and the
/// relay is the first of the normal forms; of other relay URLs nothing is said.
#[verifier::external_body]
pub(crate) fn write_blob_ticket(
    id: [u8; 32],
    relays: &Vec<String>,
    addrs: &Vec<String>,
    hash: [u8; 32],
    hash_seq: bool,
) -> (r: Option<String>)
    ensures
        r matches Some(t) ==> blob_ticket_text(
            id@,
            text::texts(relays@),
            text::texts(addrs@),
            hash@,
            hash_seq,
        ) == Some(t@),
        r is None ==> blob_ticket_text(
            id@,
            text::texts(relays@),
            text::texts(addrs@),
            hash@,
            hash_seq,
        ) is None,
        !is_endpoint_key(id@) ==> r is None,
        is_endpoint_key(id@) && (forall|i: int|
            0 <= i < relays@.len() ==> relay_url_of_text((#[trigger] relays@[i])@) is Some) && (
        forall|i: int|
            0 <= i < addrs@.len() ==> addr::socket_addr((#[trigger] addrs@[i])@) is Some)
            ==> r is Some,
        r matches Some(t) ==> exists|data: Seq<u8>|
            t@ == "blob"@ + #[trigger] digits::base32_lower(data),
        r matches Some(t) ==> (forall|i: int|
            0 <= i < relays@.len() ==> is_stable_url((#[trigger] relays@[i])@)) ==> (
        blob_ticket_of_text(t@) matches Some(b) && (relays@.len() > 0 ==> is_first_url(
            text::texts(relays@),
            b.1[0],
        ))),
        r matches Some(t) ==> (blob_ticket_of_text(t@) matches Some(b) ==> b.0 == id@ && b.3
            == hash@ && b.4 == hash_seq),
        r matches Some(t) ==> (blob_ticket_of_text(t@) matches Some(b) ==> b.1.len() == (
        if relays@.len() == 0 {
            0int
        } else {
            1int
        })),
        r matches Some(t) ==> (blob_ticket_of_text(t@) matches Some(b) ==> (forall|i: int|
            0 <= i < addrs@.len() ==> addr::socket_addr((#[trigger] addrs@[i])@) is Some)
            ==> beacon::read_addrs(b.2).to_set() == beacon::read_addrs(
            text::texts(addrs@),
        ).map_values(|a: AddrView| a.unscoped()).to_set()),
{
    let mut addr = iroh::EndpointAddr::new(iroh::EndpointId::from_bytes(&id).ok()?);
    for url in relays {
        addr = addr.with_relay_url(url.parse().ok()?);
    }
    for ip in addrs {
        addr = addr.with_ip_addr(ip.parse().ok()?);
    }
    let formats = [iroh_blobs::BlobFormat::Raw, iroh_blobs::BlobFormat::HashSeq];
    let hash = iroh_blobs::Hash::from_bytes(hash);
    Some(iroh_blobs::ticket::BlobTicket::new(addr, hash, formats[hash_seq as usize]).to_string())
}

/// The parts of a ticket: the endpoint, its relay URLs and socket addresses, the hash, and whether
/// it is that of a hash sequence.
pub(crate) struct TicketParts {
    /// The id of the endpoint.
    pub id: [u8; 32],
    /// The URLs of its relays.
    pub relays: Vec<String>,
    /// Its socket addresses.
    pub addrs: Vec<String>,
    /// The hash.
    pub hash: [u8; 32],
    /// Whether the hash is that of a hash sequence.
    pub hash_seq: bool,
}

/// `iroh_blobs::ticket::BlobTicket::from_str` reads a ticket.
#[verifier::external_body]
pub(crate) fn read_blob_ticket(s: &str) -> (r: Option<TicketParts>)
    ensures
        r matches Some(p) ==> blob_ticket_of_text(s@) == Some(
            (p.id@, text::texts(p.relays@), text::texts(p.addrs@), p.hash@, p.hash_seq),
        ),
        r is None ==> blob_ticket_of_text(s@) is None,
{
    let (addr, hash, format) = s.parse::<iroh_blobs::ticket::BlobTicket>().ok()?.into_parts();
    Some(
        TicketParts {
            id: *addr.id.as_bytes(),
            relays: addr.relay_urls().map(|u| u.to_string()).collect(),
            addrs: addr.ip_addrs().map(|a| a.to_string()).collect(),
            hash: *hash.as_bytes(),
            hash_seq: format.is_hash_seq(),
        },
    )
}

/// `Display` of `indicatif::HumanBytes`.
#[verifier::external_body]
pub(crate) fn human_bytes(size: u64) -> (r: String)
    ensures
        r@ == human_bytes_text(size),
{
    indicatif::HumanBytes(size).to_string()
}

/// `Display` of `indicatif::HumanDuration`. The number of years of a very long duration is cut to
/// the machine's word, so nothing is said of one of more than `u32::MAX` seconds.
#[verifier::external_body]
pub(crate) fn human_duration(secs: u64, nanos: u32) -> (r: String)
    requires
        nanos < 1_000_000_000,
    ensures
        secs <= u32::MAX ==> r@ == human_duration_text(secs, nanos),
{
    indicatif::HumanDuration(std::time::Duration::new(secs, nanos)).to_string()
}

/// The alternate `Display` of `indicatif::HumanDuration`, which names the unit by a letter. Nothing
/// is said of a duration of more than `u32::MAX` seconds, as above.
#[verifier::external_body]
pub(crate) fn short_duration(secs: u64, nanos: u32) -> (r: String)
    requires
        nanos < 1_000_000_000,
    ensures
        secs <= u32::MAX ==> r@ == short_duration_text(secs, nanos),
{
    format!("{:#}", indicatif::HumanDuration(std::time::Duration::new(secs, nanos)))
}

/// `qrcode::QrCode::new`, and its rendering in half blocks with the colours exchanged and a quiet
/// zone around the code.
#[verifier::external_body]
pub(crate) fn draw_qr(s: &str) -> (r: Result<String, qrcode::types::QrError>)
    ensures
        r matches Ok(t) ==> qr_text(s@) == Some(t@),
        r is Err ==> qr_text(s@) is None,
{
    let code = qrcode::QrCode::new(s)?;
    Ok(
        code.render::<qrcode::render::unicode::Dense1x2>()
            .dark_color(qrcode::render::unicode::Dense1x2::Light)
            .light_color(qrcode::render::unicode::Dense1x2::Dark)
            .quiet_zone(true)
            .build(),
    )
}

/// `std::str::from_utf8` accepts exactly the byte strings that are valid UTF-8, as the text that
/// they encode.
#[verifier::external_body]
pub(crate) fn utf8_string(bytes: &[u8]) -> (r: Option<String>)
    ensures
        r is Some <==> valid_utf8(bytes@),
        r matches Some(s) ==> s@ == decode_utf8(bytes@),
{
    std::str::from_utf8(bytes).ok().map(|s| s.to_owned())
}

/// `Debug` of `str` writes the text in quotes, with its special characters escaped.
#[verifier::external_body]
pub(crate) fn debug_string(s: &str) -> (r: String)
    ensures
        r@ == debug_text(s@),
{
    format!("{:?}", s)
}

}
