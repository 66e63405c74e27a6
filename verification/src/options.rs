//! The values of the command line options.
use vstd::prelude::*;
use crate::digits;
use crate::outside;
use crate::text;

verus! {

broadcast use vstd::seq::group_seq_axioms;

/// Why the value of an option is refused.
#[derive(Debug)]
pub enum OptionError {
    /// Not a format of hashes.
    Format,
    /// Not a type of ticket.
    TicketType,
    /// Neither a word for a relay mode nor a URL.
    Relay(iroh::RelayUrlParseError),
}

impl OptionError {
    /// The message of the error, where it is the library's own.
    pub fn message(&self) -> (r: Option<String>)
        ensures
            match *self {
                OptionError::Format => r matches Some(s) && s@ == "invalid format"@,
                OptionError::TicketType => r matches Some(s) && s@
                    == "invalid ticket type, expected id, relay, addresses or relay-and-addresses"@,
                OptionError::Relay(_) => r is None,
            },
    {
        match self {
            OptionError::Format => Some("invalid format".to_string()),
            OptionError::TicketType => Some(
                "invalid ticket type, expected id, relay, addresses or relay-and-addresses".to_string(),
            ),
            OptionError::Relay(_) => None,
        }
    }
}

// ---------------------------------------------------------------------------------------
// Formats of hashes
// ---------------------------------------------------------------------------------------

/// How hashes are shown.
#[derive(Debug, Clone, Copy, PartialEq, Eq, Structural)]
pub enum Format {
    /// In hexadecimal.
    Hex,
    /// As a content identifier.
    Cid,
}

impl Default for Format {
    fn default() -> (r: Format)
        ensures
            r == Format::Hex,
    {
        Format::Hex
    }
}

/// The format that a word names, in either letter case.
pub open spec fn format_of(s: Seq<char>) -> Option<Format> {
    let word = text::ascii_lower(s);
    if word == "hex"@ {
        Some(Format::Hex)
    } else if word == "cid"@ {
        Some(Format::Cid)
    } else {
        None
    }
}

/// The word for a format.
pub open spec fn format_word(f: Format) -> Seq<char> {
    match f {
        Format::Hex => "hex"@,
        Format::Cid => "cid"@,
    }
}

impl Format {
    /// Reads the word for a format.
    pub fn from_str(s: &str) -> (r: Result<Format, OptionError>)
        ensures
            r matches Ok(f) ==> format_of(s@) == Some(f),
            r matches Err(e) ==> format_of(s@) is None && e is Format,
    {
        let chars = text::chars_of(s);
        let word = text::string_of(text::lower_chars(chars.as_slice()).as_slice());
        if text::same_text(word.as_str(), "hex") {
            Ok(Format::Hex)
        } else if text::same_text(word.as_str(), "cid") {
            Ok(Format::Cid)
        } else {
            Err(OptionError::Format)
        }
    }

    /// The word for the format.
    pub fn to_string(&self) -> (s: String)
        ensures
            s@ == format_word(*self),
    {
        match self {
            Format::Hex => "hex".to_string(),
            Format::Cid => "cid".to_string(),
        }
    }
}

/// The word for a format reads back as that format.
pub proof fn law_format_round_trip(f: Format)
    ensures
        format_of(format_word(f)) == Some(f),
{
    reveal_strlit("hex");
    reveal_strlit("cid");
    assert(text::ascii_lower("hex"@) =~= "hex"@);
    assert(text::ascii_lower("cid"@) =~= "cid"@);
    assert("hex"@[0] != "cid"@[0]);
}

/// A hash as the format shows it. Both formats show lower-case hexadecimal digits.
pub fn print_hash(hash: &[u8; 32], format: Format) -> (s: String)
    ensures
        s@ == digits::hex_lower(hash@),
{
    match format {
        Format::Hex => outside::hash_to_hex(*hash),
        Format::Cid => outside::hash_to_string(*hash),
    }
}

// ---------------------------------------------------------------------------------------
// Types of tickets
// ---------------------------------------------------------------------------------------

/// What a ticket holds besides the endpoint.
#[derive(Debug, Clone, Copy, PartialEq, Eq, Structural)]
pub enum AddrInfoOptions {
    /// Only the endpoint id. The receiver looks the addresses up.
    Id,
    /// The endpoint id, the relay URL and the direct addresses.
    RelayAndAddresses,
    /// The endpoint id and the relay URL.
    Relay,
    /// The endpoint id and the direct addresses.
    Addresses,
}

impl Default for AddrInfoOptions {
    fn default() -> (r: AddrInfoOptions)
        ensures
            r == AddrInfoOptions::Id,
    {
        AddrInfoOptions::Id
    }
}

/// The type of ticket that a word names, in either letter case, with hyphens or underscores.
pub open spec fn ticket_type_of(s: Seq<char>) -> Option<AddrInfoOptions> {
    let word = text::replace_char(text::ascii_lower(s), '_', '-');
    if word == "id"@ {
        Some(AddrInfoOptions::Id)
    } else if word == "relay-and-addresses"@ {
        Some(AddrInfoOptions::RelayAndAddresses)
    } else if word == "relay"@ {
        Some(AddrInfoOptions::Relay)
    } else if word == "addresses"@ {
        Some(AddrInfoOptions::Addresses)
    } else {
        None
    }
}

/// The word for a type of ticket.
pub open spec fn ticket_type_word(t: AddrInfoOptions) -> Seq<char> {
    match t {
        AddrInfoOptions::Id => "id"@,
        AddrInfoOptions::RelayAndAddresses => "relay-and-addresses"@,
        AddrInfoOptions::Relay => "relay"@,
        AddrInfoOptions::Addresses => "addresses"@,
    }
}

impl AddrInfoOptions {
    /// Reads the word for a type of ticket.
    pub fn from_str(s: &str) -> (r: Result<AddrInfoOptions, OptionError>)
        ensures
            r matches Ok(t) ==> ticket_type_of(s@) == Some(t),
            r matches Err(e) ==> ticket_type_of(s@) is None && e is TicketType,
    {
        let chars = text::chars_of(s);
        let lower = text::lower_chars(chars.as_slice());
        let word = text::string_of(
            text::replace_chars(lower.as_slice(), '_', '-').as_slice(),
        );
        if text::same_text(word.as_str(), "id") {
            Ok(AddrInfoOptions::Id)
        } else if text::same_text(word.as_str(), "relay-and-addresses") {
            Ok(AddrInfoOptions::RelayAndAddresses)
        } else if text::same_text(word.as_str(), "relay") {
            Ok(AddrInfoOptions::Relay)
        } else if text::same_text(word.as_str(), "addresses") {
            Ok(AddrInfoOptions::Addresses)
        } else {
            Err(OptionError::TicketType)
        }
    }

    /// The word for the type of ticket.
    pub fn to_string(&self) -> (s: String)
        ensures
            s@ == ticket_type_word(*self),
    {
        match self {
            AddrInfoOptions::Id => "id".to_string(),
            AddrInfoOptions::RelayAndAddresses => "relay-and-addresses".to_string(),
            AddrInfoOptions::Relay => "relay".to_string(),
            AddrInfoOptions::Addresses => "addresses".to_string(),
        }
    }

    /// Whether the sender publishes its addresses: a ticket with the id alone is of no use to a
    /// receiver that cannot look them up.
    pub fn publishes_addresses(&self) -> (r: bool)
        ensures
            r == (*self == AddrInfoOptions::Id),
    {
        *self == AddrInfoOptions::Id
    }
}

/// The word for a type of ticket reads back as that type.
pub proof fn law_ticket_type_round_trip(t: AddrInfoOptions)
    ensures
        ticket_type_of(ticket_type_word(t)) == Some(t),
{
    reveal_strlit("id");
    reveal_strlit("relay-and-addresses");
    reveal_strlit("relay");
    reveal_strlit("addresses");
    let word = ticket_type_word(t);
    assert(text::replace_char(text::ascii_lower(word), '_', '-') =~= word);
    assert("id"@.len() == 2 && "relay"@.len() == 5 && "addresses"@.len() == 9);
    assert("relay-and-addresses"@.len() == 19);
}

// ---------------------------------------------------------------------------------------
// Relays
// ---------------------------------------------------------------------------------------

/// Which relay servers an endpoint uses.
#[derive(Debug)]
pub enum RelayModeOption {
    /// None at all.
    Disabled,
    /// The default ones.
    Default,
    /// A single one, by its URL.
    Custom(String),
}

/// What a [`RelayModeOption`] holds.
pub enum RelayModeView {
    /// None at all.
    Disabled,
    /// The default ones.
    Default,
    /// A single one, by its URL.
    Custom(Seq<char>),
}

impl View for RelayModeOption {
    type V = RelayModeView;

    open spec fn view(&self) -> RelayModeView {
        match self {
            RelayModeOption::Disabled => RelayModeView::Disabled,
            RelayModeOption::Default => RelayModeView::Default,
            RelayModeOption::Custom(url) => RelayModeView::Custom(url@),
        }
    }
}

/// The relay mode that a text names, given what reading the text as a URL gives.
pub open spec fn relay_mode_of(s: Seq<char>, url: Option<Seq<char>>) -> Option<RelayModeView> {
    if s == "disabled"@ {
        Some(RelayModeView::Disabled)
    } else if s == "default"@ {
        Some(RelayModeView::Default)
    } else {
        match url {
            Some(u) => Some(RelayModeView::Custom(u)),
            None => None,
        }
    }
}

/// The text of a relay mode.
pub open spec fn relay_mode_text(m: RelayModeView) -> Seq<char> {
    match m {
        RelayModeView::Disabled => "disabled"@,
        RelayModeView::Default => "default"@,
        RelayModeView::Custom(url) => url,
    }
}

impl RelayModeOption {
    /// The relay mode that a text names, where `url` is what reading it as a URL gave.
    pub fn from_word(s: &str, url: Result<String, iroh::RelayUrlParseError>) -> (r: Result<
        RelayModeOption,
        OptionError,
    >)
        ensures
            r matches Ok(m) ==> relay_mode_of(
                s@,
                match url {
                    Ok(u) => Some(u@),
                    Err(_) => None,
                },
            ) == Some(m@),
            r matches Err(e) ==> {
                &&& s@ != "disabled"@
                &&& s@ != "default"@
                &&& url is Err
                &&& e == OptionError::Relay(url->Err_0)
            },
    {
        if text::same_text(s, "disabled") {
            Ok(RelayModeOption::Disabled)
        } else if text::same_text(s, "default") {
            Ok(RelayModeOption::Default)
        } else {
            match url {
                Ok(u) => Ok(RelayModeOption::Custom(u)),
                Err(e) => Err(OptionError::Relay(e)),
            }
        }
    }

    /// Reads a relay mode: the word `disabled` or `default`, or the URL of a relay.
    pub fn from_str(s: &str) -> (r: Result<RelayModeOption, OptionError>)
        ensures
            r matches Ok(m) ==> relay_mode_of(s@, outside::relay_url_of_text(s@)) == Some(m@),
            r matches Err(e) ==> {
                &&& relay_mode_of(s@, outside::relay_url_of_text(s@)) is None
                &&& e is Relay
            },
    {
        RelayModeOption::from_word(s, outside::parse_relay_url(s))
    }

    /// The text of the relay mode.
    pub fn to_string(&self) -> (s: String)
        ensures
            s@ == relay_mode_text(self@),
    {
        match self {
            RelayModeOption::Disabled => "disabled".to_string(),
            RelayModeOption::Default => "default".to_string(),
            RelayModeOption::Custom(url) => url.as_str().to_string(),
        }
    }

    /// Whether the sender waits until a relay knows it before it makes a ticket.
    pub fn waits_for_relay(&self) -> (r: bool)
        ensures
            r == !(self@ is Disabled),
    {
        match self {
            RelayModeOption::Disabled => false,
            _ => true,
        }
    }
}

/// The word for a relay mode without a URL reads back as that mode.
pub proof fn law_relay_word_round_trip(m: RelayModeView, url: Option<Seq<char>>)
    requires
        !(m is Custom),
    ensures
        relay_mode_of(relay_mode_text(m), url) == Some(m),
{
    reveal_strlit("disabled");
    reveal_strlit("default");
    assert("disabled"@.len() == 8);
    assert("default"@.len() == 7);
}

/// A format is read from its own word in whatever letter case, and from nothing else.
pub proof fn law_format_is_read_from_its_word(s: Seq<char>, f: Format)
    ensures
        format_of(s) == Some(f) <==> text::ascii_lower(s) == format_word(f),
        format_word(Format::Hex) == "hex"@,
        format_word(Format::Cid) == "cid"@,
{
    reveal_strlit("hex");
    reveal_strlit("cid");
    assert("hex"@[0] != "cid"@[0]);
}

/// A type of ticket is read from its own word, in whatever letter case and with underscores in place
/// of the hyphens or not, and from nothing else.
pub proof fn law_ticket_type_is_read_from_its_word(s: Seq<char>, t: AddrInfoOptions)
    ensures
        ticket_type_of(s) == Some(t) <==> text::replace_char(text::ascii_lower(s), '_', '-')
            == ticket_type_word(t),
        ticket_type_word(AddrInfoOptions::Id) == "id"@,
        ticket_type_word(AddrInfoOptions::Relay) == "relay"@,
        ticket_type_word(AddrInfoOptions::Addresses) == "addresses"@,
        ticket_type_word(AddrInfoOptions::RelayAndAddresses) == "relay-and-addresses"@,
{
    reveal_strlit("id");
    reveal_strlit("relay-and-addresses");
    reveal_strlit("relay");
    reveal_strlit("addresses");
    assert("id"@.len() == 2 && "relay"@.len() == 5 && "addresses"@.len() == 9);
    assert("relay-and-addresses"@.len() == 19);
}

/// A text that is neither of the two words names the relay whose URL it is, in its normal form, or
/// nothing where it is none. The two words are never taken for a URL, and name different modes.
pub proof fn law_relay_mode(s: Seq<char>, url: Option<Seq<char>>)
    ensures
        s != "disabled"@ && s != "default"@ ==> relay_mode_of(s, url) == match url {
            Some(u) => Some(RelayModeView::Custom(u)),
            None => None,
        },
        relay_mode_of("disabled"@, url) == Some(RelayModeView::Disabled),
        relay_mode_of("default"@, url) == Some(RelayModeView::Default),
        url matches Some(u) ==> relay_mode_text(RelayModeView::Custom(u)) == u,
{
    reveal_strlit("disabled");
    reveal_strlit("default");
    assert("disabled"@.len() == 8);
    assert("default"@.len() == 7);
}

/// A relay mode is looked at as what it is.
pub proof fn law_relay_mode_view(m: RelayModeOption)
    ensures
        m is Disabled ==> m@ is Disabled,
        m is Default ==> m@ is Default,
        m matches RelayModeOption::Custom(url) ==> m@ == RelayModeView::Custom(url@),
{
}

}
