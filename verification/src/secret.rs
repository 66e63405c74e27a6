//! The secret key of an endpoint.
use vstd::prelude::*;
use crate::digits;
use crate::outside;

verus! {

/// A secret key, and the line that tells the user of it, if one is printed.
#[derive(Debug)]
pub struct Secret {
    /// The key.
    pub key: [u8; 32],
    /// What is printed.
    pub line: Option<String>,
}

/// Why there is no secret key: the one that was given is none.
#[derive(Debug)]
pub struct SecretError {
    /// What reading it says.
    pub cause: iroh::KeyParsingError,
}

impl SecretError {
    /// The message of the error.
    pub fn message(&self) -> (s: String)
        ensures
            s@ == "invalid secret"@,
    {
        "invalid secret".to_string()
    }
}

/// The line that shows a secret key.
pub open spec fn secret_line(key: Seq<u8>) -> Seq<char> {
    "using secret key "@ + digits::hex_lower(key)
}

/// The line that shows a secret key.
pub fn write_secret_line(key: &[u8; 32]) -> (s: String)
    ensures
        s@ == secret_line(key@),
{
    let mut s = "using secret key ".to_string();
    s.append(outside::hex_encode(key.as_slice()).as_str());
    s
}

/// The key that was given, where reading it gave one. Nothing is printed of it.
pub fn given_secret(parsed: Result<[u8; 32], iroh::KeyParsingError>) -> (r: Result<
    Secret,
    SecretError,
>)
    ensures
        match parsed {
            Ok(key) => r matches Ok(s) && s.key == key && s.line is None,
            Err(e) => r == Err::<Secret, SecretError>(SecretError { cause: e }),
        },
{
    match parsed {
        Ok(key) => Ok(Secret { key, line: None }),
        Err(cause) => Err(SecretError { cause }),
    }
}

/// A key that was made up. It is shown where the user wants to see it, to save it.
pub fn new_secret(key: [u8; 32], print: bool) -> (r: Secret)
    ensures
        r.key == key,
        r.line is Some <==> print,
        r.line matches Some(s) ==> s@ == secret_line(key@),
{
    let line = if print {
        Some(write_secret_line(&key))
    } else {
        None
    };
    Secret { key, line }
}

/// The key that is given in the environment, or else a new one, drawn at random. A new one is
/// shown where `print` holds, and what is shown, given back, is that key. Nothing is said of which
/// key is drawn.
pub fn get_or_create_secret(given: Option<&str>, print: bool) -> (r: Result<Secret, SecretError>)
    ensures
        given matches Some(text) ==> match digits::key_of_text(text@) {
            Some(key) => r matches Ok(s) && s.key@ == key && s.line is None,
            None => r is Err,
        },
        given matches Some(text) ==> forall|key: Seq<u8>|
            key.len() == 32 && text@ == #[trigger] digits::hex_lower(key) ==> (r matches Ok(s)
                && s.key@ == key),
        given is None ==> (r matches Ok(s) && {
            &&& s.line is Some <==> print
            &&& s.line matches Some(line) ==> line@ == secret_line(s.key@)
        }),
{
    match given {
        Some(text) => {
            let parsed = outside::parse_secret(text);
            proof {
                if parsed is Ok {
                    digits::lemma_key_of_text(text@, parsed->Ok_0@);
                }
                assert forall|key: Seq<u8>|
                    key.len() == 32 && text@ == #[trigger] digits::hex_lower(key) implies parsed
                    is Ok && parsed->Ok_0@ == key by {
                    assert(digits::writes_key(text@, key));
                    digits::law_key_text_is_unique(text@, parsed->Ok_0@, key);
                }
            }
            given_secret(parsed)
        },
        None => Ok(new_secret(outside::generate_secret(), print)),
    }
}

/// What is shown of a new key reads back as that key.
pub proof fn law_shown_secret_reads_back(key: Seq<u8>)
    requires
        key.len() == 32,
    ensures
        "using secret key "@.is_prefix_of(secret_line(key)),
        digits::key_of_text(secret_line(key).skip("using secret key "@.len() as int)) == Some(key),
{
    let word = "using secret key "@;
    let line = secret_line(key);
    assert(word =~= line.subrange(0, word.len() as int));
    assert(line.skip(word.len() as int) =~= digits::hex_lower(key));
    assert(digits::writes_key(digits::hex_lower(key), key));
    digits::lemma_key_of_text(digits::hex_lower(key), key);
}

}
