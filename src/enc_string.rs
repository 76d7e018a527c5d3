//! Percent-encoded text, as names and MIME types travel between client and
//! server.
use vstd::prelude::*;

verus! {

/// ASCII letters and digits and `-`, `_`, `.`, `~`: left as they are.
pub open spec fn is_unreserved(c: char) -> bool {
    ('0' <= c && c <= '9') || ('A' <= c && c <= 'Z') || ('a' <= c && c <= 'z') || c == '-' || c == '_' || c
        == '.' || c == '~'
}

/// The percent-encoding of `s`.
pub uninterp spec fn url_encoded(s: Seq<char>) -> Seq<char>;

/// The text that the percent-encoded `s` stands for.
pub uninterp spec fn url_decoded(s: Seq<char>) -> Seq<char>;

/// The bytes that the percent-encoded `s` stands for.
pub uninterp spec fn url_decoded_bytes(s: Seq<char>) -> Seq<u8>;

/// Relies on `urlencoding::decode_binary`: `%XX` sequences become the byte
/// they name, every other byte stays; text without `%` gives its own bytes.
#[verifier::external_body]
fn percent_decode_bytes(s: &str) -> (r: Vec<u8>)
    ensures
        r@ == url_decoded_bytes(s@),
        s@.len() == 0 ==> r@.len() == 0,
{
    urlencoding::decode_binary(s.as_bytes()).into_owned()
}

#[verifier::external_type_specification]
#[verifier::external_body]
pub struct ExFromUtf8Error(std::string::FromUtf8Error);

/// Relies on `urlencoding::encode`: every byte but ASCII alphanumerics and
/// `-`, `_`, `.`, `~` is written `%XX`; the result depends on the text alone,
/// and empty text stays empty.
#[verifier::external_body]
fn percent_encode(s: &str) -> (r: String)
    ensures
        r@ == url_encoded(s@),
        s@.len() == 0 ==> r@.len() == 0,
        (forall|i: int| 0 <= i < s@.len() ==> is_unreserved(#[trigger] s@[i])) ==> r@ == s@,
{
    urlencoding::encode(s).into_owned()
}

/// Relies on `urlencoding::decode`: `%XX` sequences become bytes, which must
/// form UTF-8; text without `%` comes back as it is.
#[verifier::external_body]
fn percent_decode(s: &str) -> (r: Result<String, std::string::FromUtf8Error>)
    ensures
        r is Ok ==> r->Ok_0@ == url_decoded(s@),
        s@.len() == 0 ==> r is Ok && r->Ok_0@.len() == 0,
        (forall|i: int| 0 <= i < s@.len() ==> #[trigger] s@[i] != '%') ==> r is Ok && r->Ok_0@ == s@,
{
    match urlencoding::decode(s) {
        Ok(text) => Ok(text.into_owned()),
        Err(e) => Err(e),
    }
}

/// The percent-encoded text does not decode to UTF-8.
#[derive(Clone, Copy, Debug, PartialEq, Eq, Structural)]
pub enum EncodingError {
    InvalidUtf8,
}

/// Text held in percent-encoded form.
pub struct EncString(pub String);

impl View for EncString {
    type V = Seq<char>;

    open spec fn view(&self) -> Seq<char> {
        self.0@
    }
}

impl EncString {
    /// Encodes `string`.
    pub fn encode(string: &str) -> (r: EncString)
        ensures
            r@ == url_encoded(string@),
            string@.len() == 0 ==> r@.len() == 0,
            (forall|i: int| 0 <= i < string@.len() ==> is_unreserved(#[trigger] string@[i])) ==> r@ == string@,
    {
        EncString(percent_encode(string))
    }

    /// The encoded form.
    pub fn encoded(&self) -> (r: &String)
        ensures
            r@ == self@,
    {
        &self.0
    }

    pub fn is_empty(&self) -> (r: bool)
        ensures
            r == (self@.len() == 0),
    {
        self.0.as_str().is_empty()
    }

    /// The decoded bytes, whatever their encoding.
    pub fn plain_bytes(&self) -> (r: Vec<u8>)
        ensures
            r@ == url_decoded_bytes(self@),
            self@.len() == 0 ==> r@.len() == 0,
    {
        percent_decode_bytes(self.0.as_str())
    }

    /// The decoded text.
    pub fn plain(&self) -> (r: Result<String, EncodingError>)
        ensures
            r matches Ok(v) ==> v@ == url_decoded(self@),
            self@.len() == 0 ==> (r matches Ok(v) && v@.len() == 0),
            (forall|i: int| 0 <= i < self@.len() ==> #[trigger] self@[i] != '%') ==> (r matches Ok(v) && v@ == self@),
    {
        match percent_decode(self.0.as_str()) {
            Ok(v) => Ok(v),
            Err(_) => Err(EncodingError::InvalidUtf8),
        }
    }
}

impl Clone for EncString {
    fn clone(&self) -> (r: Self)
        ensures
            r@ == self@,
    {
        EncString(self.0.clone())
    }
}

} // verus!
