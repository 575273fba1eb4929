//! Identify by SAML: a SAML 2.0 assertion's subject and issuer, read and not
//! verified.
//!
//! An identity provider asserts who a subject is and signs the assertion;
//! the subject then carries it to the service. Who the assertion says the
//! subject is (the `NameID`) and who says so (the `Issuer`) are in the
//! clear, and this library reads them: the `NameID` is the claim, the issuer
//! and the `NameID` format ride beside it as evidence, and the assertion
//! itself rides as proof for a later gate to check the signature and
//! conditions. Nothing here checks them; an assertion signed by nobody reads
//! exactly as one signed by the right identity provider. An
//! `EncryptedAssertion` is recognised and refused: the names are not
//! readable, and saying so is different from seeing nothing.
//!
//! A posted response arrives as the standard base64 of the `SAMLResponse`
//! form field; [`Saml::read_response`] reads it once decoded. Content that is
//! the XML itself (a SOAP-borne assertion, a WS-Security SAML token) is read
//! by [`Saml::read_content`].

pub mod assertion;
pub mod text;

use vstd::prelude::*;
use vstd::utf8::{decode_utf8, encode_utf8, valid_utf8};

pub use assertion::{Assertion, AssertionView, ScanError};
use assertion::{first_element, law_without_the_word_nothing_is_read, scan_chars, scan_view, scanned};
use text::{chars_of, index_of_seq};

verus! {

/// The property read by default: the posted `SAMLResponse` form field.
pub const SAML_RESPONSE: &'static str = "http.form.samlresponse";

/// The evidence name carrying the issuer.
pub const ISSUER: &'static str = "saml.issuer";

/// The evidence name carrying the `NameID` format.
pub const NAME_ID_FORMAT: &'static str = "saml.name-id-format";


/// Checks `bytes` as UTF-8 (`core::str::from_utf8`).
///
/// Trusted: the call succeeds exactly when the bytes are valid UTF-8, and
/// the text it gives back is encoded by exactly those bytes.
#[verifier::external_body]
fn utf8(bytes: &[u8]) -> (r: Option<&str>)
    ensures
        r is Some <==> valid_utf8(bytes@),
        r matches Some(s) ==> encode_utf8(s@) == bytes@,
{
    core::str::from_utf8(bytes).ok()
}

/// Why a posted response presents no claim.
#[derive(Clone, Copy, Debug, PartialEq, Eq)]
pub enum ReadError {
    /// The decoded response is not UTF-8.
    NotUtf8,
    /// The response holds no `Assertion` element.
    NoAssertion,
    /// The assertion is there and cannot be read.
    Unreadable(ScanError),
}

impl ReadError {
    pub open spec fn spec_message(self) -> Seq<char> {
        match self {
            ReadError::NotUtf8 => "the SAML response is not UTF-8 XML"@,
            ReadError::NoAssertion => "the SAML response carries no Assertion"@,
            ReadError::Unreadable(e) => e.spec_message(),
        }
    }

    /// The error as a sentence.
    pub fn message(&self) -> (m: String)
        ensures
            m@ == self.spec_message(),
    {
        match self {
            ReadError::NotUtf8 => String::from_str("the SAML response is not UTF-8 XML"),
            ReadError::NoAssertion => String::from_str("the SAML response carries no Assertion"),
            ReadError::Unreadable(e) => e.message(),
        }
    }
}

/// What reading a decoded posted response gives.
pub open spec fn response_read(bytes: Seq<u8>) -> Result<AssertionView, ReadError> {
    if !valid_utf8(bytes) {
        Err(ReadError::NotUtf8)
    } else {
        match assertion::scanned(decode_utf8(bytes)) {
            Ok(Some(a)) => Ok(a),
            Ok(None) => Err(ReadError::NoAssertion),
            Err(e) => Err(ReadError::Unreadable(e)),
        }
    }
}

/// What reading content gives: the assertion in it, where the content is
/// UTF-8 text.
pub open spec fn content_read(bytes: Seq<u8>) -> Result<Option<AssertionView>, ScanError> {
    if !valid_utf8(bytes) {
        Ok(None)
    } else {
        assertion::scanned(decode_utf8(bytes))
    }
}

impl Assertion {
    /// The evidence that rides beside the claim, in order: the issuer, then
    /// the `NameID` format where the `NameID` has one.
    pub fn evidence(&self) -> (e: Vec<(String, String)>)
        ensures
            e@.len() == if self.format is Some { 2int } else { 1int },
            e@[0].0@ == ISSUER@,
            e@[0].1@ == self.issuer@,
            self.format matches Some(f) ==> e@[1].0@ == NAME_ID_FORMAT@ && e@[1].1@ == f@,
    {
        let mut e: Vec<(String, String)> = Vec::new();
        e.push((String::from_str(ISSUER), self.issuer.clone()));
        match &self.format {
            Some(format) => e.push((String::from_str(NAME_ID_FORMAT), format.clone())),
            None => {},
        }
        e
    }
}

/// A posted response and the same XML met as content read the same
/// assertion: the mechanism travels on both layers and reads alike on each.
/// They differ only where there is nothing to read, which a posted response
/// turns into an error and content into an absence.
pub proof fn law_both_layers_read_alike(bytes: Seq<u8>)
    ensures
        response_read(bytes) matches Ok(a) ==> content_read(bytes) == Ok::<
            Option<AssertionView>,
            ScanError,
        >(Some(a)),
        content_read(bytes) matches Ok(Some(a)) ==> response_read(bytes) == Ok::<
            AssertionView,
            ReadError,
        >(a),
        content_read(bytes) matches Err(e) ==> response_read(bytes) == Err::<
            AssertionView,
            ReadError,
        >(ReadError::Unreadable(e)),
        content_read(bytes) == Ok::<Option<AssertionView>, ScanError>(None) ==> response_read(
            bytes,
        ) is Err,
        response_read(bytes) matches Err(ReadError::Unreadable(e)) ==> content_read(bytes) == Err::<
            Option<AssertionView>,
            ScanError,
        >(e),
{
}

/// Reading is scanning the text: where the bytes are UTF-8 and their text
/// scans to an assertion, a posted response and content both read exactly
/// that assertion, names as written; where the scan refuses, both layers
/// refuse with the scan's own error, so an unreadable assertion is never
/// read as nothing; and content reads as nothing only where it is not text
/// or its text holds no assertion.
pub proof fn law_reading_is_scanning(bytes: Seq<u8>)
    ensures
        valid_utf8(bytes) ==> (scanned(decode_utf8(bytes)) matches Ok(Some(a)) ==> {
            &&& response_read(bytes) == Ok::<AssertionView, ReadError>(a)
            &&& content_read(bytes) == Ok::<Option<AssertionView>, ScanError>(Some(a))
        }),
        valid_utf8(bytes) ==> (scanned(decode_utf8(bytes)) matches Err(e) ==> {
            &&& response_read(bytes) == Err::<AssertionView, ReadError>(ReadError::Unreadable(e))
            &&& content_read(bytes) == Err::<Option<AssertionView>, ScanError>(e)
        }),
        response_read(bytes) matches Ok(a) ==> valid_utf8(bytes) && scanned(decode_utf8(bytes))
            == Ok::<Option<AssertionView>, ScanError>(Some(a)),
        content_read(bytes) == Ok::<Option<AssertionView>, ScanError>(None) ==> !valid_utf8(bytes)
            || scanned(decode_utf8(bytes)) == Ok::<Option<AssertionView>, ScanError>(None),
{
}

/// An `EncryptedAssertion` with no readable `Assertion` beside it is
/// recognised and refused on both layers, which is different from seeing
/// nothing.
pub proof fn law_an_encrypted_assertion_is_refused(bytes: Seq<u8>)
    requires
        valid_utf8(bytes),
        first_element(decode_utf8(bytes), "Assertion"@, 0) is None,
        first_element(decode_utf8(bytes), "EncryptedAssertion"@, 0) is Some,
    ensures
        content_read(bytes) == Err::<Option<AssertionView>, ScanError>(ScanError::Encrypted),
        response_read(bytes) == Err::<AssertionView, ReadError>(
            ReadError::Unreadable(ScanError::Encrypted),
        ),
{
}

/// Reads an assertion's subject, from a posted response or from the content.
#[derive(Clone, Debug, Eq, PartialEq)]
pub struct Saml {
    property: String,
}

impl View for Saml {
    type V = Seq<char>;

    /// The name of the property the response is read from.
    closed spec fn view(&self) -> Seq<char> {
        self.property@
    }
}

impl Saml {
    /// The response in the `SAMLResponse` form field the transport promoted.
    pub fn posted() -> (s: Self)
        ensures
            s@ == SAML_RESPONSE@,
    {
        Self::in_property(SAML_RESPONSE)
    }

    /// The base64 response or assertion in a named property.
    pub fn in_property(property: &str) -> (s: Self)
        ensures
            s@ == property@,
    {
        Saml { property: String::from_str(property) }
    }

    /// The name of the property the response is read from.
    pub fn property(&self) -> (p: &str)
        ensures
            p@ == self@,
    {
        self.property.as_str()
    }

    /// Reads what a transport arrival presents: nothing unless the arrival
    /// was pushed to the service and carries the posted field; otherwise
    /// the assertion of the posted response, given the bytes the field's
    /// base64 decodes to. A scheduled pickup presents nothing, because
    /// nobody posted anything.
    pub fn read_arrival(pushed: bool, posted: Option<&[u8]>) -> (r: Result<
        Option<Assertion>,
        ReadError,
    >)
        ensures
            !pushed ==> r == Ok::<Option<Assertion>, ReadError>(None),
            posted is None ==> r == Ok::<Option<Assertion>, ReadError>(None),
            pushed && posted is Some ==> match r {
                Ok(Some(a)) => response_read(posted->0@) == Ok::<AssertionView, ReadError>(a@),
                Ok(None) => false,
                Err(e) => response_read(posted->0@) == Err::<AssertionView, ReadError>(e),
            },
    {
        if !pushed {
            return Ok(None);
        }
        match posted {
            None => Ok(None),
            Some(decoded) => match Self::read_response(decoded) {
                Ok(a) => Ok(Some(a)),
                Err(e) => Err(e),
            },
        }
    }

    /// Reads the assertion of a posted response, given the bytes its base64
    /// decodes to. A response without an assertion is an error, not an
    /// absence: something was posted and it presents nobody.
    pub fn read_response(decoded: &[u8]) -> (r: Result<Assertion, ReadError>)
        ensures
            match r {
                Ok(a) => response_read(decoded@) == Ok::<AssertionView, ReadError>(a@),
                Err(e) => response_read(decoded@) == Err::<AssertionView, ReadError>(e),
            },
    {
        let xml = match utf8(decoded) {
            Some(xml) => xml,
            None => return Err(ReadError::NotUtf8),
        };
        proof {
            vstd::utf8::encode_utf8_decode_utf8(xml@);
        }
        match Assertion::scan(xml) {
            Ok(Some(a)) => Ok(a),
            Ok(None) => Err(ReadError::NoAssertion),
            Err(e) => Err(ReadError::Unreadable(e)),
        }
    }

    /// Reads the assertion in content that is the XML itself. Content that
    /// is not UTF-8, or holds no `Assertion` element, presents nothing.
    pub fn read_content(content: &[u8]) -> (r: Result<Option<Assertion>, ScanError>)
        ensures
            scan_view(r) == content_read(content@),
    {
        let xml = match utf8(content) {
            Some(xml) => xml,
            None => return Ok(None),
        };
        proof {
            vstd::utf8::encode_utf8_decode_utf8(xml@);
        }
        // The text's UTF-8 length fits a `usize`: the byte offsets of the
        // span are computed in one.
        let _ = xml.as_bytes().len();
        let d = chars_of(xml);
        if index_of_seq(d.as_slice(), chars_of("Assertion").as_slice(), 0).is_none() {
            proof {
                law_without_the_word_nothing_is_read(d@);
            }
            return Ok(None);
        }
        scan_chars(d.as_slice())
    }

}

} // verus!
