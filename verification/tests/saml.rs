use identify_saml::{
    Assertion, ReadError, Saml, ScanError, ISSUER, NAME_ID_FORMAT, SAML_RESPONSE,
};

const RESPONSE: &str = "<samlp:Response xmlns:samlp=\"urn:oasis:names:tc:SAML:2.0:protocol\" \
xmlns:saml=\"urn:oasis:names:tc:SAML:2.0:assertion\">\
<saml:Issuer>https://idp.example</saml:Issuer>\
<saml:Assertion ID=\"a1\">\
<saml:Issuer>https://idp.example</saml:Issuer>\
<saml:Subject>\
<saml:NameID Format=\"urn:oasis:names:tc:SAML:2.0:nameid-format:persistent\">\
partner-x</saml:NameID>\
</saml:Subject>\
</saml:Assertion>\
</samlp:Response>";

#[test]
fn a_posted_response_is_read_by_its_name_id_with_the_issuer_beside() {
    let assertion = Saml::read_response(RESPONSE.as_bytes()).expect("read");

    assert_eq!(assertion.name_id, "partner-x");
    assert_eq!(
        assertion.evidence(),
        vec![
            (ISSUER.to_string(), "https://idp.example".to_string()),
            (
                NAME_ID_FORMAT.to_string(),
                "urn:oasis:names:tc:SAML:2.0:nameid-format:persistent".to_string()
            ),
        ]
    );
}

#[test]
fn evidence_without_a_format_is_the_issuer_alone() {
    let assertion =
        Assertion::scan("<Assertion><Issuer>idp</Issuer><NameID>u</NameID></Assertion>")
            .expect("read")
            .expect("an assertion");

    assert_eq!(
        assertion.evidence(),
        vec![(ISSUER.to_string(), "idp".to_string())]
    );
}

#[test]
fn a_posted_response_without_an_assertion_is_an_error_and_not_an_absence() {
    let failure = Saml::read_response(b"<samlp:Response><samlp:Status/></samlp:Response>")
        .expect_err("no assertion");

    assert_eq!(failure, ReadError::NoAssertion);
    assert!(failure.message().contains("no Assertion"), "{failure:?}");
}

#[test]
fn a_posted_response_that_is_not_utf8_is_an_error() {
    let failure = Saml::read_response(&[0xff, 0xfe]).expect_err("not UTF-8");

    assert_eq!(failure, ReadError::NotUtf8);
    assert_eq!(failure.message(), "the SAML response is not UTF-8 XML");
}

#[test]
fn a_posted_response_with_an_unreadable_assertion_says_why() {
    let failure = Saml::read_response(b"<EncryptedAssertion/>").expect_err("encrypted");

    assert_eq!(failure, ReadError::Unreadable(ScanError::Encrypted));
    assert!(failure.message().contains("encrypted"));
}

#[test]
fn an_assertion_in_the_content_is_read_and_its_element_framed_by_the_span() {
    let assertion = Saml::read_content(RESPONSE.as_bytes())
        .expect("read")
        .expect("an assertion");

    assert_eq!(assertion.name_id, "partner-x");
    let element = &RESPONSE.as_bytes()[assertion.span.0..assertion.span.1];
    let element = String::from_utf8(element.to_vec()).expect("text");
    assert!(element.starts_with("<saml:Assertion"));
    assert!(element.ends_with("</saml:Assertion>"));
}

#[test]
fn content_without_an_assertion_is_read_as_nothing() {
    assert_eq!(Saml::read_content(b"<Order/>").expect("read"), None);
    assert_eq!(Saml::read_content(&[0xff, 0xfe]).expect("read"), None);
}

#[test]
fn content_with_an_unreadable_assertion_is_an_error() {
    assert_eq!(
        Saml::read_content(b"<Assertion><Issuer>i</Issuer>"),
        Err(ScanError::Unclosed)
    );
}

#[test]
fn the_property_is_the_posted_field_by_default() {
    assert_eq!(Saml::posted().property(), SAML_RESPONSE);
    assert_eq!(SAML_RESPONSE, "http.form.samlresponse");
    assert_eq!(Saml::in_property("custom").property(), "custom");
    assert_eq!(Saml::posted(), Saml::in_property("http.form.samlresponse"));
}

#[test]
fn only_a_pushed_arrival_with_the_posted_field_is_read() {
    let posted = Some(RESPONSE.as_bytes());

    assert_eq!(Saml::read_arrival(false, posted).expect("read"), None);
    assert_eq!(Saml::read_arrival(true, None).expect("read"), None);
    let assertion = Saml::read_arrival(true, posted)
        .expect("read")
        .expect("an assertion");
    assert_eq!(assertion.name_id, "partner-x");
    assert_eq!(
        Saml::read_arrival(true, Some(b"<samlp:Response/>")),
        Err(ReadError::NoAssertion)
    );
}
