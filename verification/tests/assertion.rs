use identify_saml::{Assertion, ScanError};

const RESPONSE: &str = r#"<samlp:Response xmlns:samlp="urn:oasis:names:tc:SAML:2.0:protocol"
    xmlns:saml="urn:oasis:names:tc:SAML:2.0:assertion" ID="r1">
  <saml:Issuer>https://idp.example/metadata</saml:Issuer>
  <saml:Assertion ID="a1" Version="2.0">
    <saml:Issuer>https://idp.example/metadata</saml:Issuer>
    <saml:Subject>
      <saml:NameID
        Format="urn:oasis:names:tc:SAML:1.1:nameid-format:emailAddress">
        jane&amp;co@partner-x.example
      </saml:NameID>
      <saml:SubjectConfirmation Method="urn:oasis:names:tc:SAML:2.0:cm:bearer"/>
    </saml:Subject>
  </saml:Assertion>
</samlp:Response>"#;

#[test]
fn the_issuer_and_name_id_are_read_whatever_the_prefix_and_unescaped() {
    let assertion = Assertion::scan(RESPONSE)
        .expect("read")
        .expect("an assertion");

    assert_eq!(assertion.issuer, "https://idp.example/metadata");
    assert_eq!(assertion.name_id, "jane&co@partner-x.example");
    assert_eq!(
        assertion.format.as_deref(),
        Some("urn:oasis:names:tc:SAML:1.1:nameid-format:emailAddress")
    );
    assert!(RESPONSE[assertion.span.0..assertion.span.1].starts_with("<saml:Assertion"));
    assert!(RESPONSE[assertion.span.0..assertion.span.1].ends_with("</saml:Assertion>"));
}

#[test]
fn an_unprefixed_assertion_reads_the_same() {
    let xml = "<Assertion><Issuer>idp</Issuer><Subject><NameID>u</NameID></Subject></Assertion>";

    let assertion = Assertion::scan(xml).expect("read").expect("an assertion");

    assert_eq!(assertion.issuer, "idp");
    assert_eq!(assertion.name_id, "u");
    assert_eq!(assertion.format, None);
}

#[test]
fn a_document_without_an_assertion_has_nothing_to_read() {
    assert_eq!(
        Assertion::scan("<order><Assertions/></order>").expect("read"),
        None
    );
}

#[test]
fn an_encrypted_assertion_is_recognised_and_refused_by_name() {
    let xml =
        "<samlp:Response><saml:EncryptedAssertion>x</saml:EncryptedAssertion></samlp:Response>";

    let failure = Assertion::scan(xml).expect_err("encrypted");

    assert!(failure.message().contains("encrypted"), "{failure:?}");
}

#[test]
fn an_assertion_without_a_name_id_is_an_error_naming_the_element() {
    let xml = "<saml:Assertion><saml:Issuer>idp</saml:Issuer><saml:Subject/></saml:Assertion>";

    let failure = Assertion::scan(xml).expect_err("no NameID");

    assert!(failure.message().contains("NameID"), "{failure:?}");
}

#[test]
fn each_error_names_its_cause() {
    assert_eq!(
        Assertion::scan("<x:EncryptedAssertion/>"),
        Err(ScanError::Encrypted)
    );
    assert_eq!(
        Assertion::scan("<Assertion><Issuer>i</Issuer><NameID>u</NameID>"),
        Err(ScanError::Unclosed)
    );
    assert_eq!(
        Assertion::scan("<Assertion><Subject><NameID>u</NameID></Subject></Assertion>"),
        Err(ScanError::NoIssuer)
    );
    assert_eq!(
        Assertion::scan("<Assertion><Issuer> \t </Issuer><NameID>u</NameID></Assertion>"),
        Err(ScanError::NoIssuer)
    );
    assert_eq!(
        Assertion::scan("<Assertion><Issuer>i</Issuer><NameID/></Assertion>"),
        Err(ScanError::NoNameId)
    );
    assert_eq!(
        ScanError::Encrypted.message(),
        "the SAML assertion is encrypted and this gate cannot read it"
    );
    assert_eq!(
        ScanError::Unclosed.message(),
        "the SAML assertion is not closed: no </Assertion>"
    );
    assert_eq!(
        ScanError::NoIssuer.message(),
        "the SAML assertion names no Issuer"
    );
    assert_eq!(
        ScanError::NoNameId.message(),
        "the SAML assertion names no subject: no NameID"
    );
}

#[test]
fn the_five_entities_are_unescaped_once_and_ampersand_last() {
    let xml = "<Assertion><Issuer>&lt;a&gt; &quot;b&quot; &apos;c&apos; &amp;lt;</Issuer>\
               <NameID>u</NameID></Assertion>";

    let assertion = Assertion::scan(xml).expect("read").expect("an assertion");

    assert_eq!(assertion.issuer, "<a> \"b\" 'c' &lt;");
}

#[test]
fn text_is_trimmed_of_unicode_white_space() {
    let xml = "<Assertion><Issuer>\u{3000} idp\u{A0}\n</Issuer><NameID>\u{2003}u</NameID></Assertion>";

    let assertion = Assertion::scan(xml).expect("read").expect("an assertion");

    assert_eq!(assertion.issuer, "idp");
    assert_eq!(assertion.name_id, "u");
}

#[test]
fn the_format_is_read_in_either_quotes_and_with_space_around_the_equals_sign() {
    let single = "<Assertion><Issuer>i</Issuer><NameID Format = 'f&amp;g'>u</NameID></Assertion>";
    let prefixed = "<Assertion><Issuer>i</Issuer><NameID xFormat=\"a\" Format=\"b\">u</NameID></Assertion>";
    let unquoted = "<Assertion><Issuer>i</Issuer><NameID Format=abc Format=\"x\">u</NameID></Assertion>";
    let empty = "<Assertion><Issuer>i</Issuer><NameID Format=>u</NameID></Assertion>";
    let unclosed = "<Assertion><Issuer>i</Issuer><NameID Format=\"x>u</NameID></Assertion>";

    let read = |xml: &str| Assertion::scan(xml).expect("read").expect("an assertion").format;

    assert_eq!(read(single).as_deref(), Some("f&g"));
    assert_eq!(read(prefixed).as_deref(), Some("b"));
    assert_eq!(read(unquoted).as_deref(), Some("x"));
    assert_eq!(read(empty), None);
    assert_eq!(read(unclosed), None);
}

#[test]
fn the_first_name_id_is_the_subjects() {
    let xml = "<Assertion><Issuer>i</Issuer><Subject><NameID>first</NameID>\
               <SubjectConfirmation><NameID>second</NameID></SubjectConfirmation>\
               </Subject></Assertion>";

    let assertion = Assertion::scan(xml).expect("read").expect("an assertion");

    assert_eq!(assertion.name_id, "first");
}

#[test]
fn declarations_and_instructions_are_not_elements() {
    assert_eq!(Assertion::scan("<?Assertion x?><!Assertion>").expect("read"), None);
}

#[test]
fn a_name_that_swallows_a_bracket_hides_what_follows_it() {
    assert_eq!(
        Assertion::scan("<a<Assertion><Issuer>i</Issuer><NameID>u</NameID></Assertion>")
            .expect("read"),
        None
    );
}

#[test]
fn the_span_counts_bytes_not_characters() {
    let xml = "é€<p:Assertion><p:Issuer>i</p:Issuer><p:NameID>ü</p:NameID></p:Assertion>ß";

    let assertion = Assertion::scan(xml).expect("read").expect("an assertion");

    assert_eq!(assertion.span, (5, xml.len() - 2));
    assert_eq!(assertion.name_id, "ü");
}

#[test]
fn the_end_tag_must_close_the_same_qualified_name() {
    let xml = "<a:Assertion><Issuer>i</Issuer><NameID>u</NameID></b:Assertion>";

    assert_eq!(Assertion::scan(xml), Err(ScanError::Unclosed));
}

#[test]
fn rereading_the_element_gives_the_same_names() {
    let assertion = Assertion::scan(RESPONSE).expect("read").expect("an assertion");
    let element = &RESPONSE[assertion.span.0..assertion.span.1];

    let again = Assertion::scan(element).expect("read").expect("an assertion");

    assert_eq!(again.issuer, assertion.issuer);
    assert_eq!(again.name_id, assertion.name_id);
    assert_eq!(again.format, assertion.format);
    assert_eq!(again.span, (0, element.len()));
}

#[test]
fn an_assertion_is_read_before_an_encrypted_one_is_refused() {
    let xml = "<EncryptedAssertion>x</EncryptedAssertion>\
               <Assertion><Issuer>i</Issuer><NameID>u</NameID></Assertion>";

    let assertion = Assertion::scan(xml).expect("read").expect("an assertion");

    assert_eq!(assertion.name_id, "u");
}

#[test]
fn a_clone_is_equal() {
    let assertion = Assertion::scan(RESPONSE).expect("read").expect("an assertion");
    assert_eq!(assertion.clone(), assertion);
}

#[test]
fn escaped_text_is_read_back_as_it_was() {
    let original = "a<&>\"'b &amp; c";
    let escaped = original
        .replace('&', "&amp;")
        .replace('<', "&lt;")
        .replace('>', "&gt;")
        .replace('"', "&quot;")
        .replace('\'', "&apos;");
    let xml = format!("<Assertion><Issuer>{escaped}</Issuer><NameID>u</NameID></Assertion>");

    let assertion = Assertion::scan(&xml).expect("read").expect("an assertion");

    assert_eq!(assertion.issuer, original);
}

#[test]
fn text_without_entities_is_read_unchanged() {
    let xml = "<Assertion><Issuer>a;lt b</Issuer><NameID>u</NameID></Assertion>";

    let assertion = Assertion::scan(xml).expect("read").expect("an assertion");

    assert_eq!(assertion.issuer, "a;lt b");
}
