use barnabas::base64::{base64_decode, base64_encode};
use barnabas::client::Error;
use barnabas::login::{on_exchange, on_handshake, Login};
use barnabas::sasl::{
    field, hash, hi, hmac, plain_message, read_challenge, saslprep, xor, Credentials, SaslError,
    SaslMechanism, ScramExchange,
};

fn hex(bytes: &[u8]) -> String {
    bytes.iter().map(|b| format!("{b:02x}")).collect()
}

#[test]
fn plain_is_nul_separated_with_an_empty_authzid() {
    let msg = plain_message(&Credentials::plain("user", "pass"));
    assert_eq!(msg, b"\0user\0pass");
}

/// A password in a log is a leak, however convenient the log.
#[test]
fn debug_never_prints_the_password() {
    let printed = Credentials::plain("user", "hunter2").debug_text();
    assert!(!printed.contains("hunter2"), "the password leaked: {printed}");
    assert!(printed.contains("redacted"));
}

#[test]
fn debug_text_quotes_the_username() {
    let printed = Credentials::scram_sha512("a\"b", "hunter2").debug_text();
    assert!(printed.contains("\"a\\\"b\""), "{printed}");
    assert!(printed.contains("ScramSha512"), "{printed}");
}

#[test]
fn only_plain_discloses_the_password() {
    assert!(SaslMechanism::Plain.requires_encryption());
    assert!(!SaslMechanism::ScramSha256.requires_encryption());
}

#[test]
fn mechanisms_are_named_as_the_broker_names_them() {
    assert_eq!(SaslMechanism::Plain.as_str(), "PLAIN");
    assert_eq!(SaslMechanism::ScramSha256.as_str(), "SCRAM-SHA-256");
    assert_eq!(SaslMechanism::ScramSha512.as_str(), "SCRAM-SHA-512");
}

#[test]
fn base64_round_trips() {
    for case in [&b""[..], b"f", b"fo", b"foo", b"foob", b"fooba", b"foobar"] {
        assert_eq!(base64_decode(&base64_encode(case)).as_deref(), Some(case));
    }
    // The known vectors, so an off-by-one in the padding is caught.
    assert_eq!(base64_encode(b"foobar"), "Zm9vYmFy");
    assert_eq!(base64_encode(b"fo"), "Zm8=");
}

#[test]
fn base64_refuses_what_is_no_digit() {
    assert_eq!(base64_decode("Zm9!"), None);
    assert_eq!(base64_decode("Zm9vYmFy"), Some(b"foobar".to_vec()));
}

/// The exchange, end to end, against a server that knows the password. The server's
/// side is computed here, so a wrong derivation would not match.
#[test]
fn scram_completes_against_a_server_that_knows_the_password() {
    let credentials = Credentials::scram_sha256("user", "pencil");
    let (mut exchange, client_first) = ScramExchange::start(&credentials, "clientNONCE");
    assert_eq!(client_first, b"n,,n=user,r=clientNONCE");

    let salt = b"saltsalt";
    let iterations = 4096u32;
    let server_first = format!(
        "r=clientNONCEserverNONCE,s={},i={iterations}",
        base64_encode(salt)
    );

    let client_final = exchange
        .client_final(server_first.as_bytes())
        .expect("client final");
    let final_text = String::from_utf8(client_final).unwrap();
    assert!(final_text.starts_with("c=biws,r=clientNONCEserverNONCE,p="));

    let salted = hi(
        SaslMechanism::ScramSha256,
        credentials.password.as_bytes(),
        salt,
        iterations,
    );
    let server_key = hmac(SaslMechanism::ScramSha256, &salted, b"Server Key");
    let auth_message = format!("n=user,r=clientNONCE,{server_first},c=biws,r=clientNONCEserverNONCE");
    let signature = hmac(
        SaslMechanism::ScramSha256,
        &server_key,
        auth_message.as_bytes(),
    );

    exchange
        .verify(format!("v={}", base64_encode(&signature)).as_bytes())
        .expect("the server signature must verify");
}

/// The example exchange of RFC 7677: user `user`, password `pencil`.
#[test]
fn scram_matches_the_published_exchange() {
    let credentials = Credentials::scram_sha256("user", "pencil");
    let (mut exchange, first) = ScramExchange::start(&credentials, "rOprNGfwEbeRWgbNEkqO");
    assert_eq!(first, b"n,,n=user,r=rOprNGfwEbeRWgbNEkqO");
    let last = exchange
        .client_final(
            b"r=rOprNGfwEbeRWgbNEkqO%hvYDpWUa2RaTCAfuxFIlj)hNlF$k0,s=W22ZaJ0SNY7soEsUEjb6gQ==,i=4096",
        )
        .expect("client final");
    assert_eq!(
        String::from_utf8(last).unwrap(),
        "c=biws,r=rOprNGfwEbeRWgbNEkqO%hvYDpWUa2RaTCAfuxFIlj)hNlF$k0,p=dHzbZapWIk4jUhN+Ute9ytag9zjfMHgsqmmiz7AndVQ="
    );
    exchange
        .verify(b"v=6rriTRBi23WpRR/wtup+mMhUZUn/dB5nLTJRsjl95G4=")
        .expect("the published signature must verify");
}

/// The verification must actually reject: a peer that never knew the password can
/// still send a final message.
#[test]
fn a_wrong_server_signature_is_rejected() {
    let credentials = Credentials::scram_sha256("user", "pencil");
    let (mut exchange, _) = ScramExchange::start(&credentials, "nonce");
    exchange
        .client_final(b"r=nonceserver,s=c2FsdA==,i=4096")
        .expect("client final");

    let err = exchange
        .verify(b"v=AAAAAAAAAAAAAAAAAAAAAAAAAAAAAAAAAAAAAAAAAAA=")
        .expect_err("a forged signature must be rejected");
    assert!(matches!(err, SaslError::ServerSignature));
}

/// The server must echo our nonce. One that does not is a different exchange.
#[test]
fn a_server_nonce_that_drops_ours_is_rejected() {
    let credentials = Credentials::scram_sha256("user", "pencil");
    let (mut exchange, _) = ScramExchange::start(&credentials, "clientNONCE");
    let err = exchange
        .client_final(b"r=somethingelse,s=c2FsdA==,i=4096")
        .expect_err("the nonce must extend ours");
    assert!(matches!(err, SaslError::Malformed(_)));
}

/// Commas and equals signs separate fields, so a username with them is escaped.
#[test]
fn a_username_with_separators_is_escaped() {
    assert_eq!(saslprep("a,b=c"), "a=2Cb=3Dc");
}

#[test]
fn sha512_derives_differently_from_sha256() {
    let a = hi(SaslMechanism::ScramSha256, b"p", b"s", 2);
    let b = hi(SaslMechanism::ScramSha512, b"p", b"s", 2);
    assert_ne!(a, b);
    assert_eq!(a.len(), 32);
    assert_eq!(b.len(), 64);
}

#[test]
fn hashes_match_their_published_values() {
    assert_eq!(
        hex(&hash(SaslMechanism::ScramSha256, b"abc")),
        "ba7816bf8f01cfea414140de5dae2223b00361a396177a9cb410ff61f20015ad"
    );
    assert_eq!(
        hex(&hash(SaslMechanism::ScramSha512, b"abc")),
        "ddaf35a193617abacc417349ae20413112e6fa4e89a97ea20a9eeee64b55d39a\
         2192992a274fc1a836ba3c23a3feebbd454d4423643ce80e2a9ac94fa54ca49f"
    );
    // RFC 4231, test case 2.
    assert_eq!(
        hex(&hmac(
            SaslMechanism::ScramSha256,
            b"Jefe",
            b"what do ya want for nothing?"
        )),
        "5bdcc146bf60754e6a042426089575c75a003f089d2739839dec58b964ec3843"
    );
    assert_eq!(
        hex(&hmac(
            SaslMechanism::ScramSha512,
            b"Jefe",
            b"what do ya want for nothing?"
        )),
        "164b7a7bfcf819e2e395fbe73b56e0a387bd64222e831fd610270cd7ea250554\
         9758bf75c05a994a6d034f65f8f0e6fdcaeab1a34d4a6b4b636e070a38bce737"
    );
}

/// PBKDF2 with HMAC-SHA-256: password `password`, salt `salt`.
#[test]
fn key_derivation_matches_published_values() {
    assert_eq!(
        hex(&hi(SaslMechanism::ScramSha256, b"password", b"salt", 1)),
        "120fb6cffcf8b32c43e7225256c4f837a86548c92ccc35480805987cb70be17b"
    );
    assert_eq!(
        hex(&hi(SaslMechanism::ScramSha256, b"password", b"salt", 2)),
        "ae4d0c95af6b46d32d0adff928f06dd02a303f8ef3c251dfd6e2d85a95474c43"
    );
}

#[test]
fn xor_works_byte_by_byte() {
    assert_eq!(xor(&[0xff, 0x0f], &[0x0f, 0xff]), vec![0xf0, 0xf0]);
    assert_eq!(xor(&[1, 2, 3], &[1]), vec![0]);
}

#[test]
fn fields_are_found_by_their_letter() {
    assert_eq!(field("r=abc,s=def,i=1", 's'), Some("def"));
    assert_eq!(field("r=abc", 's'), None);
}

#[test]
fn a_challenge_needs_its_three_fields() {
    for bad in [
        "s=c2FsdA==,i=4096",
        "r=nonceX,i=4096",
        "r=nonceX,s=c2FsdA==",
        "r=nonceX,s=c2FsdA==,i=many",
    ] {
        match read_challenge(bad, "nonce") {
            Err(SaslError::Malformed(_)) => {}
            _ => panic!("{bad} was accepted"),
        }
    }
    assert!(read_challenge("r=nonceX,s=c2FsdA==,i=4096", "nonce").is_ok());
}

#[test]
fn sasl_errors_say_what_happened() {
    assert_eq!(
        SaslError::Rejected.message(),
        "the broker rejected the credentials"
    );
    assert_eq!(
        SaslError::Malformed("no nonce".to_owned()).message(),
        "the broker's SASL message was malformed: no nonce"
    );
    assert!(SaslError::ServerSignature.message().contains("did not verify"));
}

#[test]
fn a_refused_mechanism_is_an_error_that_names_the_offered_ones() {
    assert!(on_handshake(SaslMechanism::Plain, 0, &vec!["PLAIN".to_owned()]).is_ok());
    match on_handshake(
        SaslMechanism::Plain,
        33,
        &vec!["SCRAM-SHA-256".to_owned(), "SCRAM-SHA-512".to_owned()],
    ) {
        Err(Error::Sasl(text)) => {
            assert!(text.contains("PLAIN"), "{text}");
            assert!(text.contains("SCRAM-SHA-256"), "{text}");
        }
        other => panic!("unexpected {other:?}"),
    }
}

#[test]
fn a_refused_exchange_carries_the_brokers_words() {
    assert!(on_exchange(0, None).is_ok());
    match on_exchange(58, Some("bad password".to_owned())) {
        Err(Error::Sasl(text)) => assert!(text.contains("bad password"), "{text}"),
        other => panic!("unexpected {other:?}"),
    }
}

/// Logging in by challenge needs the server's proof; by password it does not.
#[test]
fn a_login_ends_with_the_servers_proof() {
    let plain = Credentials::plain("user", "pencil");
    let (login, message) = Login::start(&plain, "unused");
    assert_eq!(message, b"\0user\0pencil");
    let (login, next) = match login.on_answer(b"") {
        Ok(next) => next,
        Err(e) => panic!("unexpected {e:?}"),
    };
    assert!(matches!(login, Login::Done));
    assert!(next.is_none());

    let scram = Credentials::scram_sha256("user", "pencil");
    let (login, first) = Login::start(&scram, "rOprNGfwEbeRWgbNEkqO");
    assert_eq!(first, b"n,,n=user,r=rOprNGfwEbeRWgbNEkqO");
    let (login, last) = match login.on_answer(
        b"r=rOprNGfwEbeRWgbNEkqO%hvYDpWUa2RaTCAfuxFIlj)hNlF$k0,s=W22ZaJ0SNY7soEsUEjb6gQ==,i=4096",
    ) {
        Ok(next) => next,
        Err(e) => panic!("unexpected {e:?}"),
    };
    assert!(last.is_some());
    match login.on_answer(b"v=AAAAAAAAAAAAAAAAAAAAAAAAAAAAAAAAAAAAAAAAAAA=") {
        Err(Error::Sasl(text)) => assert!(text.contains("did not verify"), "{text}"),
        _ => panic!("a forged proof was accepted"),
    }
}
