//! SASL authentication: PLAIN and SCRAM-SHA-256/512.
//!
//! **PLAIN sends the password in the clear**; [`SaslMechanism::requires_encryption`]
//! says so. SCRAM is a challenge and a response, so the password never crosses the
//! wire.
use crate::base64;
use crate::names;
use crate::text;
use vstd::prelude::*;
use vstd::string::{StrSliceExecFns, StringExecFns};

verus! {

/// Which SASL mechanism to use.
#[derive(Debug, Clone, Copy, PartialEq, Eq, Structural)]
pub enum SaslMechanism {
    /// Username and password, **in the clear**. Use only over TLS.
    Plain,
    /// Salted challenge and response, SHA-256.
    ScramSha256,
    /// Salted challenge and response, SHA-512.
    ScramSha512,
}

/// The name that the handshake uses for a mechanism.
pub open spec fn mechanism_name(mechanism: SaslMechanism) -> Seq<char> {
    match mechanism {
        SaslMechanism::Plain => "PLAIN"@,
        SaslMechanism::ScramSha256 => "SCRAM-SHA-256"@,
        SaslMechanism::ScramSha512 => "SCRAM-SHA-512"@,
    }
}

impl SaslMechanism {
    /// The name that the handshake uses.
    pub fn as_str(self) -> (name: &'static str)
        ensures
            name@ == mechanism_name(self),
    {
        match self {
            SaslMechanism::Plain => "PLAIN",
            SaslMechanism::ScramSha256 => "SCRAM-SHA-256",
            SaslMechanism::ScramSha512 => "SCRAM-SHA-512",
        }
    }

    /// Whether using this without TLS discloses the password itself.
    pub fn requires_encryption(self) -> (yes: bool)
        ensures
            yes == (self == SaslMechanism::Plain),
    {
        matches!(self, SaslMechanism::Plain)
    }
}

/// A username and password, and the mechanism to present them with.
pub struct Credentials {
    pub mechanism: SaslMechanism,
    pub username: String,
    pub password: String,
}

/// A text as `Debug` prints it: in quotation marks, special characters escaped.
pub uninterp spec fn quoted(text: Seq<char>) -> Seq<char>;

/// `<str as Debug>::fmt`: in quotation marks, special characters escaped. The result
/// is named, not described.
#[verifier::external_body]
fn quote(text: &str) -> (out: String)
    ensures
        out@ == quoted(text@),
{
    format!("{:?}", text)
}

impl Clone for Credentials {
    fn clone(&self) -> (copy: Self)
        ensures
            copy.mechanism == self.mechanism,
            copy.username@ == self.username@,
            copy.password@ == self.password@,
    {
        Credentials {
            mechanism: self.mechanism,
            username: self.username.clone(),
            password: self.password.clone(),
        }
    }
}

impl Credentials {
    fn of(mechanism: SaslMechanism, username: &str, password: &str) -> (credentials: Self)
        ensures
            credentials.mechanism == mechanism,
            credentials.username@ == username@,
            credentials.password@ == password@,
    {
        Credentials { mechanism, username: username.to_owned(), password: password.to_owned() }
    }

    /// PLAIN. **Sends the password in the clear**: pair it with TLS.
    pub fn plain(username: &str, password: &str) -> (credentials: Self)
        ensures
            credentials.mechanism == SaslMechanism::Plain,
            credentials.username@ == username@,
            credentials.password@ == password@,
    {
        Credentials::of(SaslMechanism::Plain, username, password)
    }

    /// SCRAM with SHA-256.
    pub fn scram_sha256(username: &str, password: &str) -> (credentials: Self)
        ensures
            credentials.mechanism == SaslMechanism::ScramSha256,
            credentials.username@ == username@,
            credentials.password@ == password@,
    {
        Credentials::of(SaslMechanism::ScramSha256, username, password)
    }

    /// SCRAM with SHA-512.
    pub fn scram_sha512(username: &str, password: &str) -> (credentials: Self)
        ensures
            credentials.mechanism == SaslMechanism::ScramSha512,
            credentials.username@ == username@,
            credentials.password@ == password@,
    {
        Credentials::of(SaslMechanism::ScramSha512, username, password)
    }

    /// What may be logged: everything but the password.
    pub open spec fn loggable(mechanism: SaslMechanism, username: Seq<char>) -> Seq<char> {
        "Credentials { mechanism: "@ + (match mechanism {
            SaslMechanism::Plain => "Plain"@,
            SaslMechanism::ScramSha256 => "ScramSha256"@,
            SaslMechanism::ScramSha512 => "ScramSha512"@,
        }) + ", username: "@ + quoted(username) + ", password: \"<redacted>\" }"@
    }

    /// The credentials for a log, **without the password**: the text depends on the
    /// mechanism and the username alone.
    pub fn debug_text(&self) -> (text: String)
        ensures
            text@ == Credentials::loggable(self.mechanism, self.username@),
    {
        let mut out: String = "Credentials { mechanism: ".to_owned();
        out.append(
            match self.mechanism {
                SaslMechanism::Plain => "Plain",
                SaslMechanism::ScramSha256 => "ScramSha256",
                SaslMechanism::ScramSha512 => "ScramSha512",
            },
        );
        out.append(", username: ");
        let name = quote(self.username.as_str());
        out.append(name.as_str());
        out.append(", password: \"<redacted>\" }");
        out
    }
}

/// What went wrong during authentication.
#[derive(Debug)]
pub enum SaslError {
    /// The broker rejected the credentials.
    Rejected,
    /// The broker's message makes no sense.
    Malformed(String),
    /// The peer does not know the password.
    ServerSignature,
}

/// What a [`SaslError`] stands for.
pub ghost enum Fault {
    Rejected,
    Malformed(Seq<char>),
    ServerSignature,
}

impl View for SaslError {
    type V = Fault;

    open spec fn view(&self) -> Fault {
        match self {
            SaslError::Rejected => Fault::Rejected,
            SaslError::Malformed(text) => Fault::Malformed(text@),
            SaslError::ServerSignature => Fault::ServerSignature,
        }
    }
}

impl Fault {
    /// The error in words.
    pub open spec fn words(self) -> Seq<char> {
        match self {
            Fault::Rejected => "the broker rejected the credentials"@,
            Fault::Malformed(text) => "the broker's SASL message was malformed: "@ + text,
            Fault::ServerSignature =>
                "the server's signature did not verify — the peer does not know the password"@,
        }
    }
}

impl SaslError {
    /// The error in words.
    pub fn message(&self) -> (message: String)
        ensures
            message@ == self@.words(),
    {
        match self {
            SaslError::Rejected => "the broker rejected the credentials".to_owned(),
            SaslError::Malformed(text) => text::joined(
                "the broker's SASL message was malformed: ",
                text.as_str(),
            ),
            SaslError::ServerSignature =>
                "the server's signature did not verify — the peer does not know the password".to_owned(),
        }
    }
}

/// PLAIN's single message: an empty authorization id, the username and the password,
/// with a zero byte between them.
pub fn plain_message(credentials: &Credentials) -> (message: Vec<u8>)
    ensures
        message@ == seq![0u8] + names::utf8(credentials.username@) + seq![0u8] + names::utf8(
            credentials.password@,
        ),
{
    let mut out: Vec<u8> = Vec::new();
    out.push(0);
    out.extend_from_slice(credentials.username.as_str().as_bytes());
    out.push(0);
    out.extend_from_slice(credentials.password.as_str().as_bytes());
    assert(out@ =~= seq![0u8] + names::utf8(credentials.username@) + seq![0u8] + names::utf8(
        credentials.password@,
    ));
    out
}

/// The HMAC-SHA-256 of some data under a key.
pub uninterp spec fn hmac_sha256_of(key: Seq<u8>, data: Seq<u8>) -> Seq<u8>;

/// The HMAC-SHA-512 of some data under a key.
pub uninterp spec fn hmac_sha512_of(key: Seq<u8>, data: Seq<u8>) -> Seq<u8>;

/// The SHA-256 digest of some data.
pub uninterp spec fn sha256_of(data: Seq<u8>) -> Seq<u8>;

/// The SHA-512 digest of some data.
pub uninterp spec fn sha512_of(data: Seq<u8>) -> Seq<u8>;

/// `hmac::Hmac<sha2::Sha256>`, keyed, updated once and finalized. It takes keys of any
/// length. The result is named; it is 32 bytes long.
#[verifier::external_body]
fn hmac_sha256(key: &[u8], data: &[u8]) -> (out: Vec<u8>)
    ensures
        out@ == hmac_sha256_of(key@, data@),
        out@.len() == 32,
{
    let mut mac: hmac::Hmac<sha2::Sha256> = hmac::Mac::new_from_slice(key).expect("any key");
    hmac::Mac::update(&mut mac, data);
    hmac::Mac::finalize(mac).into_bytes().to_vec()
}

/// `hmac::Hmac<sha2::Sha512>`, keyed, updated once and finalized. It takes keys of any
/// length. The result is named; it is 64 bytes long.
#[verifier::external_body]
fn hmac_sha512(key: &[u8], data: &[u8]) -> (out: Vec<u8>)
    ensures
        out@ == hmac_sha512_of(key@, data@),
        out@.len() == 64,
{
    let mut mac: hmac::Hmac<sha2::Sha512> = hmac::Mac::new_from_slice(key).expect("any key");
    hmac::Mac::update(&mut mac, data);
    hmac::Mac::finalize(mac).into_bytes().to_vec()
}

/// `sha2::Sha256::digest`. The result is named; it is 32 bytes long.
#[verifier::external_body]
fn sha256(data: &[u8]) -> (out: Vec<u8>)
    ensures
        out@ == sha256_of(data@),
        out@.len() == 32,
{
    <sha2::Sha256 as sha2::Digest>::digest(data).to_vec()
}

/// `sha2::Sha512::digest`. The result is named; it is 64 bytes long.
#[verifier::external_body]
fn sha512(data: &[u8]) -> (out: Vec<u8>)
    ensures
        out@ == sha512_of(data@),
        out@.len() == 64,
{
    <sha2::Sha512 as sha2::Digest>::digest(data).to_vec()
}

/// How long the mechanism's hash is.
pub open spec fn hash_len(mechanism: SaslMechanism) -> nat {
    if mechanism == SaslMechanism::ScramSha512 {
        64
    } else {
        32
    }
}

/// The HMAC with the mechanism's hash.
pub open spec fn hmac_of(mechanism: SaslMechanism, key: Seq<u8>, data: Seq<u8>) -> Seq<u8> {
    if mechanism == SaslMechanism::ScramSha512 {
        hmac_sha512_of(key, data)
    } else {
        hmac_sha256_of(key, data)
    }
}

/// The digest with the mechanism's hash.
pub open spec fn hash_of(mechanism: SaslMechanism, data: Seq<u8>) -> Seq<u8> {
    if mechanism == SaslMechanism::ScramSha512 {
        sha512_of(data)
    } else {
        sha256_of(data)
    }
}

/// The HMAC with the mechanism's hash: SHA-512 for the mechanism of that name,
/// SHA-256 otherwise.
pub fn hmac(mechanism: SaslMechanism, key: &[u8], data: &[u8]) -> (out: Vec<u8>)
    ensures
        out@ == hmac_of(mechanism, key@, data@),
        out@.len() == hash_len(mechanism),
{
    match mechanism {
        SaslMechanism::ScramSha512 => hmac_sha512(key, data),
        _ => hmac_sha256(key, data),
    }
}

/// The digest with the mechanism's hash.
pub fn hash(mechanism: SaslMechanism, data: &[u8]) -> (out: Vec<u8>)
    ensures
        out@ == hash_of(mechanism, data@),
        out@.len() == hash_len(mechanism),
{
    match mechanism {
        SaslMechanism::ScramSha512 => sha512(data),
        _ => sha256(data),
    }
}

/// Two byte strings combined by exclusive or, as far as both go.
pub open spec fn xored(a: Seq<u8>, b: Seq<u8>) -> Seq<u8> {
    Seq::new(
        if a.len() < b.len() {
            a.len()
        } else {
            b.len()
        },
        |i: int| a[i] ^ b[i],
    )
}

/// Two byte strings combined by exclusive or, as far as both go.
pub fn xor(a: &[u8], b: &[u8]) -> (out: Vec<u8>)
    ensures
        out@ == xored(a@, b@),
{
    let mut out: Vec<u8> = Vec::new();
    let mut i: usize = 0;
    while i < a.len() && i < b.len()
        invariant
            i <= a@.len(),
            i <= b@.len(),
            out@.len() == i,
            forall|j: int| 0 <= j < i ==> (#[trigger] out@[j]) == a@[j] ^ b@[j],
        decreases a@.len() - i,
    {
        out.push(a[i] ^ b[i]);
        i = i + 1;
    }
    assert(out@ =~= xored(a@, b@));
    out
}

/// The `n`th block of the key derivation, `n` being at least 1: the HMAC of the salt
/// and a block number, then of the block before.
pub open spec fn hi_block(
    mechanism: SaslMechanism,
    password: Seq<u8>,
    salt: Seq<u8>,
    n: nat,
) -> Seq<u8>
    decreases n,
{
    if n <= 1 {
        hmac_of(mechanism, password, salt + seq![0u8, 0, 0, 1])
    } else {
        hmac_of(mechanism, password, hi_block(mechanism, password, salt, (n - 1) as nat))
    }
}

/// The key derived in `n` iterations: the blocks combined by exclusive or.
pub open spec fn hi_of(
    mechanism: SaslMechanism,
    password: Seq<u8>,
    salt: Seq<u8>,
    n: nat,
) -> Seq<u8>
    decreases n,
{
    if n <= 1 {
        hi_block(mechanism, password, salt, 1)
    } else {
        xored(
            hi_of(mechanism, password, salt, (n - 1) as nat),
            hi_block(mechanism, password, salt, n),
        )
    }
}

/// SCRAM's `Hi`: PBKDF2 with the mechanism's hash, one block of output.
pub fn hi(mechanism: SaslMechanism, password: &[u8], salt: &[u8], iterations: u32) -> (out: Vec<u8>)
    ensures
        out@ == hi_of(mechanism, password@, salt@, iterations as nat),
        out@.len() == hash_len(mechanism),
        iterations <= 1 ==> out@ == hmac_of(mechanism, password@, salt@ + seq![0u8, 0, 0, 1]),
{
    let mut block: Vec<u8> = Vec::new();
    block.extend_from_slice(salt);
    block.push(0);
    block.push(0);
    block.push(0);
    block.push(1);
    assert(block@ =~= salt@ + seq![0u8, 0, 0, 1]);
    let mut previous = hmac(mechanism, password, block.as_slice());
    let mut salted = previous.clone();
    assert(salted@ =~= previous@);
    let mut n: u32 = 1;
    while n < iterations
        invariant
            1 <= n,
            n <= iterations || n == 1,
            previous@ == hi_block(mechanism, password@, salt@, n as nat),
            previous@.len() == hash_len(mechanism),
            salted@ == hi_of(mechanism, password@, salt@, n as nat),
            salted@.len() == hash_len(mechanism),
        decreases iterations - n,
    {
        previous = hmac(mechanism, password, previous.as_slice());
        salted = xor(salted.as_slice(), previous.as_slice());
        n = n + 1;
    }
    salted
}

/// A username with the separators of SCRAM messages escaped.
pub open spec fn escaped(name: Seq<char>) -> Seq<char>
    decreases name.len(),
{
    if name.len() == 0 {
        Seq::empty()
    } else {
        escaped(name.drop_last()) + (if name.last() == '=' {
            seq!['=', '3', 'D']
        } else if name.last() == ',' {
            seq!['=', '2', 'C']
        } else {
            seq![name.last()]
        })
    }
}

/// Escapes `,` and `=` in a username, since both separate the fields of a message.
pub fn saslprep(username: &str) -> (out: String)
    ensures
        out@ == escaped(username@),
{
    let size: usize = username.unicode_len();
    let mut out: String = String::new();
    let mut i: usize = 0;
    assert(username@.take(0) =~= Seq::empty());
    while i < size
        invariant
            size == username@.len(),
            i <= size,
            out@ == escaped(username@.take(i as int)),
        decreases size - i,
    {
        let ghost before = out@;
        let c = username.get_char(i);
        proof {
            let longer = username@.take(i + 1);
            assert(longer.drop_last() =~= username@.take(i as int));
            assert(longer.last() == c);
        }
        if c == '=' {
            out.push('=');
            out.push('3');
            out.push('D');
            assert(out@ =~= before + seq!['=', '3', 'D']);
        } else if c == ',' {
            out.push('=');
            out.push('2');
            out.push('C');
            assert(out@ =~= before + seq!['=', '2', 'C']);
        } else {
            out.push(c);
            assert(out@ =~= before + seq![c]);
        }
        i = i + 1;
    }
    assert(username@.take(i as int) =~= username@);
    out
}

/// Where the part of a message that begins at `at` ends: at a comma or with the
/// message.
pub open spec fn part_end(message: Seq<char>, at: int) -> int
    decreases message.len() - at,
{
    if at >= message.len() || message[at] == ',' {
        at
    } else {
        part_end(message, at + 1)
    }
}

/// The value of the first part, from `at` on, that starts with the key and an equals
/// sign.
pub open spec fn field_from(message: Seq<char>, key: char, at: int) -> Option<Seq<char>>
    decreases message.len() - at,
{
    let end = part_end(message, at);
    if end >= at + 2 && message[at] == key && message[at + 1] == '=' {
        Some(message.subrange(at + 2, end))
    } else if at <= end < message.len() {
        field_from(message, key, end + 1)
    } else {
        None
    }
}

/// The value of a key in a message.
pub open spec fn field_of(message: Seq<char>, key: char) -> Option<Seq<char>> {
    field_from(message, key, 0)
}

/// The view of an optional text.
pub open spec fn optional_text(text: Option<&str>) -> Option<Seq<char>> {
    match text {
        Some(t) => Some(t@),
        None => None,
    }
}

/// Pulls `key=value` out of a comma-separated SCRAM message.
pub fn field<'a>(message: &'a str, key: char) -> (value: Option<&'a str>)
    ensures
        optional_text(value) == field_of(message@, key),
{
    let size: usize = message.unicode_len();
    let mut at: usize = 0;
    loop
        invariant
            size == message@.len(),
            at <= size,
            field_of(message@, key) == field_from(message@, key, at as int),
        decreases size - at,
    {
        let mut end: usize = at;
        while end < size && message.get_char(end) != ','
            invariant
                size == message@.len(),
                at <= end <= size,
                part_end(message@, at as int) == part_end(message@, end as int),
            decreases size - end,
        {
            end = end + 1;
        }
        assert(end == part_end(message@, at as int));
        if end - at >= 2 && message.get_char(at) == key && message.get_char(at + 1) == '=' {
            return Some(message.substring_char(at + 2, end));
        }
        if end == size {
            return None;
        }
        at = end + 1;
    }
}

/// What `std::str::from_utf8` says of bytes that are not UTF-8.
pub uninterp spec fn utf8_fault(bytes: Seq<u8>) -> Seq<char>;

/// `std::str::from_utf8`: the text that the bytes encode, or an error where they are
/// not UTF-8. What the error says is named, not described.
#[verifier::external_body]
fn decode_utf8(bytes: &[u8]) -> (text: Result<&str, String>)
    ensures
        match text {
            Ok(t) => vstd::utf8::valid_utf8(bytes@) && names::utf8(t@) == bytes@,
            Err(e) => !vstd::utf8::valid_utf8(bytes@) && e@ == utf8_fault(bytes@),
        },
{
    match std::str::from_utf8(bytes) {
        Ok(text) => Ok(text),
        Err(e) => Err(e.to_string()),
    }
}

/// The text that some bytes encode, or the fault of bytes that encode none.
pub open spec fn text_of(bytes: Seq<u8>) -> Result<Seq<char>, Fault> {
    if vstd::utf8::valid_utf8(bytes) {
        Ok(vstd::utf8::decode_utf8(bytes))
    } else {
        Err(Fault::Malformed(utf8_fault(bytes)))
    }
}

fn read_text(bytes: &[u8]) -> (text: Result<&str, SaslError>)
    ensures
        match text {
            Ok(t) => text_of(bytes@) == Ok::<Seq<char>, Fault>(t@),
            Err(e) => text_of(bytes@) == Err::<Seq<char>, Fault>(e@),
        },
{
    match decode_utf8(bytes) {
        Ok(t) => {
            proof {
                vstd::utf8::encode_utf8_decode_utf8(t@);
            }
            Ok(t)
        },
        Err(e) => Err(SaslError::Malformed(e)),
    }
}

/// Whether a text starts with another.
pub open spec fn extends(text: Seq<char>, start: Seq<char>) -> bool {
    start.len() <= text.len() && text.subrange(0, start.len() as int) == start
}

/// Whether a text starts with another.
pub fn starts_with(text: &str, start: &str) -> (yes: bool)
    ensures
        yes == extends(text@, start@),
{
    let size: usize = start.unicode_len();
    if size > text.unicode_len() {
        return false;
    }
    names::same(text.substring_char(0, size), start)
}

/// What the server's first message says.
pub struct ServerFirst<'a> {
    /// Both nonces, ours first.
    pub nonce: &'a str,
    pub salt: Vec<u8>,
    pub iterations: u32,
}

/// What a [`ServerFirst`] stands for.
pub ghost struct Challenge {
    pub nonce: Seq<char>,
    pub salt: Seq<u8>,
    pub iterations: u32,
}

impl<'a> View for ServerFirst<'a> {
    type V = Challenge;

    open spec fn view(&self) -> Challenge {
        Challenge { nonce: self.nonce@, salt: self.salt@, iterations: self.iterations }
    }
}

/// The challenge in the server's first message: nonce, salt and iteration count must
/// be there, the count a number, the salt base64, and the nonce must extend ours.
pub open spec fn challenge_of(message: Seq<char>, client_nonce: Seq<char>) -> Result<
    Challenge,
    Fault,
> {
    let nonce = field_of(message, 'r');
    let salt = field_of(message, 's');
    let iterations = field_of(message, 'i');
    if nonce is None || salt is None || iterations is None || text::parsed_u32(
        iterations.unwrap(),
    ) is None {
        Err(Fault::Malformed(message))
    } else if !extends(nonce.unwrap(), client_nonce) {
        Err(
            Fault::Malformed(
                "server nonce "@ + nonce.unwrap() + " does not extend the client nonce"@,
            ),
        )
    } else if base64::decoded(salt.unwrap()) is None {
        Err(Fault::Malformed(message))
    } else {
        Ok(
            Challenge {
                nonce: nonce.unwrap(),
                salt: base64::decoded(salt.unwrap()).unwrap(),
                iterations: text::parsed_u32(iterations.unwrap()).unwrap(),
            },
        )
    }
}

/// Reads the server's first message. A server nonce that does not extend ours is
/// another exchange being replayed at us.
pub fn read_challenge<'a>(message: &'a str, client_nonce: &str) -> (challenge: Result<
    ServerFirst<'a>,
    SaslError,
>)
    ensures
        match challenge {
            Ok(c) => challenge_of(message@, client_nonce@) == Ok::<Challenge, Fault>(c@),
            Err(e) => challenge_of(message@, client_nonce@) == Err::<Challenge, Fault>(e@),
        },
{
    let nonce = match field(message, 'r') {
        Some(value) => value,
        None => return Err(SaslError::Malformed(message.to_owned())),
    };
    let salt_text = match field(message, 's') {
        Some(value) => value,
        None => return Err(SaslError::Malformed(message.to_owned())),
    };
    let iterations: u32 = match field(message, 'i') {
        Some(value) => match text::parse_u32(value) {
            Some(n) => n,
            None => return Err(SaslError::Malformed(message.to_owned())),
        },
        None => return Err(SaslError::Malformed(message.to_owned())),
    };
    if !starts_with(nonce, client_nonce) {
        let mut fault: String = text::joined("server nonce ", nonce);
        fault.append(" does not extend the client nonce");
        return Err(SaslError::Malformed(fault));
    }
    match base64::base64_decode(salt_text) {
        Some(salt) => Ok(ServerFirst { nonce, salt, iterations }),
        None => Err(SaslError::Malformed(message.to_owned())),
    }
}

/// A SCRAM exchange in progress.
///
/// Three messages, then the server's final one, **which must be verified**: that is
/// what proves that the peer knows the password.
pub struct ScramExchange {
    mechanism: SaslMechanism,
    password: String,
    client_nonce: String,
    client_first_bare: String,
    server_signature: Vec<u8>,
}

/// What a [`ScramExchange`] stands for.
pub ghost struct Exchange {
    pub mechanism: SaslMechanism,
    pub password: Seq<char>,
    pub nonce: Seq<char>,
    /// The client's first message without its header.
    pub bare: Seq<char>,
    /// The signature that the server owes.
    pub signature: Seq<u8>,
}

impl View for ScramExchange {
    type V = Exchange;

    closed spec fn view(&self) -> Exchange {
        Exchange {
            mechanism: self.mechanism,
            password: self.password@,
            nonce: self.client_nonce@,
            bare: self.client_first_bare@,
            signature: self.server_signature@,
        }
    }
}

/// The client's first message without its header.
pub open spec fn first_bare(username: Seq<char>, nonce: Seq<char>) -> Seq<char> {
    "n="@ + escaped(username) + ",r="@ + nonce
}

/// The client's final message without its proof.
pub open spec fn final_bare(nonce: Seq<char>) -> Seq<char> {
    "c=biws,r="@ + nonce
}

/// What both sides sign: the three messages so far.
pub open spec fn auth_message(bare: Seq<char>, server_first: Seq<char>, nonce: Seq<char>) -> Seq<
    char,
> {
    bare + ","@ + server_first + ","@ + final_bare(nonce)
}

impl Exchange {
    /// The key derived from the password.
    pub open spec fn salted(self, c: Challenge) -> Seq<u8> {
        hi_of(self.mechanism, names::utf8(self.password), c.salt, c.iterations as nat)
    }

    /// What proves to the server that we know the password.
    pub open spec fn proof_of(self, server_first: Seq<char>, c: Challenge) -> Seq<u8> {
        let client_key = hmac_of(self.mechanism, self.salted(c), names::utf8("Client Key"@));
        let stored = hash_of(self.mechanism, client_key);
        let message = names::utf8(auth_message(self.bare, server_first, c.nonce));
        xored(client_key, hmac_of(self.mechanism, stored, message))
    }

    /// What proves to us that the server knows the password.
    pub open spec fn signature_of(self, server_first: Seq<char>, c: Challenge) -> Seq<u8> {
        let server_key = hmac_of(self.mechanism, self.salted(c), names::utf8("Server Key"@));
        let message = names::utf8(auth_message(self.bare, server_first, c.nonce));
        hmac_of(self.mechanism, server_key, message)
    }

    /// The challenge in the bytes of the server's first message.
    pub open spec fn challenged(self, server_first: Seq<u8>) -> Result<Challenge, Fault> {
        match text_of(server_first) {
            Err(e) => Err(e),
            Ok(text) => challenge_of(text, self.nonce),
        }
    }

    /// What the server's final message amounts to.
    pub open spec fn verdict(self, server_final: Seq<u8>) -> Result<(), Fault> {
        match text_of(server_final) {
            Err(e) => Err(e),
            Ok(text) => match field_of(text, 'e') {
                Some(reason) => Err(Fault::Malformed(reason)),
                None => match field_of(text, 'v') {
                    None => Err(Fault::Malformed(text)),
                    Some(verifier) => if verifier == base64::encoded(self.signature) {
                        Ok(())
                    } else {
                        Err(Fault::ServerSignature)
                    },
                },
            },
        }
    }
}

/// The client's final message, from its bare form and the two values that make the
/// proof.
pub fn final_message(bare: &str, client_key: &[u8], client_signature: &[u8]) -> (message: Vec<u8>)
    ensures
        message@ == names::utf8(
            bare@ + ",p="@ + base64::encoded(xored(client_key@, client_signature@)),
        ),
{
    let proved = xor(client_key, client_signature);
    let mut out: String = text::joined(bare, ",p=");
    let encoded = base64::base64_encode(proved.as_slice());
    out.append(encoded.as_str());
    out.as_str().as_bytes_vec()
}

impl ScramExchange {
    /// Begins, with the client's first message: no channel binding, no authorization
    /// id.
    pub fn start(credentials: &Credentials, nonce: &str) -> (started: (Self, Vec<u8>))
        ensures
            started.0@ == (Exchange {
                mechanism: credentials.mechanism,
                password: credentials.password@,
                nonce: nonce@,
                bare: first_bare(credentials.username@, nonce@),
                signature: Seq::empty(),
            }),
            started.1@ == names::utf8("n,,"@ + first_bare(credentials.username@, nonce@)),
    {
        let name = saslprep(credentials.username.as_str());
        let mut bare: String = text::joined("n=", name.as_str());
        bare.append(",r=");
        bare.append(nonce);
        let message = text::joined("n,,", bare.as_str());
        let exchange = ScramExchange {
            mechanism: credentials.mechanism,
            password: credentials.password.clone(),
            client_nonce: nonce.to_owned(),
            client_first_bare: bare,
            server_signature: Vec::new(),
        };
        assert(exchange@.signature =~= Seq::empty());
        (exchange, message.as_str().as_bytes_vec())
    }

    /// Takes the server's first message and makes the client's final one.
    pub fn client_final(&mut self, server_first: &[u8]) -> (message: Result<Vec<u8>, SaslError>)
        ensures
            match old(self)@.challenged(server_first@) {
                Err(e) => message is Err && message->Err_0@ == e && final(self)@ == old(self)@,
                Ok(c) => {
                    let text = text_of(server_first@)->Ok_0;
                    &&& message is Ok
                    &&& message->Ok_0@ == names::utf8(
                        final_bare(c.nonce) + ",p="@ + base64::encoded(
                            old(self)@.proof_of(text, c),
                        ),
                    )
                    &&& final(self)@ == (Exchange {
                        signature: old(self)@.signature_of(text, c),
                        ..old(self)@
                    })
                },
            },
    {
        let text = match read_text(server_first) {
            Ok(text) => text,
            Err(e) => return Err(e),
        };
        let challenge = match read_challenge(text, self.client_nonce.as_str()) {
            Ok(challenge) => challenge,
            Err(e) => return Err(e),
        };
        let password = self.password.as_str().as_bytes();
        let salted = hi(
            self.mechanism,
            password,
            challenge.salt.as_slice(),
            challenge.iterations,
        );
        let client_key = hmac(self.mechanism, salted.as_slice(), "Client Key".as_bytes());
        let stored = hash(self.mechanism, client_key.as_slice());
        let bare = text::joined("c=biws,r=", challenge.nonce);
        let mut signed: String = text::joined(self.client_first_bare.as_str(), ",");
        signed.append(text);
        signed.append(",");
        signed.append(bare.as_str());
        let signature = hmac(self.mechanism, stored.as_slice(), signed.as_str().as_bytes());
        let server_key = hmac(self.mechanism, salted.as_slice(), "Server Key".as_bytes());
        self.server_signature = hmac(
            self.mechanism,
            server_key.as_slice(),
            signed.as_str().as_bytes(),
        );
        Ok(final_message(bare.as_str(), client_key.as_slice(), signature.as_slice()))
    }

    /// Verifies the server's final message. **Not optional**: without it, a peer that
    /// never knew the password can complete the exchange.
    pub fn verify(&self, server_final: &[u8]) -> (result: Result<(), SaslError>)
        ensures
            match result {
                Ok(()) => self@.verdict(server_final@) == Ok::<(), Fault>(()),
                Err(e) => self@.verdict(server_final@) == Err::<(), Fault>(e@),
            },
    {
        let text = match read_text(server_final) {
            Ok(text) => text,
            Err(e) => return Err(e),
        };
        match field(text, 'e') {
            Some(reason) => return Err(SaslError::Malformed(reason.to_owned())),
            None => {},
        }
        match field(text, 'v') {
            None => Err(SaslError::Malformed(text.to_owned())),
            Some(verifier) => {
                let expected = base64::base64_encode(self.server_signature.as_slice());
                if names::same(verifier, expected.as_str()) {
                    Ok(())
                } else {
                    Err(SaslError::ServerSignature)
                }
            },
        }
    }
}

/// Whether a text holds no comma.
pub open spec fn comma_free(text: Seq<char>) -> bool {
    forall|i: int| 0 <= i < text.len() ==> (#[trigger] text[i]) != ','
}

proof fn lemma_part_end(message: Seq<char>, at: int, end: int)
    requires
        0 <= at <= end <= message.len(),
        forall|i: int| at <= i < end ==> (#[trigger] message[i]) != ',',
        end == message.len() || message[end] == ',',
    ensures
        part_end(message, at) == end,
    decreases end - at,
{
    if at < end {
        lemma_part_end(message, at + 1, end);
    }
}

proof fn lemma_escaped(name: Seq<char>)
    ensures
        comma_free(escaped(name)),
    decreases name.len(),
{
    if name.len() > 0 {
        lemma_escaped(name.drop_last());
    }
}

/// A username cannot change what a message means, whatever it holds: the server finds
/// the escaped username and our nonce where they belong.
pub proof fn law_a_username_cannot_forge_a_field(username: Seq<char>, nonce: Seq<char>)
    requires
        comma_free(nonce),
    ensures
        field_of(first_bare(username, nonce), 'n') == Some(escaped(username)),
        field_of(first_bare(username, nonce), 'r') == Some(nonce),
{
    let name = escaped(username);
    lemma_escaped(username);
    reveal_strlit("n=");
    reveal_strlit(",r=");
    let message = first_bare(username, nonce);
    let comma = 2 + name.len() as int;
    assert(message[0] == 'n' && message[1] == '=');
    assert(message[comma] == ',' && message[comma + 1] == 'r' && message[comma + 2] == '=');
    assert forall|i: int| 2 <= i < comma implies (#[trigger] message[i]) != ',' by {
        assert(message[i] == name[i - 2]);
    }
    assert forall|i: int| comma + 3 <= i < message.len() implies (#[trigger] message[i])
        != ',' by {
        assert(message[i] == nonce[i - comma - 3]);
    }
    lemma_part_end(message, 0, comma);
    lemma_part_end(message, comma + 1, message.len() as int);
    assert(message.subrange(2, comma) =~= name);
    assert(message.subrange(comma + 3, message.len() as int) =~= nonce);
    assert(field_from(message, 'r', comma + 1) == Some(nonce));
}

proof fn lemma_encoded_comma_free(data: Seq<u8>, at: int)
    requires
        0 <= at,
    ensures
        comma_free(base64::encoded_from(data, at)),
    decreases
            (if at < data.len() {
                data.len() - at
            } else {
                0
            }),
{
    if at < data.len() {
        lemma_encoded_comma_free(data, at + 3);
        let four = base64::group_text(data, at);
        let n = base64::group(data, at);
        assert(0 <= n < 0x100_0000);
        assert(comma_free(four)) by {
            assert(0 <= n / 0x4_0000 < 64);
            assert(0 <= n / 0x1000 % 64 < 64);
            assert(0 <= n / 64 % 64 < 64);
        }
        let after = base64::encoded_from(data, at + 3);
        assert forall|i: int| 0 <= i < (four + after).len() implies (#[trigger] (four + after)[i])
            != ',' by {
            if i < 4 {
                assert((four + after)[i] == four[i]);
            } else {
                assert((four + after)[i] == after[i - 4]);
            }
        }
    }
}

/// The signature of a server that knows the password verifies, and no other one does.
pub proof fn law_exactly_the_right_signature_verifies(e: Exchange, signature: Seq<u8>)
    ensures
        ({
            let message = names::utf8("v="@ + base64::encoded(signature));
            e.verdict(message) == if signature == e.signature {
                Ok::<(), Fault>(())
            } else {
                Err(Fault::ServerSignature)
            }
        }),
{
    let encoded = base64::encoded(signature);
    let text = "v="@ + encoded;
    reveal_strlit("v=");
    lemma_encoded_comma_free(signature, 0);
    vstd::utf8::encode_utf8_decode_utf8(text);
    vstd::utf8::encode_utf8_valid_utf8(text);
    assert(text[0] == 'v' && text[1] == '=');
    assert forall|i: int| 0 <= i < text.len() implies (#[trigger] text[i]) != ',' by {
        if i >= 2 {
            assert(text[i] == encoded[i - 2]);
        }
    }
    lemma_part_end(text, 0, text.len() as int);
    assert(field_of(text, 'e') is None);
    assert(text.subrange(2, text.len() as int) =~= encoded);
    assert(field_of(text, 'v') == Some(encoded));
    base64::law_base64_round_trips(signature);
    base64::law_base64_round_trips(e.signature);
}

/// What may be logged does not depend on the password.
pub proof fn law_the_password_is_never_logged(one: Credentials, other: Credentials)
    requires
        one.mechanism == other.mechanism,
        one.username@ == other.username@,
    ensures
        Credentials::loggable(one.mechanism, one.username@) == Credentials::loggable(
            other.mechanism,
            other.username@,
        ),
{
}

/// The key that one iteration derives, for every mechanism alike: the HMAC, under the
/// password, of the salt followed by the block number 1 in four bytes, the most
/// significant first. No iterations count as one.
pub proof fn law_one_iteration_signs_block_one(
    mechanism: SaslMechanism,
    password: Seq<u8>,
    salt: Seq<u8>,
    signed: Seq<u8>,
)
    requires
        signed.len() == salt.len() + 4,
        forall|i: int| 0 <= i < salt.len() ==> (#[trigger] signed[i]) == salt[i],
        ({
            let at = salt.len() as int;
            signed[at] * 0x100_0000 + signed[at + 1] * 0x1_0000 + signed[at + 2] * 0x100
                + signed[at + 3] == 1
        }),
    ensures
        hi_of(mechanism, password, salt, 1) == hmac_of(mechanism, password, signed),
        hi_of(mechanism, password, salt, 0) == hmac_of(mechanism, password, signed),
        mechanism == SaslMechanism::ScramSha512 ==> hi_of(mechanism, password, salt, 1)
            == hmac_sha512_of(password, signed),
        mechanism == SaslMechanism::ScramSha256 ==> hi_of(mechanism, password, salt, 1)
            == hmac_sha256_of(password, signed),
{
    assert(signed =~= salt + seq![0u8, 0, 0, 1]);
}

/// Each further iteration signs the block before it, and the key is all the blocks
/// combined by exclusive or, whatever the mechanism.
pub proof fn law_iterations_chain(
    mechanism: SaslMechanism,
    password: Seq<u8>,
    salt: Seq<u8>,
    blocks: Seq<Seq<u8>>,
)
    requires
        blocks.len() > 0,
        blocks[0] == hmac_of(mechanism, password, salt + seq![0u8, 0, 0, 1]),
        forall|i: int|
            0 < i < blocks.len() ==> (#[trigger] blocks[i]) == hmac_of(
                mechanism,
                password,
                blocks[i - 1],
            ),
    ensures
        hi_of(mechanism, password, salt, blocks.len()) == blocks.drop_first().fold_left(
            blocks[0],
            |key: Seq<u8>, block: Seq<u8>| xored(key, block),
        ),
        hi_block(mechanism, password, salt, blocks.len()) == blocks.last(),
    decreases blocks.len(),
{
    let combine = |key: Seq<u8>, block: Seq<u8>| xored(key, block);
    if blocks.len() > 1 {
        let earlier = blocks.drop_last();
        law_iterations_chain(mechanism, password, salt, earlier);
        let rest = blocks.drop_first();
        assert(rest.drop_last() =~= earlier.drop_first());
        assert(rest.last() == blocks.last());
        assert(blocks[blocks.len() - 1] == hmac_of(mechanism, password, earlier.last()));
    }
}

proof fn lemma_xor_twice(a: Seq<u8>, b: Seq<u8>)
    requires
        a.len() == b.len(),
    ensures
        xored(xored(a, b), b) == a,
{
    assert forall|i: int| 0 <= i < a.len() implies (#[trigger] xored(xored(a, b), b)[i])
        == a[i] by {
        let x = a[i];
        let y = b[i];
        assert((x ^ y) ^ y == x) by (bit_vector);
    }
    assert(xored(xored(a, b), b) =~= a);
}

/// A server that stored nothing but the digest of the client's key can tell that the
/// client knows the password: taking the client's signature off the proof gives back the
/// client's key, whose digest is the stored one. What is signed is the client's first
/// message without its header, the server's first message and the client's last one
/// without its proof. That holds for every mechanism alike.
pub proof fn law_a_server_can_check_the_proof(
    e: Exchange,
    server_first: Seq<char>,
    c: Challenge,
    key: Seq<u8>,
    signature: Seq<u8>,
)
    requires
        key == hmac_of(
            e.mechanism,
            hi_of(e.mechanism, names::utf8(e.password), c.salt, c.iterations as nat),
            names::utf8("Client Key"@),
        ),
        signature == hmac_of(
            e.mechanism,
            hash_of(e.mechanism, key),
            names::utf8(e.bare + ","@ + server_first + ","@ + ("c=biws,r="@ + c.nonce)),
        ),
        key.len() == signature.len(),
    ensures
        xored(e.proof_of(server_first, c), signature) == key,
        hash_of(e.mechanism, xored(e.proof_of(server_first, c), signature)) == hash_of(
            e.mechanism,
            key,
        ),
{
    lemma_xor_twice(key, signature);
}

/// What a server owes in return: the same messages, signed with the server's key, which
/// comes from the same derivation under another name.
pub proof fn law_the_server_signs_the_same_messages(
    e: Exchange,
    server_first: Seq<char>,
    c: Challenge,
    key: Seq<u8>,
)
    requires
        key == hmac_of(
            e.mechanism,
            hi_of(e.mechanism, names::utf8(e.password), c.salt, c.iterations as nat),
            names::utf8("Server Key"@),
        ),
    ensures
        e.signature_of(server_first, c) == hmac_of(
            e.mechanism,
            key,
            names::utf8(e.bare + ","@ + server_first + ","@ + ("c=biws,r="@ + c.nonce)),
        ),
{
}

/// What a server finds in the client's last message: the channel binding of a client
/// that has none, the nonce of both, and the proof.
pub proof fn law_the_last_message_carries_the_proof(nonce: Seq<char>, proved: Seq<u8>)
    requires
        comma_free(nonce),
    ensures
        ({
            let message = final_bare(nonce) + ",p="@ + base64::encoded(proved);
            &&& field_of(message, 'c') == Some("biws"@)
            &&& field_of(message, 'r') == Some(nonce)
            &&& field_of(message, 'p') == Some(base64::encoded(proved))
        }),
{
    let encoded = base64::encoded(proved);
    let message = final_bare(nonce) + ",p="@ + encoded;
    reveal_strlit("c=biws,r=");
    reveal_strlit("biws");
    reveal_strlit(",p=");
    lemma_encoded_comma_free(proved, 0);
    let comma = 9 + nonce.len() as int;
    let size = message.len() as int;
    assert(message[6] == ',' && message[7] == 'r' && message[8] == '=');
    assert(message[comma] == ',' && message[comma + 1] == 'p' && message[comma + 2] == '=');
    assert forall|i: int| 9 <= i < comma implies (#[trigger] message[i]) != ',' by {
        assert(message[i] == nonce[i - 9]);
    }
    assert forall|i: int| comma + 3 <= i < size implies (#[trigger] message[i]) != ',' by {
        assert(message[i] == encoded[i - comma - 3]);
    }
    lemma_part_end(message, 0, 6);
    lemma_part_end(message, 7, comma);
    lemma_part_end(message, comma + 1, size);
    assert(message.subrange(2, 6) =~= "biws"@);
    assert(message.subrange(9, comma) =~= nonce);
    assert(message.subrange(comma + 3, size) =~= encoded);
    assert(field_from(message, 'r', 7) == Some(nonce));
    assert(field_from(message, 'p', comma + 1) == Some(encoded));
    assert(field_from(message, 'p', 7) == Some(encoded));
}

/// What a server challenges with is what the client reads: its nonce, the salt and the number
/// of iterations, provided that the nonce begins with the client's own. A nonce that does not
/// is refused: it would be another exchange being replayed.
pub proof fn law_a_challenge_is_read_as_it_was_made(
    client_nonce: Seq<char>,
    nonce: Seq<char>,
    salt: Seq<u8>,
    iterations: u32,
)
    requires
        comma_free(nonce),
    ensures
        ({
            let message = "r="@ + nonce + ",s="@ + base64::encoded(salt) + ",i="@ + text::digits(
                iterations as nat,
            );
            let ours = client_nonce.len() <= nonce.len() && forall|i: int|
                0 <= i < client_nonce.len() ==> (#[trigger] nonce[i]) == client_nonce[i];
            &&& ours ==> challenge_of(message, client_nonce) == Ok::<Challenge, Fault>(
                Challenge { nonce, salt, iterations },
            )
            &&& !ours ==> challenge_of(message, client_nonce) == Err::<Challenge, Fault>(
                Fault::Malformed(
                    "server nonce "@ + nonce + " does not extend the client nonce"@,
                ),
            )
        }),
{
    let encoded = base64::encoded(salt);
    let number = text::digits(iterations as nat);
    let message = "r="@ + nonce + ",s="@ + encoded + ",i="@ + number;
    reveal_strlit("r=");
    reveal_strlit(",s=");
    reveal_strlit(",i=");
    lemma_encoded_comma_free(salt, 0);
    text::law_a_number_reads_back(iterations as nat, u32::MAX as nat);
    base64::law_base64_round_trips(salt);
    let a = 2 + nonce.len() as int;
    let b = a + 3 + encoded.len() as int;
    let size = message.len() as int;
    assert(message[0] == 'r' && message[1] == '=');
    assert(message[a] == ',' && message[a + 1] == 's' && message[a + 2] == '=');
    assert(message[b] == ',' && message[b + 1] == 'i' && message[b + 2] == '=');
    assert forall|i: int| 2 <= i < a implies (#[trigger] message[i]) != ',' by {
        assert(message[i] == nonce[i - 2]);
    }
    assert forall|i: int| a + 3 <= i < b implies (#[trigger] message[i]) != ',' by {
        assert(message[i] == encoded[i - a - 3]);
    }
    assert forall|i: int| b + 3 <= i < size implies (#[trigger] message[i]) != ',' by {
        assert(message[i] == number[i - b - 3]);
    }
    lemma_part_end(message, 0, a);
    lemma_part_end(message, a + 1, b);
    lemma_part_end(message, b + 1, size);
    assert(message.subrange(2, a) =~= nonce);
    assert(message.subrange(a + 3, b) =~= encoded);
    assert(message.subrange(b + 3, size) =~= number);
    assert(field_of(message, 'r') == Some(nonce));
    assert(field_from(message, 's', a + 1) == Some(encoded));
    assert(field_of(message, 's') == Some(encoded));
    assert(field_from(message, 'i', b + 1) == Some(number));
    assert(field_from(message, 'i', a + 1) == Some(number));
    assert(field_of(message, 'i') == Some(number));
    let ours = client_nonce.len() <= nonce.len() && forall|i: int|
        0 <= i < client_nonce.len() ==> (#[trigger] nonce[i]) == client_nonce[i];
    let start = nonce.subrange(0, client_nonce.len() as int);
    if ours {
        assert(start =~= client_nonce);
    } else if client_nonce.len() <= nonce.len() {
        let i = choose|i: int|
            0 <= i < client_nonce.len() && (#[trigger] nonce[i]) != client_nonce[i];
        assert(start[i] == nonce[i]);
        assert(start != client_nonce);
    }
}

/// A server's last message that names an error is that error, whatever else it holds behind
/// it.
pub proof fn law_an_error_of_the_server_is_told(e: Exchange, reason: Seq<char>)
    requires
        comma_free(reason),
    ensures
        e.verdict(names::utf8("e="@ + reason)) == Err::<(), Fault>(Fault::Malformed(reason)),
{
    let text = "e="@ + reason;
    reveal_strlit("e=");
    vstd::utf8::encode_utf8_decode_utf8(text);
    vstd::utf8::encode_utf8_valid_utf8(text);
    assert(text[0] == 'e' && text[1] == '=');
    assert forall|i: int| 0 <= i < text.len() implies (#[trigger] text[i]) != ',' by {
        if i >= 2 {
            assert(text[i] == reason[i - 2]);
        }
    }
    lemma_part_end(text, 0, text.len() as int);
    assert(text.subrange(2, text.len() as int) =~= reason);
}

/// A username is escaped character by character: a comma is `=2C`, an equals sign `=3D`, and
/// everything else stays as it is.
pub proof fn law_a_username_is_escaped_character_by_character(name: Seq<char>, c: char)
    ensures
        escaped(Seq::empty()) == Seq::<char>::empty(),
        escaped(name.push(',')) == escaped(name) + "=2C"@,
        escaped(name.push('=')) == escaped(name) + "=3D"@,
        c != ',' && c != '=' ==> escaped(name.push(c)) == escaped(name).push(c),
{
    reveal_strlit("=2C");
    reveal_strlit("=3D");
    assert("=2C"@ =~= seq!['=', '2', 'C']);
    assert("=3D"@ =~= seq!['=', '3', 'D']);
    assert(name.push(',').drop_last() =~= name);
    assert(name.push('=').drop_last() =~= name);
    assert(name.push(c).drop_last() =~= name);
    assert(escaped(name) + seq![c] =~= escaped(name).push(c));
}

/// The names by which brokers know the mechanisms.
pub proof fn law_mechanisms_go_by_their_names()
    ensures
        mechanism_name(SaslMechanism::Plain) == "PLAIN"@,
        mechanism_name(SaslMechanism::ScramSha256) == "SCRAM-SHA-256"@,
        mechanism_name(SaslMechanism::ScramSha512) == "SCRAM-SHA-512"@,
{
}

/// Which hash a mechanism works with: SHA-512 is that of the mechanism of its name, SHA-256
/// that of the other, for digests and for signatures alike.
pub proof fn law_each_mechanism_has_its_own_hash(key: Seq<u8>, data: Seq<u8>)
    ensures
        hash_of(SaslMechanism::ScramSha512, data) == sha512_of(data),
        hash_of(SaslMechanism::ScramSha256, data) == sha256_of(data),
        hmac_of(SaslMechanism::ScramSha512, key, data) == hmac_sha512_of(key, data),
        hmac_of(SaslMechanism::ScramSha256, key, data) == hmac_sha256_of(key, data),
        hash_len(SaslMechanism::ScramSha512) == 64,
        hash_len(SaslMechanism::ScramSha256) == 32,
{
}

} // verus!
