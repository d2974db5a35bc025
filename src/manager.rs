//! The token manager: the one holder of a signing key, which issues and checks tokens.
use vstd::prelude::*;
use vstd::utf8::encode_utf8;
use crate::algorithms::Algorithm;
use crate::codec::{b64_encode, b64_encode_bytes};
use crate::error::TokenError;
use crate::payload::PayloadItem;
use crate::token::{issued, item_views, parses_to, payload_valid, tag_of, unknown_wire, Token, TokenView, VERSION};

verus! {

/// Relies on `rand::random`, which draws from the thread-local generator `ThreadRng`, a
/// cryptographically secure generator seeded by the operating system. Nothing is promised of
/// the bytes.
#[verifier::external_body]
fn random_key_bytes() -> (r: [u8; 32]) {
    rand::random::<[u8; 32]>()
}

/// Issues and checks tokens with one algorithm and one key, which it never hands out.
/// Rotating the key means making a new manager.
#[derive(Clone, PartialEq)]
pub struct TokenManager {
    /// The wire-format version of the tokens it issues.
    pub version: u8,
    /// The algorithm of the tags.
    pub algorithm: Algorithm,
    key: String,
}

impl TokenManager {
    /// The signing key.
    pub closed spec fn secret(&self) -> Seq<char> {
        self.key@
    }

    /// The algorithm of the tags.
    pub closed spec fn spec_algorithm(&self) -> Algorithm {
        self.algorithm
    }

    /// The wire-format version of the tokens it issues.
    pub closed spec fn spec_version(&self) -> u8 {
        self.version
    }

    /// The bytes of the signing key that the keyed hash takes.
    pub open spec fn key_bytes(&self) -> Seq<u8> {
        encode_utf8(self.secret())
    }

    /// A manager for `alg` with the caller's key.
    pub fn new(alg: Algorithm, key: &str) -> (r: TokenManager)
        ensures
            r.spec_version() == VERSION,
            r.spec_algorithm() == alg,
            r.secret() == key@,
    {
        TokenManager { version: VERSION, key: key.to_owned(), algorithm: alg }
    }

    /// A manager for `alg` whose key is the base64 text of the 32 bytes `bytes`, returned with
    /// that key so that the caller can keep it.
    pub fn with_key_bytes(alg: Algorithm, bytes: [u8; 32]) -> (r: (TokenManager, String))
        ensures
            r.1@ == b64_encode(bytes@),
            r.0.secret() == r.1@,
            r.0.spec_algorithm() == alg,
            r.0.spec_version() == VERSION,
    {
        let key = b64_encode_bytes(&bytes);
        let m = TokenManager { version: VERSION, key: key.clone(), algorithm: alg };
        (m, key)
    }

    /// A manager for `alg` with a fresh random 256-bit key drawn from a cryptographically
    /// secure generator, returned with the key so that the caller can keep it. The key is not
    /// stored anywhere else.
    pub fn generate(alg: Algorithm) -> (r: (TokenManager, String))
        ensures
            r.0.spec_version() == VERSION,
            r.0.spec_algorithm() == alg,
            r.0.secret() == r.1@,
            exists|b: Seq<u8>| b.len() == 32 && r.1@ == b64_encode(b),
    {
        let r = TokenManager::with_key_bytes(alg, random_key_bytes());
        r
    }

    /// Issues a token for `payload` with this manager's algorithm and key.
    pub fn create_token(&self, payload: Vec<PayloadItem>) -> (r: Result<Token, TokenError>)
        ensures
            r is Ok <==> payload_valid(item_views(payload@)),
            match r {
                Ok(t) => issued(self.spec_algorithm(), item_views(payload@), self.key_bytes(), t@),
                Err(e) => e == TokenError::InvalidPayloadField,
            },
    {
        Token::new(self.algorithm, payload, self.key.as_str())
    }

    /// Whether the token's tag is the one this manager's key gives for its header and payload.
    pub fn validate_token(&self, token: &Token) -> (r: bool)
        ensures
            r == (token@.hash == tag_of(self.key_bytes(), token@)),
    {
        token.validate(self.key.as_str())
    }

    /// Reads a token from its wire form and checks its tag with this manager's key. A token
    /// that reads but whose tag does not match gives `VerificationFailed`; text that does not
    /// read gives the error of `Token::parse`.
    pub fn decode(&self, wire: &str) -> (r: Result<Token, TokenError>)
        ensures
            match r {
                Ok(t) => parses_to(wire@, t@) && t@.hash == tag_of(self.key_bytes(), t@),
                Err(e) => {
                    &&& (e == TokenError::UnknownAlgorithm) == unknown_wire(wire@)
                    &&& (e == TokenError::VerificationFailed) == (exists|t: TokenView|
                        parses_to(wire@, t))
                },
            },
            forall|t: TokenView|
                parses_to(wire@, t) ==> (r is Ok <==> t.hash == tag_of(self.key_bytes(), t)),
            forall|t: TokenView| parses_to(wire@, t) && r is Ok ==> r->Ok_0@ == t,
    {
        match Token::parse(wire) {
            Ok(t) => {
                if t.validate(self.key.as_str()) {
                    Ok(t)
                } else {
                    Err(TokenError::VerificationFailed)
                }
            },
            Err(e) => Err(e),
        }
    }
}

} // verus!
