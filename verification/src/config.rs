//! The configuration and its signature.

use crate::error::Error;
use crate::paths::{simplified_path, simplified_path_of};
use crate::search::chars_of;
use crate::text::{
    char_offset, chars_before_byte, lemma_chars_before_bound, lemma_encode_concat, lemma_on_char,
    on_char, slice, split_at_char,
};
use sha2::Digest;
use std::path::PathBuf;
use vstd::prelude::*;
use vstd::utf8::encode_utf8;

verus! {

/// The configuration of the server.
#[derive(Debug)]
pub struct Config {
    pub ado_connection_string: String,
    pub trust_cert: Option<bool>,
    pub case_sensitive: Option<bool>,
    pub get_symbols_query: String,
    pub sign: String,
    pub symbols_highlight: Option<bool>,
}

/// What a `Config` says.
pub struct ConfigView {
    pub ado_connection_string: Seq<char>,
    pub trust_cert: Option<bool>,
    pub case_sensitive: Option<bool>,
    pub get_symbols_query: Seq<char>,
    pub sign: Seq<char>,
    pub symbols_highlight: Option<bool>,
}

impl View for Config {
    type V = ConfigView;

    open spec fn view(&self) -> ConfigView {
        ConfigView {
            ado_connection_string: self.ado_connection_string@,
            trust_cert: self.trust_cert,
            case_sensitive: self.case_sensitive,
            get_symbols_query: self.get_symbols_query@,
            sign: self.sign@,
            symbols_highlight: self.symbols_highlight,
        }
    }
}

impl Clone for Config {
    fn clone(&self) -> (r: Self)
        ensures
            r@ == self@,
    {
        Config {
            ado_connection_string: self.ado_connection_string.clone(),
            trust_cert: self.trust_cert,
            case_sensitive: self.case_sensitive,
            get_symbols_query: self.get_symbols_query.clone(),
            sign: self.sign.clone(),
            symbols_highlight: self.symbols_highlight,
        }
    }
}

impl Default for Config {
    fn default() -> (r: Self)
        ensures
            r@ == (ConfigView {
                ado_connection_string: seq![],
                trust_cert: None,
                case_sensitive: None,
                get_symbols_query: seq![],
                sign: seq![],
                symbols_highlight: None,
            }),
    {
        Config {
            ado_connection_string: String::new(),
            trust_cert: None,
            case_sensitive: None,
            get_symbols_query: String::new(),
            sign: String::new(),
            symbols_highlight: None,
        }
    }
}

/// The SHA-256 digest of `data`.
pub uninterp spec fn sha256(data: Seq<u8>) -> Seq<u8>;

/// `sha2::Sha256::digest`: the digest of the data, of 32 bytes.
#[verifier::external_body]
pub(crate) fn sha256_digest(data: &Vec<u8>) -> (r: Vec<u8>)
    ensures
        r@ == sha256(data@),
        r@.len() == 32,
{
    sha2::Sha256::digest(data).to_vec()
}

/// The hexadecimal digit of `n`, in lower case.
pub open spec fn hex_digit(n: int) -> char {
    if n < 10 {
        ('0' as u32 + n) as char
    } else {
        ('a' as u32 + n - 10) as char
    }
}

/// The hexadecimal digits of bytes, two of each.
pub open spec fn hex_text(bytes: Seq<u8>) -> Seq<char> {
    Seq::new(
        2 * bytes.len(),
        |i: int|
            hex_digit(
                if i % 2 == 0 {
                    bytes[i / 2] as int / 16
                } else {
                    bytes[i / 2] as int % 16
                },
            ),
    )
}

/// `hex::encode`: two digits in lower case of each byte, the upper half first.
#[verifier::external_body]
pub(crate) fn hex_encode(bytes: &Vec<u8>) -> (r: String)
    ensures
        r@ == hex_text(bytes@),
{
    hex::encode(bytes)
}

/// The signature that a query should have: the digest of the secret followed by the query.
pub open spec fn signature(secret: Seq<char>, query: Seq<char>) -> Seq<char> {
    hex_text(sha256(encode_utf8(secret) + encode_utf8(query)))
}

/// Whether a configuration has the signature that it should have.
pub open spec fn is_signed(config: ConfigView, secret: Seq<char>) -> bool {
    config.sign == signature(secret, config.get_symbols_query)
}

/// Turns the digest of a secret and a query into a signature.
pub fn signature_of_digest(digest: &Vec<u8>) -> (r: String)
    ensures
        r@ == hex_text(digest@),
{
    hex_encode(digest)
}

/// The number of quotes on each side of a string of a configuration file: three of a string that
/// may have line breaks, else one.
pub open spec fn quotes(value: Seq<char>) -> int {
    if value.len() >= 6 && (value[0] == '"' || value[0] == '\'') && value[1] == value[0]
        && value[2] == value[0] {
        3
    } else {
        1
    }
}

/// The text between the quotes of the string that stands from character `a` to `b`.
pub open spec fn quoted(raw: Seq<char>, a: int, b: int) -> Seq<char> {
    let n = quotes(raw.subrange(a, b));
    raw.subrange(a + n, b - n)
}

/// A text in which `key` stands between the quotes of the string from character `a` to `b`.
pub open spec fn signed_text(raw: Seq<char>, a: int, b: int, key: Seq<char>) -> Seq<char> {
    let n = quotes(raw.subrange(a, b));
    raw.take(a + n) + key + raw.skip(b - n)
}

/// The end of that string in the new text.
pub open spec fn signed_end(raw: Seq<char>, a: int, b: int, key: Seq<char>) -> int {
    a + key.len() + 2 * quotes(raw.subrange(a, b))
}

fn count_quotes(value: &Vec<char>) -> (n: usize)
    ensures
        n == quotes(value@),
{
    if value.len() >= 6 && (value[0] == '"' || value[0] == '\'') && value[1] == value[0]
        && value[2] == value[0] {
        3
    } else {
        1
    }
}

impl Config {
    /// The signature that the configuration should have.
    pub fn sign_key(&self, secret: &str) -> (r: String)
        ensures
            r@ == signature(secret@, self@.get_symbols_query),
            r@.len() == 64,
    {
        let mut data: Vec<u8> = Vec::new();
        data.extend_from_slice(secret.as_bytes());
        data.extend_from_slice(self.get_symbols_query.as_str().as_bytes());
        proof {
            assert(data@ =~= encode_utf8(secret@) + encode_utf8(self@.get_symbols_query));
        }
        let digest = sha256_digest(&data);
        signature_of_digest(&digest)
    }

    /// Whether the configuration has the signature that it should have.
    pub fn is_signed(&self, secret: &str) -> (r: bool)
        ensures
            r == is_signed(self@, secret@),
    {
        self.sign_key(secret) == self.sign
    }

    /// The text of a configuration file after it has been signed: the signature that the
    /// configuration should have stands between the quotes of the value of `sign`, a string that
    /// starts at byte `start` and ends at byte `end`.
    pub fn sign(&self, raw_config: &str, start: usize, end: usize, secret: &str) -> (r: String)
        requires
            start <= end,
            on_char(raw_config@, start as int),
            on_char(raw_config@, end as int),
            chars_before_byte(raw_config@, start as int) + 2 <= chars_before_byte(
                raw_config@,
                end as int,
            ),
        ensures
            r@ == signed_text(
                raw_config@,
                chars_before_byte(raw_config@, start as int) as int,
                chars_before_byte(raw_config@, end as int) as int,
                signature(secret@, self@.get_symbols_query),
            ),
    {
        let ghost raw = raw_config@;
        let ghost a = chars_before_byte(raw, start as int) as int;
        let ghost b = chars_before_byte(raw, end as int) as int;
        proof {
            lemma_chars_before_bound(raw, end as int);
        }
        let key = self.sign_key(secret);
        let value = slice(raw_config, start, end);
        let chars = chars_of(value);
        let n: usize = count_quotes(&chars);
        let opened: usize = char_offset(value, n);
        let closed: usize = char_offset(value, chars.len() - n);
        proof {
            lemma_on_char(value@, n as int);
            lemma_on_char(value@, chars@.len() - n);
        }
        let mut r = split_at_char(raw_config, start).0.to_owned();
        r.append(split_at_char(value, opened).0);
        r.append(key.as_str());
        r.append(split_at_char(value, closed).1);
        r.append(split_at_char(raw_config, end).1);
        proof {
            assert(value@ == raw.subrange(a, b));
            assert(raw.take(a) + value@.take(n as int) =~= raw.take(a + n));
            assert(value@.skip(value@.len() - n) + raw.skip(b) =~= raw.skip(b - n));
            assert(r@ =~= signed_text(raw, a, b, key@));
        }
        r
    }
}

/// What is told of a configuration without the right signature: how to sign one, and what one
/// looks like.
pub fn not_signed_message(app: &str, config_help: &str) -> (r: String)
    ensures
        r@ == "you should sign config (See: '"@ + app@ + " --help')\n"@ + config_help@,
{
    let mut r = "you should sign config (See: '".to_owned();
    r.append(app);
    r.append(" --help')\n");
    r.append(config_help);
    r
}

/// The folder, beside the configuration file, that definitions are written to.
pub fn output_folder(crate_name: &str, app: &str) -> (r: String)
    ensures
        r@ == crate_name@ + "_output/"@ + app@ + "/"@,
{
    let mut r = crate_name.to_owned();
    r.append("_output/");
    r.append(app);
    r.append("/");
    r
}

/// The absolute path that a path stands for, in its simple form: the one that it gives when it is
/// taken from the current directory, which is itself for an absolute path. Where there is no
/// current directory, a path that exists stands for itself.
pub fn resolve_path(raw_path: PathBuf, exists: bool, relative: Option<PathBuf>) -> (r: Result<
    PathBuf,
    Error,
>)
    ensures
        r == (if relative is Some {
            Ok::<PathBuf, Error>(simplified_path_of(relative->0))
        } else if exists {
            Ok(simplified_path_of(raw_path))
        } else {
            Err(Error::PathNotFound)
        }),
{
    match relative {
        Some(path) => Ok(simplified_path(path)),
        None => if exists {
            Ok(simplified_path(raw_path))
        } else {
            Err(Error::PathNotFound)
        },
    }
}

/// A configuration that is given the signature it should have is accepted.
pub proof fn law_signing_makes_signed(config: ConfigView, secret: Seq<char>)
    ensures
        is_signed(
            ConfigView { sign: signature(secret, config.get_symbols_query), ..config },
            secret,
        ),
{
}

/// The signature covers the query and nothing else: with the same query and the same signature
/// a configuration is accepted or refused alike, whatever else it says.
pub proof fn law_signature_covers_query(a: ConfigView, b: ConfigView, secret: Seq<char>)
    requires
        a.get_symbols_query == b.get_symbols_query,
        a.sign == b.sign,
    ensures
        is_signed(a, secret) == is_signed(b, secret),
{
}

/// Signing a file puts the signature in the place of the old one, whatever that is, and leaves
/// the rest of the file as it was.
pub proof fn law_signing_changes_signature_only(
    raw: Seq<char>,
    config: ConfigView,
    secret: Seq<char>,
    a: int,
    b: int,
)
    requires
        0 <= a,
        a + 2 <= b <= raw.len(),
        quoted(raw, a, b) == config.sign,
    ensures
        ({
            let key = signature(secret, config.get_symbols_query);
            let at = a + quotes(raw.subrange(a, b));
            &&& raw == raw.take(at) + config.sign + raw.skip(at + config.sign.len())
            &&& signed_text(raw, a, b, key) == raw.take(at) + key + raw.skip(
                at + config.sign.len(),
            )
        }),
{
    let n = quotes(raw.subrange(a, b));
    assert(raw =~= raw.take(a + n) + quoted(raw, a, b) + raw.skip(b - n));
}

/// In a signed file the value of `sign` is the signature.
pub proof fn law_signed_file_holds_signature(
    raw: Seq<char>,
    secret: Seq<char>,
    query: Seq<char>,
    a: int,
    b: int,
)
    requires
        0 <= a,
        a + 2 <= b <= raw.len(),
    ensures
        ({
            let key = signature(secret, query);
            let text = signed_text(raw, a, b, key);
            let end = signed_end(raw, a, b, key);
            &&& a + 2 <= end <= text.len()
            &&& quotes(text.subrange(a, end)) == quotes(raw.subrange(a, b))
            &&& quoted(text, a, end) == key
        }),
{
    let key = signature(secret, query);
    let value = raw.subrange(a, b);
    let n = quotes(value);
    let text = signed_text(raw, a, b, key);
    let end = signed_end(raw, a, b, key);
    let new_value = text.subrange(a, end);
    assert forall|i: int| 0 <= i < n implies new_value[i] == value[i] by {}
    if n == 1 && key.len() > 0 {
        assert(new_value[1] == key[0]);
        law_signature_digits(secret, query, 0);
    }
    assert(quotes(new_value) == n);
    assert(quoted(text, a, end) =~= key);
}

/// A configuration that is read from a signed file, with the query that was signed, is accepted.
pub proof fn law_signed_file_is_accepted(
    raw: Seq<char>,
    config: ConfigView,
    secret: Seq<char>,
    a: int,
    b: int,
    read: ConfigView,
)
    requires
        0 <= a,
        a + 2 <= b <= raw.len(),
        read.get_symbols_query == config.get_symbols_query,
        ({
            let key = signature(secret, config.get_symbols_query);
            read.sign == quoted(
                signed_text(raw, a, b, key),
                a,
                signed_end(raw, a, b, key),
            )
        }),
    ensures
        is_signed(read, secret),
{
    law_signed_file_holds_signature(raw, secret, config.get_symbols_query, a, b);
}

/// To sign a file again leaves it as it is.
pub proof fn law_signing_again_changes_nothing(
    raw: Seq<char>,
    secret: Seq<char>,
    query: Seq<char>,
    a: int,
    b: int,
)
    requires
        0 <= a,
        a + 2 <= b <= raw.len(),
    ensures
        ({
            let key = signature(secret, query);
            signed_text(
                signed_text(raw, a, b, key),
                a,
                signed_end(raw, a, b, key),
                key,
            ) == signed_text(raw, a, b, key)
        }),
{
    let key = signature(secret, query);
    let text = signed_text(raw, a, b, key);
    law_signed_file_holds_signature(raw, secret, query, a, b);
    assert(signed_text(text, a, signed_end(raw, a, b, key), key) =~= text);
}

/// Signatures are made of hexadecimal digits in lower case.
pub proof fn law_signature_digits(secret: Seq<char>, query: Seq<char>, i: int)
    requires
        0 <= i < signature(secret, query).len(),
    ensures
        ({
            let c = signature(secret, query)[i];
            '0' <= c <= '9' || 'a' <= c <= 'f'
        }),
{
    let bytes = sha256(encode_utf8(secret) + encode_utf8(query));
    let n = if i % 2 == 0 {
        bytes[i / 2] as int / 16
    } else {
        bytes[i / 2] as int % 16
    };
    assert(0 <= n < 16);
}

/// The signature is made of the whole secret and the whole query: it is the digest of the one text
/// followed by the other, in hexadecimal digits. A configuration is signed exactly if it has that
/// signature.
pub proof fn law_signature_is_of_whole_texts(config: ConfigView, secret: Seq<char>)
    ensures
        signature(secret, config.get_symbols_query) == hex_text(
            sha256(encode_utf8(secret + config.get_symbols_query)),
        ),
        is_signed(config, secret) <==> config.sign == hex_text(
            sha256(encode_utf8(secret + config.get_symbols_query)),
        ),
{
    lemma_encode_concat(secret, config.get_symbols_query);
}

/// The hexadecimal digits of a byte give it back: the first counts sixteen.
pub proof fn law_hex_digits_give_bytes(bytes: Seq<u8>, i: int)
    requires
        0 <= i < bytes.len(),
    ensures
        hex_text(bytes).len() == 2 * bytes.len(),
        ({
            let high = hex_text(bytes)[2 * i];
            let low = hex_text(bytes)[2 * i + 1];
            let value = |c: char|
                if c <= '9' {
                    c as int - '0' as int
                } else {
                    c as int - 'a' as int + 10
                };
            &&& '0' <= high <= '9' || 'a' <= high <= 'f'
            &&& '0' <= low <= '9' || 'a' <= low <= 'f'
            &&& bytes[i] == 16 * value(high) + value(low)
        }),
{
    assert((2 * i) / 2 == i && (2 * i + 1) / 2 == i);
    assert((2 * i) % 2 == 0 && (2 * i + 1) % 2 == 1);
}

/// In a file whose signature stands between quotes, one or three on each side, the new signature
/// stands between the same quotes, and all before and behind is kept.
pub proof fn law_signature_is_put_between_quotes(
    before: Seq<char>,
    quote: char,
    old_sign: Seq<char>,
    after: Seq<char>,
    key: Seq<char>,
)
    requires
        quote == '"' || quote == '\'',
    ensures
        old_sign.len() == 0 || old_sign[0] != quote ==> {
            let q = seq![quote];
            let raw = before + q + old_sign + q + after;
            let a = before.len() as int;
            signed_text(raw, a, a + 2 + old_sign.len(), key) == before + q + key + q + after
        },
        ({
            let q = seq![quote, quote, quote];
            let raw = before + q + old_sign + q + after;
            let a = before.len() as int;
            signed_text(raw, a, a + 6 + old_sign.len(), key) == before + q + key + q + after
        }),
{
    let a = before.len() as int;
    let one = seq![quote];
    let three = seq![quote, quote, quote];
    if old_sign.len() == 0 || old_sign[0] != quote {
        let raw = before + one + old_sign + one + after;
        let b = a + 2 + old_sign.len();
        let value = raw.subrange(a, b);
        assert(value =~= one + old_sign + one);
        if old_sign.len() > 0 {
            assert(value[1] == old_sign[0]);
        }
        assert(signed_text(raw, a, b, key) =~= before + one + key + one + after);
    }
    let raw = before + three + old_sign + three + after;
    let b = a + 6 + old_sign.len();
    assert(raw.subrange(a, b) =~= three + old_sign + three);
    assert(signed_text(raw, a, b, key) =~= before + three + key + three + after);
}

/// A configuration says what its fields say.
pub proof fn law_config_is_taken_as_it_is(config: Config)
    ensures
        config@.ado_connection_string == config.ado_connection_string@,
        config@.trust_cert == config.trust_cert,
        config@.case_sensitive == config.case_sensitive,
        config@.get_symbols_query == config.get_symbols_query@,
        config@.sign == config.sign@,
        config@.symbols_highlight == config.symbols_highlight,
{
}

} // verus!
