//! Persistent configuration of the AI endpoint.
//!
//! The Settings application writes the configuration and the runtime reads it at boot, both at
//! [`AI_CONFIG_PATH`] and in the wire encoding. A reader treats an absent or undecodable
//! configuration as [`AiEndpointConfig::default`], so that the runtime always has a working
//! endpoint. A writer calls [`AiEndpointConfig::validate`] first: an invalid endpoint is never
//! written.

use vstd::prelude::*;

use crate::strings::{split_range, to_chars};

verus! {

/// Canonical path of the AI endpoint configuration.
pub const AI_CONFIG_PATH: &'static str = "/ai.cfg";

/// Directory of a nested configuration layout, unused while [`AI_CONFIG_PATH`] is at the root.
pub const CONFIG_DIR: &'static str = "/config";

/// Maximum length (bytes) of the `host` and `model` strings.
pub const CONFIG_MAX_STR: usize = 128;

/// Why an [`AiEndpointConfig`] failed [`AiEndpointConfig::validate`].
#[derive(Debug, Clone, Copy, PartialEq, Eq, Structural)]
#[non_exhaustive]
pub enum ConfigError {
    /// `host` is empty or longer than [`CONFIG_MAX_STR`].
    BadHost,
    /// `host` is not a dotted-quad IPv4 address (`a.b.c.d`, each `0..=255`).
    HostNotIpv4,
    /// `port` is zero.
    BadPort,
    /// `model` is empty or longer than [`CONFIG_MAX_STR`].
    BadModel,
}

/// The AI backend endpoint the runtime connects to.
#[derive(Debug, Clone, PartialEq, Eq)]
pub struct AiEndpointConfig {
    /// Backend host as a dotted-quad IPv4 string, e.g. `"127.0.0.1"`.
    pub host: String,
    /// Backend TCP port, e.g. `11434`.
    pub port: u16,
    /// Model name, e.g. `"gemma4:latest"`.
    pub model: String,
}

/// The number that a segment of an address denotes: one to three digits, without a leading zero
/// unless the segment is `0`, and at most 255.
pub open spec fn octet(s: Seq<char>) -> Option<nat> {
    if 1 <= s.len() <= 3 && crate::strings::all_digits(s) && (s.len() > 1 ==> s[0] != '0')
        && crate::strings::decimal_value(s) <= 255 {
        Some(crate::strings::decimal_value(s))
    } else {
        None
    }
}

/// The four numbers of a dotted-quad address.
pub open spec fn address(s: Seq<char>) -> Option<Seq<nat>> {
    let segments = crate::strings::split(s, '.');
    if segments.len() == 4 && octet(segments[0]) is Some && octet(segments[1]) is Some && octet(
        segments[2],
    ) is Some && octet(segments[3]) is Some {
        Some(segments.map_values(|p: Seq<char>| octet(p)->0))
    } else {
        None
    }
}

/// The octets are the numbers of the address.
pub open spec fn holds_address(octets: Seq<u8>, s: Seq<char>) -> bool {
    address(s) matches Some(a) && octets.map_values(|b: u8| b as nat) == a
}

fn parse_octet(v: &[char]) -> (r: Option<u8>)
    ensures
        match r {
            Some(b) => octet(v@) == Some(b as nat),
            None => octet(v@) is None,
        },
{
    let len: usize = v.len();
    if len == 0 || len > 3 || (len > 1 && v[0] == '0') {
        return None;
    }
    assert(v@.subrange(0, len as int) == v@);
    match crate::strings::parse_digits(v, 0, len, 255) {
        Some(n) => Some(n as u8),
        None => None,
    }
}

/// Parses a dotted-quad IPv4 string into its four octets.
///
/// Returns `None` on any malformation: a wrong number of segments, a character that is no digit,
/// an octet out of range, an empty segment, or a leading zero beyond a single `0`.
pub fn parse_ipv4(s: &str) -> (r: Option<[u8; 4]>)
    ensures
        match r {
            Some(o) => holds_address(o@, s@),
            None => address(s@) is None,
        },
{
    let v = to_chars(s);
    let len: usize = v.len();
    let parts = split_range(&v, 0, len, '.');
    assert(v@.subrange(0, len as int) == v@);
    let ghost segments = crate::strings::split(s@, '.');
    if parts.len() != 4 {
        return None;
    }
    assert(segments[0] == parts@[0]@);
    assert(segments[1] == parts@[1]@);
    assert(segments[2] == parts@[2]@);
    assert(segments[3] == parts@[3]@);
    match (
        parse_octet(&parts[0]),
        parse_octet(&parts[1]),
        parse_octet(&parts[2]),
        parse_octet(&parts[3]),
    ) {
        (Some(a), Some(b), Some(c), Some(d)) => {
            let o: [u8; 4] = [a, b, c, d];
            assert(o@.map_values(|b: u8| b as nat) =~= address(s@)->0);
            Some(o)
        },
        _ => None,
    }
}

/// The text cut at its first dot.
proof fn lemma_split_at(s: Seq<char>, i: int)
    requires
        0 <= i < s.len(),
        s[i] == '.',
        forall|j: int| 0 <= j < i ==> s[j] != '.',
    ensures
        crate::strings::split(s, '.') == seq![s.take(i)] + crate::strings::split(
            s.skip(i + 1),
            '.',
        ),
{
    crate::strings::lemma_find_char_at(s, '.', i);
}

/// A segment of one digit.
proof fn lemma_octet_of_digit(c: char)
    requires
        crate::strings::is_digit(c),
    ensures
        octet(seq![c]) == Some(crate::strings::digit_value(c)),
{
    reveal_with_fuel(crate::strings::decimal_value, 2);
    assert(seq![c].drop_last() =~= Seq::empty());
}

/// The fallback endpoint is valid: a reader that falls back to it always has an address to
/// connect to.
pub proof fn law_default_is_valid(c: AiEndpointConfig)
    requires
        call_ensures(AiEndpointConfig::default, (), c),
    ensures
        c.fault() is None,
{
    let s = c.host@;
    reveal_strlit("127.0.0.1");
    reveal_strlit("gemma4:latest");
    crate::strings::lemma_utf8_len(s);
    crate::strings::lemma_utf8_len(c.model@);
    let t = s.skip(4);
    let u = t.skip(2);
    let v = u.skip(2);
    lemma_split_at(s, 3);
    lemma_split_at(t, 1);
    lemma_split_at(u, 1);
    crate::strings::lemma_find_char_at(v, '.', 1);
    assert(s.take(3) =~= seq!['1', '2', '7']);
    assert(t.take(1) =~= seq!['0']);
    assert(u.take(1) =~= seq!['0']);
    assert(v =~= seq!['1']);
    lemma_octet_of_digit('0');
    lemma_octet_of_digit('1');
    assert(octet(seq!['1', '2', '7']) is Some) by {
        reveal_with_fuel(crate::strings::decimal_value, 4);
        assert(seq!['1', '2', '7'].drop_last() =~= seq!['1', '2']);
        assert(seq!['1', '2'].drop_last() =~= seq!['1']);
        assert(seq!['1'].drop_last() =~= Seq::empty());
    }
    assert(crate::strings::split(s, '.') =~= seq![s.take(3), t.take(1), u.take(1), v]);
}

impl Default for AiEndpointConfig {
    /// The built-in fallback, used whenever the stored configuration is absent or corrupt.
    fn default() -> (r: Self)
        ensures
            r.host@ == "127.0.0.1"@,
            r.port == 11434,
            r.model@ == "gemma4:latest"@,
    {
        AiEndpointConfig {
            host: "127.0.0.1".to_owned(),
            port: 11434,
            model: "gemma4:latest".to_owned(),
        }
    }
}

/// A text that is neither empty nor too long.
pub open spec fn has_good_length(s: Seq<char>) -> bool {
    0 < crate::strings::utf8(s).len() <= CONFIG_MAX_STR
}

fn is_good_length(s: &String) -> (r: bool)
    ensures
        r == has_good_length(s@),
{
    let n: usize = s.as_str().as_bytes().len();
    0 < n && n <= CONFIG_MAX_STR
}

impl AiEndpointConfig {
    /// The first thing that is wrong with the configuration, if any.
    pub open spec fn fault(&self) -> Option<ConfigError> {
        if !has_good_length(self.host@) {
            Some(ConfigError::BadHost)
        } else if address(self.host@) is None {
            Some(ConfigError::HostNotIpv4)
        } else if self.port == 0 {
            Some(ConfigError::BadPort)
        } else if !has_good_length(self.model@) {
            Some(ConfigError::BadModel)
        } else {
            None
        }
    }

    /// Validates user-supplied values before they are stored. Returns the parsed octets of the
    /// host.
    ///
    /// # Errors
    ///
    /// [`ConfigError`] for an empty or oversized host, a host that is no IPv4 address, a zero
    /// port, or an empty or oversized model.
    pub fn validate(&self) -> (r: Result<[u8; 4], ConfigError>)
        ensures
            match r {
                Ok(o) => self.fault() is None && holds_address(o@, self.host@),
                Err(e) => self.fault() == Some(e),
            },
    {
        if !is_good_length(&self.host) {
            return Err(ConfigError::BadHost);
        }
        let octets = match parse_ipv4(&self.host) {
            Some(o) => o,
            None => {
                return Err(ConfigError::HostNotIpv4);
            },
        };
        if self.port == 0 {
            return Err(ConfigError::BadPort);
        }
        if !is_good_length(&self.model) {
            return Err(ConfigError::BadModel);
        }
        Ok(octets)
    }

    /// The connect address that the socket layer expects: the four octets of the host and the
    /// port, high byte first.
    ///
    /// # Errors
    ///
    /// [`ConfigError`] if [`Self::validate`] fails: an invalid configuration has no address.
    pub fn to_connect_addr(&self) -> (r: Result<[u8; 6], ConfigError>)
        ensures
            match r {
                Ok(a) => self.fault() is None && holds_address(a@.take(4), self.host@) && a@[4]
                    * 256 + a@[5] == self.port,
                Err(e) => self.fault() == Some(e),
            },
    {
        match self.validate() {
            Ok(o) => {
                let hi: u8 = (self.port / 256) as u8;
                let lo: u8 = (self.port % 256) as u8;
                let a: [u8; 6] = [o[0], o[1], o[2], o[3], hi, lo];
                assert(a@.take(4) == o@);
                Ok(a)
            },
            Err(e) => Err(e),
        }
    }
}

/// An address as it is written: four numbers with dots between them.
pub open spec fn address_text(a: Seq<nat>) -> Seq<char> {
    crate::strings::joined_by(a.map_values(|n: nat| crate::strings::decimal(n)), '.')
}

proof fn lemma_octet_of_number(n: nat)
    requires
        n <= 255,
    ensures
        octet(crate::strings::decimal(n)) == Some(n),
        !crate::strings::decimal(n).contains('.'),
{
    let d = crate::strings::decimal(n);
    crate::strings::law_decimal_places(n);
    assert(vstd::arithmetic::power::pow(10, 3) == 1000) by {
        reveal_with_fuel(vstd::arithmetic::power::pow, 4);
    }
    crate::strings::lemma_decimal_len(n, 3);
    if d.contains('.') {
        let k = choose|k: int| 0 <= k < d.len() && d[k] == '.';
        assert(crate::strings::is_digit(d[k]));
    }
}

/// An address is read as it is written, and nothing else is an address: the text of four numbers up
/// to 255 gives these numbers, and a text that gives four numbers is their text.
pub proof fn law_addresses_are_read_as_written(a: Seq<nat>, s: Seq<char>)
    ensures
        a.len() == 4 && (forall|k: int| 0 <= k < 4 ==> #[trigger] a[k] <= 255) ==> address(
            address_text(a),
        ) == Some(a),
        address(s) matches Some(b) ==> b.len() == 4 && s == address_text(b) && forall|k: int|
            0 <= k < 4 ==> #[trigger] b[k] <= 255,
{
    if a.len() == 4 && (forall|k: int| 0 <= k < 4 ==> #[trigger] a[k] <= 255) {
        let pieces = a.map_values(|n: nat| crate::strings::decimal(n));
        assert forall|k: int| 0 <= k < 4 implies octet(#[trigger] pieces[k]) == Some(a[k])
            && !pieces[k].contains('.') by {
            lemma_octet_of_number(a[k]);
        }
        crate::strings::lemma_split_joined(pieces, '.');
        assert(octet(pieces[0]) is Some && octet(pieces[1]) is Some && octet(pieces[2]) is Some
            && octet(pieces[3]) is Some);
        assert(pieces.map_values(|p: Seq<char>| octet(p)->0) =~= a);
    }
    if let Some(b) = address(s) {
        let segments = crate::strings::split(s, '.');
        let pieces = b.map_values(|n: nat| crate::strings::decimal(n));
        assert forall|k: int| 0 <= k < 4 implies pieces[k] == #[trigger] segments[k] && b[k]
            <= 255 by {
            assert(octet(segments[k]) is Some);
            assert(b[k] == octet(segments[k])->0);
            crate::strings::lemma_decimal_of_digits(segments[k]);
        }
        assert forall|k: int| 0 <= k < 4 implies #[trigger] b[k] <= 255 by {
            assert(pieces[k] == segments[k]);
        }
        assert(pieces =~= segments);
        crate::strings::law_split_pieces_join(s, '.');
    }
}

/// A configuration is refused for the first of its parts that is wrong, in the order host, port and
/// model, and accepted where none is.
pub proof fn law_the_first_fault_is_named(c: AiEndpointConfig)
    ensures
        ({
            let host = 0 < crate::strings::utf8(c.host@).len() <= CONFIG_MAX_STR;
            let model = 0 < crate::strings::utf8(c.model@).len() <= CONFIG_MAX_STR;
            let ip = address(c.host@) is Some;
            &&& c.fault() is None <==> host && ip && c.port > 0 && model
            &&& c.fault() == Some(ConfigError::BadHost) <==> !host
            &&& c.fault() == Some(ConfigError::HostNotIpv4) <==> host && !ip
            &&& c.fault() == Some(ConfigError::BadPort) <==> host && ip && c.port == 0
            &&& c.fault() == Some(ConfigError::BadModel) <==> host && ip && c.port > 0 && !model
        }),
{
}

} // verus!
