//! The values that the fields of a `Forwarded` stanza carry: node
//! identifiers (`for`, `by`) and protocols (`proto`).
use vstd::prelude::*;
use crate::error::{ForwardedHeaderValueParseError, ParseErrorView};
use crate::ip::{
    IpAddress, ip_of, socket_addr_of, parse_ip, parse_socket_addr, is_ip_char, lemma_ip_chars,
    lemma_ip_not_socket_addr,
};
use crate::text::{trim, trim_start, trim_end, trim_range, chars_of, string_of};

verus! {

/// The transport protocol named by a `proto` field.
#[derive(PartialEq, Eq, Clone, Copy, Debug, Structural)]
pub enum Protocol {
    Http,
    Https,
}

/// `c` is `l` or, where `l` is a lower-case ASCII letter, its upper-case
/// form: `c.to_ascii_lowercase() == l` for a lower-case `l`.
pub open spec fn lower_eq(c: char, l: char) -> bool {
    c == l || (0x61 <= (l as u32) && (l as u32) <= 0x7a && (c as u32) + 32 == (l as u32))
}

/// `t`, with its ASCII letters lower-cased, is the lower-case text `lit`.
pub open spec fn matches_ignore_case(t: Seq<char>, lit: Seq<char>) -> bool {
    t.len() == lit.len() && forall|i: int| 0 <= i < t.len() ==> #[trigger] lower_eq(t[i], lit[i])
}

/// The protocol that `t` names, ignoring ASCII case.
pub open spec fn protocol_of(t: Seq<char>) -> Option<Protocol> {
    if matches_ignore_case(t, seq!['h', 't', 't', 'p']) {
        Some(Protocol::Http)
    } else if matches_ignore_case(t, seq!['h', 't', 't', 'p', 's']) {
        Some(Protocol::Https)
    } else {
        None
    }
}

/// Whether `s[lo..hi]`, with its ASCII letters lower-cased, is `lit`.
pub fn eq_ignore_case(s: &Vec<char>, lo: usize, hi: usize, lit: &[char]) -> (r: bool)
    requires
        lo <= hi <= s.len(),
    ensures
        r == matches_ignore_case(s@.subrange(lo as int, hi as int), lit@),
{
    let ghost t = s@.subrange(lo as int, hi as int);
    if hi - lo != lit.len() {
        return false;
    }
    let mut i: usize = 0;
    while i < lit.len()
        invariant
            hi - lo == lit@.len(),
            lo <= hi <= s.len(),
            t == s@.subrange(lo as int, hi as int),
            i <= lit.len(),
            forall|j: int| 0 <= j < i ==> #[trigger] lower_eq(t[j], lit@[j]),
        decreases lit.len() - i,
    {
        let c = s[lo + i];
        let l = lit[i];
        let cu = c as u32;
        let lu = l as u32;
        if !(c == l || (0x61 <= lu && lu <= 0x7a && cu == lu - 32)) {
            assert(!lower_eq(t[i as int], lit@[i as int]));
            return false;
        }
        i = i + 1;
    }
    true
}

/// The protocol that `s[lo..hi]` names, as `protocol_of` states it.
pub fn parse_protocol(s: &Vec<char>, lo: usize, hi: usize) -> (r: Option<Protocol>)
    requires
        lo <= hi <= s.len(),
    ensures
        r == protocol_of(s@.subrange(lo as int, hi as int)),
{
    let http = ['h', 't', 't', 'p'];
    let https = ['h', 't', 't', 'p', 's'];
    assert(http@ =~= seq!['h', 't', 't', 'p']);
    assert(https@ =~= seq!['h', 't', 't', 'p', 's']);
    if eq_ignore_case(s, lo, hi, &http) {
        Some(Protocol::Http)
    } else if eq_ignore_case(s, lo, hi, &https) {
        Some(Protocol::Https)
    } else {
        None
    }
}

impl Protocol {
    /// The protocol that `s` names, `http` or `https` in any ASCII case.
    pub fn from_str(s: &str) -> (r: Result<Protocol, ForwardedHeaderValueParseError>)
        ensures
            match protocol_of(s@) {
                Some(p) => r == Ok::<Protocol, ForwardedHeaderValueParseError>(p),
                None => r matches Err(ForwardedHeaderValueParseError::InvalidProtocol),
            },
    {
        let c = chars_of(s);
        assert(c@.subrange(0, c@.len() as int) =~= c@);
        match parse_protocol(&c, 0, c.len()) {
            Some(p) => Ok(p),
            None => Err(ForwardedHeaderValueParseError::InvalidProtocol),
        }
    }
}

/// A node identifier of a `for` or `by` field.
#[derive(Clone, Debug, PartialEq, Eq)]
pub enum Identifier {
    /// An address with a port.
    SocketAddress(IpAddress, u16),
    /// An address without a port.
    IpAddress(IpAddress),
    /// An opaque token standing for a hidden node; it starts with `_`.
    Obfuscated(String),
    /// The node is not known.
    Unknown,
}

/// The mathematical value of an [`Identifier`].
pub enum IdentifierView {
    SocketAddress(IpAddress, u16),
    IpAddress(IpAddress),
    Obfuscated(Seq<char>),
    Unknown,
}

impl View for Identifier {
    type V = IdentifierView;

    open spec fn view(&self) -> IdentifierView {
        match self {
            Identifier::SocketAddress(a, p) => IdentifierView::SocketAddress(*a, *p),
            Identifier::IpAddress(a) => IdentifierView::IpAddress(*a),
            Identifier::Obfuscated(s) => IdentifierView::Obfuscated(s@),
            Identifier::Unknown => IdentifierView::Unknown,
        }
    }
}

impl IdentifierView {
    /// The address that the identifier carries, if it carries one.
    pub open spec fn address(self) -> Option<IpAddress> {
        match self {
            IdentifierView::SocketAddress(a, _) => Some(a),
            IdentifierView::IpAddress(a) => Some(a),
            _ => None,
        }
    }
}

impl Identifier {
    /// The address that the identifier carries, if it carries one: the
    /// address of `SocketAddress` (without its port) or of `IpAddress`.
    pub fn address(&self) -> (r: Option<IpAddress>)
        ensures
            r == self@.address(),
    {
        match self {
            Identifier::SocketAddress(a, _) => Some(*a),
            Identifier::IpAddress(a) => Some(*a),
            _ => None,
        }
    }
}

/// `t` without one pair of surrounding double quotes or, failing that, one
/// pair of surrounding single quotes.
pub open spec fn unquote(t: Seq<char>) -> Seq<char> {
    if t.len() >= 2 && ((t[0] == '"' && t.last() == '"') || (t[0] == '\'' && t.last() == '\'')) {
        t.subrange(1, t.len() - 1)
    } else {
        t
    }
}

/// The identifier that the raw token `raw` spells. After trimming and
/// unquoting, the first form that fits decides: `unknown`, an address with
/// a port, a bare address, a bracketed bare address, an obfuscated token
/// starting with `_`.
pub open spec fn identifier_of(raw: Seq<char>) -> Result<IdentifierView, ParseErrorView> {
    let t = unquote(trim(raw));
    if t == seq!['u', 'n', 'k', 'n', 'o', 'w', 'n'] {
        Ok(IdentifierView::Unknown)
    } else if socket_addr_of(t) is Some {
        Ok(IdentifierView::SocketAddress((socket_addr_of(t)->0).0, (socket_addr_of(t)->0).1))
    } else if ip_of(t) is Some {
        Ok(IdentifierView::IpAddress(ip_of(t)->0))
    } else if t.len() >= 2 && t[0] == '[' && t.last() == ']' {
        match ip_of(t.subrange(1, t.len() - 1)) {
            Some(a) => Ok(IdentifierView::IpAddress(a)),
            None => Err(ParseErrorView::InvalidAddress),
        }
    } else if t.len() >= 1 && t[0] == '_' {
        Ok(IdentifierView::Obfuscated(t))
    } else {
        Err(ParseErrorView::InvalidObfuscatedNode(t))
    }
}

/// The view of the result of a parse into an identifier.
pub open spec fn identifier_result_view(r: Result<Identifier, ForwardedHeaderValueParseError>) -> Result<IdentifierView, ParseErrorView> {
    match r {
        Ok(id) => Ok(id@),
        Err(e) => Err(e@),
    }
}

/// The identifier that `s[lo..hi]` spells, as `identifier_of` states it.
pub fn parse_identifier(s: &Vec<char>, lo: usize, hi: usize) -> (r: Result<Identifier, ForwardedHeaderValueParseError>)
    requires
        lo <= hi <= s.len(),
    ensures
        identifier_result_view(r) == identifier_of(s@.subrange(lo as int, hi as int)),
{
    let (a, b) = trim_range(s, lo, hi);
    let ghost tr = s@.subrange(a as int, b as int);
    let (a, b) = if b - a >= 2 && ((s[a] == '"' && s[b - 1] == '"') || (s[a] == '\'' && s[b - 1]
        == '\'')) {
        assert(tr.subrange(1, tr.len() - 1) =~= s@.subrange(a + 1, b - 1));
        (a + 1, b - 1)
    } else {
        (a, b)
    };
    let ghost t = s@.subrange(a as int, b as int);
    assert(t == unquote(trim(s@.subrange(lo as int, hi as int))));
    let unknown = ['u', 'n', 'k', 'n', 'o', 'w', 'n'];
    let mut is_unknown = b - a == 7;
    let mut i: usize = 0;
    while is_unknown && i < 7
        invariant
            a <= b <= s.len(),
            t == s@.subrange(a as int, b as int),
            i <= 7,
            is_unknown ==> b - a == 7,
            is_unknown ==> forall|j: int| 0 <= j < i ==> t[j] == unknown@[j],
            !is_unknown ==> t != seq!['u', 'n', 'k', 'n', 'o', 'w', 'n'],
            unknown@ == seq!['u', 'n', 'k', 'n', 'o', 'w', 'n'],
        decreases 7 - i,
    {
        if s[a + i] != unknown[i] {
            assert(t[i as int] != seq!['u', 'n', 'k', 'n', 'o', 'w', 'n'][i as int]);
            is_unknown = false;
        }
        i = i + 1;
    }
    if is_unknown {
        assert(t =~= seq!['u', 'n', 'k', 'n', 'o', 'w', 'n']);
        return Ok(Identifier::Unknown);
    }
    if let Some((addr, port)) = parse_socket_addr(s, a, b) {
        return Ok(Identifier::SocketAddress(addr, port));
    }
    if let Some(addr) = parse_ip(s, a, b) {
        return Ok(Identifier::IpAddress(addr));
    }
    if b - a >= 2 && s[a] == '[' && s[b - 1] == ']' {
        assert(t.subrange(1, t.len() - 1) =~= s@.subrange(a + 1, b - 1));
        return match parse_ip(s, a + 1, b - 1) {
            Some(addr) => Ok(Identifier::IpAddress(addr)),
            None => Err(ForwardedHeaderValueParseError::InvalidAddress),
        };
    }
    if b - a >= 1 && s[a] == '_' {
        return Ok(Identifier::Obfuscated(string_of(s, a, b)));
    }
    Err(ForwardedHeaderValueParseError::InvalidObfuscatedNode(string_of(s, a, b)))
}

impl Identifier {
    /// The identifier that the raw token `s` spells, as `identifier_of`
    /// states it.
    pub fn from_str(s: &str) -> (r: Result<Identifier, ForwardedHeaderValueParseError>)
        ensures
            identifier_result_view(r) == identifier_of(s@),
    {
        let c = chars_of(s);
        assert(c@.subrange(0, c@.len() as int) =~= c@);
        parse_identifier(&c, 0, c.len())
    }
}

/// Any text that is an IPv4 or IPv6 address, without brackets or port, is
/// read as that address and nothing else.
pub proof fn lemma_ip_literal_is_address(s: Seq<char>)
    requires
        ip_of(s) is Some,
    ensures
        identifier_of(s) == Ok::<IdentifierView, ParseErrorView>(
            IdentifierView::IpAddress(ip_of(s)->0),
        ),
{
    lemma_ip_chars(s);
    lemma_ip_not_socket_addr(s);
    let p = |c: char| is_ip_char(c);
    assert(p(s[0]));
    assert(p(s.last()));
    assert(trim_start(s) == s);
    assert(trim_end(s) == s);
    assert(unquote(s) == s);
    if s == seq!['u', 'n', 'k', 'n', 'o', 'w', 'n'] {
        assert(!p(s[0]));
    }
}

} // verus!
