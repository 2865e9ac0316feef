//! Resolution of the client address: the simple list headers, the
//! structured header and the transport peer, tried in a fixed order.
use vstd::prelude::*;
use crate::forwarded::{
    ForwardedHeaderValue, ForwardedStanza, StanzaView, forwarded_value_of, stanzas_view,
};
use crate::ip::{IpAddress, ip_of, parse_ip};
use crate::text::{trim, split_on, pieces, ranges_within, trim_range, split_ranges, chars_of};

verus! {

/// What the HTTP layer knows of one request that bears on its client
/// address: every occurrence of each of the three proxy headers, in the
/// order received, and the address of the transport peer.
pub struct RequestSnapshot {
    /// The occurrences of `X-Forwarded-For`.
    pub x_forwarded_for: Vec<String>,
    /// The occurrences of `X-Real-IP`.
    pub x_real_ip: Vec<String>,
    /// The occurrences of `Forwarded`.
    pub forwarded: Vec<String>,
    /// The peer of the transport connection, if known.
    pub peer: Option<IpAddress>,
}

/// The mathematical value of a [`RequestSnapshot`].
pub struct SnapshotView {
    pub x_forwarded_for: Seq<Seq<char>>,
    pub x_real_ip: Seq<Seq<char>>,
    pub forwarded: Seq<Seq<char>>,
    pub peer: Option<IpAddress>,
}

/// The texts of the header occurrences `v`.
pub open spec fn texts_view(v: Seq<String>) -> Seq<Seq<char>> {
    v.map_values(|s: String| s@)
}

impl View for RequestSnapshot {
    type V = SnapshotView;

    open spec fn view(&self) -> SnapshotView {
        SnapshotView {
            x_forwarded_for: texts_view(self.x_forwarded_for@),
            x_real_ip: texts_view(self.x_real_ip@),
            forwarded: texts_view(self.forwarded@),
            peer: self.peer,
        }
    }
}

/// The first address in `v`, left to right.
pub open spec fn first_address(v: Seq<Option<IpAddress>>) -> Option<IpAddress>
    decreases v.len(),
{
    if v.len() == 0 {
        None
    } else if v[0] is Some {
        v[0]
    } else {
        first_address(v.skip(1))
    }
}

/// The first of the `,`-separated entries of `s` that, trimmed, is a bare
/// IP address.
pub open spec fn first_listed_address(s: Seq<char>) -> Option<IpAddress> {
    first_address(split_on(s, ',').map_values(|p: Seq<char>| ip_of(trim(p))))
}

/// The address that the `X-Forwarded-For` occurrences `values` give: the
/// first valid entry of the first occurrence; later occurrences are not
/// read.
pub open spec fn forwarded_for_of(values: Seq<Seq<char>>) -> Option<IpAddress> {
    if values.len() == 0 {
        None
    } else {
        first_listed_address(values[0])
    }
}

/// The address that the `X-Real-IP` occurrences `values` give: the first
/// occurrence, trimmed, as a bare IP address.
pub open spec fn real_ip_of(values: Seq<Seq<char>>) -> Option<IpAddress> {
    if values.len() == 0 {
        None
    } else {
        ip_of(trim(values[0]))
    }
}

/// The address that the `for` field of `st` carries, if it carries one.
pub open spec fn for_address(st: StanzaView) -> Option<IpAddress> {
    match st.forwarded_for {
        Some(id) => id.address(),
        None => None,
    }
}

/// The address of the first stanza of `v` whose `for` field carries one.
pub open spec fn first_for_address(v: Seq<StanzaView>) -> Option<IpAddress>
    decreases v.len(),
{
    if v.len() == 0 {
        None
    } else if for_address(v[0]) is Some {
        for_address(v[0])
    } else {
        first_for_address(v.skip(1))
    }
}

/// The stanzas that one `Forwarded` occurrence `h` contributes: all of
/// them if it parses, none if it does not.
pub open spec fn occurrence_stanzas(h: Seq<char>) -> Seq<StanzaView> {
    match forwarded_value_of(h) {
        Ok(v) => v,
        Err(_) => Seq::empty(),
    }
}

/// The stanzas of all `Forwarded` occurrences `values`, flattened in
/// occurrence order.
pub open spec fn all_stanzas(values: Seq<Seq<char>>) -> Seq<StanzaView> {
    values.map_values(|h: Seq<char>| occurrence_stanzas(h)).flatten()
}

/// The address that the `Forwarded` occurrences `values` give.
pub open spec fn structured_of(values: Seq<Seq<char>>) -> Option<IpAddress> {
    first_for_address(all_stanzas(values))
}

/// The client address of the request `r`: `X-Forwarded-For`, then
/// `X-Real-IP`, then `Forwarded`, then the transport peer; the first that
/// gives an address wins.
pub open spec fn client_ip_of(r: SnapshotView) -> Option<IpAddress> {
    if forwarded_for_of(r.x_forwarded_for) is Some {
        forwarded_for_of(r.x_forwarded_for)
    } else if real_ip_of(r.x_real_ip) is Some {
        real_ip_of(r.x_real_ip)
    } else if structured_of(r.forwarded) is Some {
        structured_of(r.forwarded)
    } else {
        r.peer
    }
}

pub proof fn lemma_first_for_address_append(a: Seq<StanzaView>, b: Seq<StanzaView>)
    ensures
        first_for_address(a + b) == if first_for_address(a) is Some {
            first_for_address(a)
        } else {
            first_for_address(b)
        },
    decreases a.len(),
{
    if a.len() == 0 {
        assert(a + b =~= b);
    } else {
        assert((a + b).skip(1) =~= a.skip(1) + b);
        assert((a + b)[0] == a[0]);
        lemma_first_for_address_append(a.skip(1), b);
    }
}

/// The address that the `X-Forwarded-For` occurrences `values` give, as
/// `forwarded_for_of` states it.
pub fn extract_forwarded_for(values: &Vec<String>) -> (r: Option<IpAddress>)
    ensures
        r == forwarded_for_of(texts_view(values@)),
{
    if values.len() == 0 {
        return None;
    }
    let c = chars_of(values[0].as_str());
    assert(c@.subrange(0, c@.len() as int) =~= c@);
    let parts = split_ranges(&c, 0, c.len(), ',');
    let ghost p = pieces(c@, parts@);
    let ghost f = |q: Seq<char>| ip_of(trim(q));
    let ghost m = p.map_values(f);
    let mut k: usize = 0;
    assert(m.skip(0) =~= m);
    assert(texts_view(values@)[0] == c@);
    assert(split_on(c@, ',').map_values(|q: Seq<char>| ip_of(trim(q))) =~= m);
    assert(forwarded_for_of(texts_view(values@)) == first_address(m));
    while k < parts.len()
        invariant
            k <= parts.len(),
            ranges_within(parts@, 0, c.len() as int),
            p == pieces(c@, parts@),
            p == split_on(c@, ','),
            m == p.map_values(f),
            f == |q: Seq<char>| ip_of(trim(q)),
            first_address(m) == first_address(m.skip(k as int)),
            forwarded_for_of(texts_view(values@)) == first_address(m),
        decreases parts.len() - k,
    {
        let (a, b) = trim_range(&c, parts[k].0, parts[k].1);
        assert(p[k as int] == c@.subrange(parts@[k as int].0 as int, parts@[k as int].1 as int));
        assert(m.skip(k as int)[0] == m[k as int]);
        assert(m.skip(k as int).skip(1) =~= m.skip(k + 1));
        let ip = parse_ip(&c, a, b);
        assert(m[k as int] == ip_of(trim(p[k as int])));
        assert(ip == m[k as int]);
        if ip.is_some() {
            return ip;
        }
        k = k + 1;
    }
    assert(m.skip(k as int).len() == 0);
    None
}

/// The address that the `X-Real-IP` occurrences `values` give, as
/// `real_ip_of` states it.
pub fn extract_real_ip(values: &Vec<String>) -> (r: Option<IpAddress>)
    ensures
        r == real_ip_of(texts_view(values@)),
{
    if values.len() == 0 {
        return None;
    }
    let c = chars_of(values[0].as_str());
    assert(c@.subrange(0, c@.len() as int) =~= c@);
    let (a, b) = trim_range(&c, 0, c.len());
    parse_ip(&c, a, b)
}

/// The address of the first of `stanzas` whose `for` field carries one.
pub fn first_stanza_address(stanzas: &Vec<ForwardedStanza>) -> (r: Option<IpAddress>)
    ensures
        r == first_for_address(stanzas_view(stanzas@)),
{
    let ghost v = stanzas_view(stanzas@);
    let mut k: usize = 0;
    assert(v.skip(0) =~= v);
    while k < stanzas.len()
        invariant
            k <= stanzas.len(),
            v == stanzas_view(stanzas@),
            first_for_address(v) == first_for_address(v.skip(k as int)),
        decreases stanzas.len() - k,
    {
        assert(v.skip(k as int)[0] == stanzas@[k as int]@);
        assert(v.skip(k as int).skip(1) =~= v.skip(k + 1));
        let a = match &stanzas[k].forwarded_for {
            Some(id) => id.address(),
            None => None,
        };
        if a.is_some() {
            return a;
        }
        k = k + 1;
    }
    assert(v.skip(k as int).len() == 0);
    None
}

/// The address that the `Forwarded` occurrences `values` give, as
/// `structured_of` states it: each occurrence is parsed on its own, one
/// that fails contributes no stanza, and the first stanza over all of them
/// whose `for` field carries an address wins.
pub fn extract_forwarded(values: &Vec<String>) -> (r: Option<IpAddress>)
    ensures
        r == structured_of(texts_view(values@)),
{
    let ghost t = texts_view(values@);
    let ghost occ = |h: Seq<char>| occurrence_stanzas(h);
    let ghost m = t.map_values(occ);
    let mut k: usize = 0;
    assert(m.skip(0) =~= m);
    while k < values.len()
        invariant
            k <= values.len(),
            t == texts_view(values@),
            occ == |h: Seq<char>| occurrence_stanzas(h),
            m == t.map_values(occ),
            structured_of(t) == first_for_address(m.skip(k as int).flatten()),
        decreases values.len() - k,
    {
        assert(m.skip(k as int)[0] == occurrence_stanzas(values@[k as int]@));
        assert(m.skip(k as int).drop_first() =~= m.skip(k + 1));
        proof {
            lemma_first_for_address_append(m.skip(k as int)[0], m.skip(k + 1).flatten());
        }
        match ForwardedHeaderValue::from_forwarded(values[k].as_str()) {
            Ok(v) => {
                let a = first_stanza_address(v.values());
                if a.is_some() {
                    return a;
                }
            },
            Err(_) => {
                assert(first_for_address(Seq::<StanzaView>::empty()) is None);
            },
        }
        k = k + 1;
    }
    assert(m.skip(k as int).len() == 0);
    None
}

/// The client address of the request `req`, as `client_ip_of` states it:
/// `X-Forwarded-For`, then `X-Real-IP`, then `Forwarded`, then the
/// transport peer.
pub fn get_client_ip(req: &RequestSnapshot) -> (r: Option<IpAddress>)
    ensures
        r == client_ip_of(req@),
{
    let a = extract_forwarded_for(&req.x_forwarded_for);
    if a.is_some() {
        return a;
    }
    let a = extract_real_ip(&req.x_real_ip);
    if a.is_some() {
        return a;
    }
    let a = extract_forwarded(&req.forwarded);
    if a.is_some() {
        return a;
    }
    req.peer
}

/// Resolution depends on the request alone: two requests with the same
/// header occurrences and the same transport peer resolve to the same
/// address, however often the resolution runs.
pub proof fn lemma_resolution_is_deterministic(a: SnapshotView, b: SnapshotView)
    requires
        a == b,
    ensures
        client_ip_of(a) == client_ip_of(b),
{
}

} // verus!
